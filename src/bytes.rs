//! Byte-string helpers: copying, searching, splitting and path joining.
use vstd::prelude::*;

verus! {

/// The first index at or after `i` where `s` holds `b`, or `s.len()` when there is none.
pub open spec fn scan_to(s: Seq<u8>, b: u8, i: int) -> int
    decreases s.len() - i,
{
    if i >= s.len() {
        s.len() as int
    } else if s[i] == b {
        i
    } else {
        scan_to(s, b, i + 1)
    }
}

/// The pieces of `s[start..]` separated by `b`, where `s[start..i]` is known to hold no `b`.
pub open spec fn split_from(s: Seq<u8>, b: u8, start: int, i: int) -> Seq<Seq<u8>>
    decreases s.len() - i,
{
    if i >= s.len() {
        seq![s.subrange(start, s.len() as int)]
    } else if s[i] == b {
        seq![s.subrange(start, i)] + split_from(s, b, i + 1, i + 1)
    } else {
        split_from(s, b, start, i + 1)
    }
}

/// The pieces of `s` separated by `b`; an empty input gives one empty piece.
pub open spec fn split_on(s: Seq<u8>, b: u8) -> Seq<Seq<u8>> {
    split_from(s, b, 0, 0)
}

/// A path joined as on Unix: an absolute `name` replaces `dir`, otherwise one `/`
/// separates the two unless `dir` is empty or already ends in `/`.
pub open spec fn join_spec(dir: Seq<u8>, name: Seq<u8>) -> Seq<u8> {
    if name.len() > 0 && name[0] == 0x2f {
        name
    } else if dir.len() == 0 || dir[dir.len() - 1] == 0x2f {
        dir + name
    } else {
        dir + seq![0x2fu8] + name
    }
}

/// The byte views of a list of byte strings.
pub open spec fn views(v: Seq<Vec<u8>>) -> Seq<Seq<u8>> {
    v.map_values(|x: Vec<u8>| x@)
}

/// Returns a fresh vector holding the bytes of `s`.
pub fn copy_bytes(s: &[u8]) -> (r: Vec<u8>)
    ensures
        r@ == s@,
{
    let mut r: Vec<u8> = Vec::new();
    let mut i: usize = 0;
    while i < s.len()
        invariant
            i <= s@.len(),
            r@ == s@.subrange(0, i as int),
        decreases s@.len() - i,
    {
        r.push(s[i]);
        i += 1;
        assert(r@ =~= s@.subrange(0, i as int));
    }
    assert(r@ =~= s@);
    r
}

/// Returns a fresh copy of a list of byte strings.
pub fn copy_all(v: &Vec<Vec<u8>>) -> (r: Vec<Vec<u8>>)
    ensures
        views(r@) == views(v@),
{
    let mut r: Vec<Vec<u8>> = Vec::new();
    let mut i: usize = 0;
    while i < v.len()
        invariant
            i <= v@.len(),
            views(r@) =~= views(v@.subrange(0, i as int)),
        decreases v@.len() - i,
    {
        let x = copy_bytes(v[i].as_slice());
        assert(views(v@.subrange(0, i + 1)) =~= views(v@.subrange(0, i as int)).push(v@[i as int]@));
        assert(views(r@.push(x)) =~= views(r@).push(x@));
        r.push(x);
        i += 1;
    }
    assert(v@.subrange(0, v@.len() as int) =~= v@);
    r
}

/// Whether the two byte strings are equal.
pub fn bytes_eq(a: &[u8], b: &[u8]) -> (r: bool)
    ensures
        r == (a@ == b@),
{
    if a.len() != b.len() {
        return false;
    }
    let mut i: usize = 0;
    while i < a.len()
        invariant
            i <= a@.len(),
            a@.len() == b@.len(),
            forall|j: int| 0 <= j < i ==> a@[j] == b@[j],
        decreases a@.len() - i,
    {
        if a[i] != b[i] {
            return false;
        }
        i += 1;
    }
    assert(a@ =~= b@);
    true
}

/// Whether `x` is one of the byte strings in `v`.
pub fn contains_bytes(v: &Vec<Vec<u8>>, x: &[u8]) -> (r: bool)
    ensures
        r == views(v@).contains(x@),
{
    let mut i: usize = 0;
    while i < v.len()
        invariant
            i <= v@.len(),
            forall|j: int| 0 <= j < i ==> v@[j]@ != x@,
        decreases v@.len() - i,
    {
        if bytes_eq(v[i].as_slice(), x) {
            assert(views(v@)[i as int] == x@);
            return true;
        }
        i += 1;
    }
    assert forall|j: int| 0 <= j < views(v@).len() implies views(v@)[j] != x@ by {
        assert(views(v@)[j] == v@[j]@);
    }
    false
}

/// Returns the first index at or after `from` where `s` holds `b`, or `s.len()`.
pub fn find_byte(s: &[u8], b: u8, from: usize) -> (r: usize)
    requires
        from <= s@.len(),
    ensures
        r as int == scan_to(s@, b, from as int),
        from <= r <= s@.len(),
{
    let mut j: usize = from;
    while j < s.len() && s[j] != b
        invariant
            from <= j <= s@.len(),
            scan_to(s@, b, from as int) == scan_to(s@, b, j as int),
        decreases s@.len() - j,
    {
        j += 1;
    }
    j
}

/// Splits `s` on every `b` byte.
pub fn split_bytes(s: &[u8], b: u8) -> (r: Vec<Vec<u8>>)
    ensures
        views(r@) == split_on(s@, b),
{
    let mut r: Vec<Vec<u8>> = Vec::new();
    let mut start: usize = 0;
    let mut i: usize = 0;
    while i < s.len()
        invariant
            start <= i <= s@.len(),
            split_on(s@, b) == views(r@) + split_from(s@, b, start as int, i as int),
        decreases s@.len() - i,
    {
        if s[i] == b {
            let piece = copy_bytes(&s[start..i]);
            assert(piece@ == s@.subrange(start as int, i as int));
            assert(views(r@.push(piece)) =~= views(r@) + seq![piece@]);
            r.push(piece);
            i += 1;
            start = i;
        } else {
            i += 1;
        }
    }
    let piece = copy_bytes(&s[start..s.len()]);
    assert(views(r@.push(piece)) =~= views(r@) + seq![piece@]);
    r.push(piece);
    r
}

/// Joins a directory and a file name into a path.
pub fn join_path(dir: &[u8], name: &[u8]) -> (r: Vec<u8>)
    ensures
        r@ == join_spec(dir@, name@),
{
    if name.len() > 0 && name[0] == 0x2f {
        return copy_bytes(name);
    }
    let mut r = copy_bytes(dir);
    if dir.len() > 0 && dir[dir.len() - 1] != 0x2f {
        r.push(0x2f);
    }
    let mut i: usize = 0;
    let ghost base = r@;
    while i < name.len()
        invariant
            i <= name@.len(),
            r@ == base + name@.subrange(0, i as int),
        decreases name@.len() - i,
    {
        r.push(name[i]);
        i += 1;
        assert(r@ =~= base + name@.subrange(0, i as int));
    }
    assert(name@.subrange(0, name@.len() as int) =~= name@);
    proof {
        if !(dir@.len() == 0 || dir@[dir@.len() - 1] == 0x2f) {
            assert(base =~= dir@ + seq![0x2fu8]);
            assert(r@ =~= dir@ + seq![0x2fu8] + name@);
        }
    }
    r
}

} // verus!
