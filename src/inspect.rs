//! Decoding one object file into what dependency resolution needs: its word size,
//! the names of the libraries it needs, and its embedded search directories.
use vstd::prelude::*;
use crate::bytes::{copy_bytes, find_byte, scan_to, split_bytes, split_on, views};
use crate::elf_read::{
    dynamic_entries, dynamic_entries_of, elf_class, elf_class_of, is_utf8, section_range,
    section_range_of, utf8_ok,
};

verus! {

/// Dynamic tag of a needed library.
pub const DT_NEEDED: i64 = 1;

/// Dynamic tag of a legacy run-time search path.
pub const DT_RPATH: i64 = 15;

/// Dynamic tag of a run-time search path.
pub const DT_RUNPATH: i64 = 29;

/// Whether an object targets a 32-bit or a 64-bit machine.
#[derive(Clone, Copy, Debug, PartialEq, Eq, Structural)]
pub enum WordSize {
    ThirtyTwoBit,
    SixtyFourBit,
}

/// Why an object file could not be decoded.
#[derive(Clone, Copy, Debug, PartialEq, Eq, Structural)]
pub enum InspectError {
    /// The header, the section table or the dynamic table does not parse, or the
    /// string table lies outside the file.
    Malformed,
    /// There is no `.dynstr` section.
    MissingStringTable,
    /// There is no dynamic table.
    MissingDynamic,
    /// A name or a search path is not NUL-terminated UTF-8 inside the string table.
    InvalidString,
}

/// What resolution reads from one object file.
#[derive(Debug, PartialEq, Eq)]
pub struct ObjectInfo {
    pub word_size: WordSize,
    /// Needed library names, in table order.
    pub needed: Vec<Vec<u8>>,
    /// Embedded search directories, in table order.
    pub hints: Vec<Vec<u8>>,
}

/// The word size that a parsed header class stands for.
pub open spec fn word_size_of(is_64: bool) -> WordSize {
    if is_64 {
        WordSize::SixtyFourBit
    } else {
        WordSize::ThirtyTwoBit
    }
}

/// The string that starts at `off` in `table`: its bytes up to the first NUL, when
/// such a NUL exists and the bytes before it are UTF-8.
pub open spec fn c_str_spec(table: Seq<u8>, off: int) -> Option<Seq<u8>> {
    let e = scan_to(table, 0, off);
    if off > table.len() || e >= table.len() {
        None
    } else if utf8_ok(table.subrange(off, e)) {
        Some(table.subrange(off, e))
    } else {
        None
    }
}

/// Needed names and search directories gathered from dynamic entries in order, or
/// `None` when a string they point at is invalid.
pub open spec fn scan_entries(table: Seq<u8>, es: Seq<(i64, u64)>) -> Option<
    (Seq<Seq<u8>>, Seq<Seq<u8>>),
>
    decreases es.len(),
{
    if es.len() == 0 {
        Some((Seq::empty(), Seq::empty()))
    } else {
        match scan_entries(table, es.drop_last()) {
            None => None,
            Some((n, h)) => {
                let (tag, val) = es.last();
                if tag == DT_NEEDED {
                    match c_str_spec(table, val as int) {
                        None => None,
                        Some(s) => Some((n.push(s), h)),
                    }
                } else if tag == DT_RPATH || tag == DT_RUNPATH {
                    match c_str_spec(table, val as int) {
                        None => None,
                        Some(s) => Some((n, h + split_on(s, 0x3a))),
                    }
                } else {
                    Some((n, h))
                }
            },
        }
    }
}

/// Once an invalid string is met, later entries cannot make the scan succeed.
proof fn lemma_scan_failure_persists(table: Seq<u8>, es: Seq<(i64, u64)>, k: int)
    requires
        0 <= k <= es.len(),
        scan_entries(table, es.subrange(0, k)) is None,
    ensures
        scan_entries(table, es) is None,
    decreases es.len() - k,
{
    if k < es.len() {
        assert(es.subrange(0, k + 1).drop_last() =~= es.subrange(0, k));
        lemma_scan_failure_persists(table, es, k + 1);
    } else {
        assert(es.subrange(0, k) =~= es);
    }
}

/// What decoding `data` gives: word size, needed names and search directories.
pub open spec fn inspect_spec(data: Seq<u8>) -> Result<
    (WordSize, Seq<Seq<u8>>, Seq<Seq<u8>>),
    InspectError,
> {
    match elf_class_of(data) {
        None => Err(InspectError::Malformed),
        Some(is_64) => match section_range_of(data, ".dynstr"@) {
            None => Err(InspectError::Malformed),
            Some(None) => Err(InspectError::MissingStringTable),
            Some(Some((off, size))) => {
                if off as int + size as int > data.len() {
                    Err(InspectError::Malformed)
                } else {
                    let table = data.subrange(off as int, off as int + size as int);
                    match dynamic_entries_of(data) {
                        None => Err(InspectError::Malformed),
                        Some(None) => Err(InspectError::MissingDynamic),
                        Some(Some(es)) => match scan_entries(table, es) {
                            None => Err(InspectError::InvalidString),
                            Some((n, h)) => Ok((word_size_of(is_64), n, h)),
                        },
                    }
                }
            },
        },
    }
}

/// The word size of an object, or `None` when its header does not parse.
pub open spec fn classify_spec(data: Seq<u8>) -> Option<WordSize> {
    match elf_class_of(data) {
        None => None,
        Some(is_64) => Some(word_size_of(is_64)),
    }
}

/// Reads the word size from an object's header.
pub fn classify(data: &[u8]) -> (r: Option<WordSize>)
    ensures
        r == classify_spec(data@),
{
    match elf_class(data) {
        None => None,
        Some(true) => Some(WordSize::SixtyFourBit),
        Some(false) => Some(WordSize::ThirtyTwoBit),
    }
}

/// Reads the NUL-terminated UTF-8 string at `off` in `table`.
pub fn c_str_at(table: &[u8], off: u64) -> (r: Option<Vec<u8>>)
    ensures
        r matches Some(s) ==> c_str_spec(table@, off as int) == Some(s@),
        r is None ==> c_str_spec(table@, off as int) is None,
{
    if off > table.len() as u64 {
        return None;
    }
    let start = off as usize;
    let end = find_byte(table, 0, start);
    if end >= table.len() {
        return None;
    }
    let s = &table[start..end];
    if is_utf8(s) {
        Some(copy_bytes(s))
    } else {
        None
    }
}

/// Gathers needed names and search directories from the dynamic entries.
pub fn scan_dynamic(table: &[u8], es: &Vec<(i64, u64)>) -> (r: Option<(Vec<Vec<u8>>, Vec<Vec<u8>>)>)
    ensures
        r matches Some((n, h)) ==> scan_entries(table@, es@) == Some((views(n@), views(h@))),
        r is None ==> scan_entries(table@, es@) is None,
{
    let mut needed: Vec<Vec<u8>> = Vec::new();
    let mut hints: Vec<Vec<u8>> = Vec::new();
    let mut i: usize = 0;
    while i < es.len()
        invariant
            i <= es@.len(),
            scan_entries(table@, es@.subrange(0, i as int)) == Some((views(needed@), views(hints@))),
        decreases es@.len() - i,
    {
        let (tag, val) = es[i];
        let ghost pre = es@.subrange(0, i as int);
        assert(es@.subrange(0, i + 1).drop_last() =~= pre);
        assert(es@.subrange(0, i + 1).last() == es@[i as int]);
        if tag == DT_NEEDED {
            match c_str_at(table, val) {
                None => {
                    proof {
                        lemma_scan_failure_persists(table@, es@, i + 1);
                    }
                    return None;
                },
                Some(s) => {
                    assert(views(needed@.push(s)) =~= views(needed@).push(s@));
                    needed.push(s);
                },
            }
        } else if tag == DT_RPATH || tag == DT_RUNPATH {
            match c_str_at(table, val) {
                None => {
                    proof {
                        lemma_scan_failure_persists(table@, es@, i + 1);
                    }
                    return None;
                },
                Some(s) => {
                    let mut parts = split_bytes(s.as_slice(), 0x3a);
                    assert(views(hints@ + parts@) =~= views(hints@) + views(parts@));
                    hints.append(&mut parts);
                },
            }
        }
        i += 1;
    }
    assert(es@.subrange(0, es@.len() as int) =~= es@);
    Some((needed, hints))
}

/// Decodes an object file's bytes.
pub fn inspect(data: &[u8]) -> (r: Result<ObjectInfo, InspectError>)
    ensures
        r matches Ok(info) ==> inspect_spec(data@) == Ok::<_, InspectError>(
            (info.word_size, views(info.needed@), views(info.hints@)),
        ),
        r matches Err(e) ==> inspect_spec(data@) == Err::<(WordSize, Seq<Seq<u8>>, Seq<Seq<u8>>), _>(e),
{
    let word_size = match classify(data) {
        None => return Err(InspectError::Malformed),
        Some(w) => w,
    };
    let (off, size) = match section_range(data, ".dynstr") {
        None => return Err(InspectError::Malformed),
        Some(None) => return Err(InspectError::MissingStringTable),
        Some(Some(range)) => range,
    };
    if size > data.len() as u64 || off > data.len() as u64 - size {
        return Err(InspectError::Malformed);
    }
    let table = &data[off as usize..(off + size) as usize];
    let es = match dynamic_entries(data) {
        None => return Err(InspectError::Malformed),
        Some(None) => return Err(InspectError::MissingDynamic),
        Some(Some(es)) => es,
    };
    match scan_dynamic(table, &es) {
        None => Err(InspectError::InvalidString),
        Some((needed, hints)) => Ok(ObjectInfo { word_size, needed, hints }),
    }
}

} // verus!
