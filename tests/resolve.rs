use std::collections::HashMap;

use lddtree_lite::bytes::{join_path, split_bytes};
use lddtree_lite::inspect::{c_str_at, classify, inspect, InspectError, WordSize};
use lddtree_lite::resolver::{search_dirs, ElfFile, Request, ResolveError, Resolver};

fn push16(v: &mut Vec<u8>, x: u16) {
    v.extend_from_slice(&x.to_le_bytes());
}

fn push32(v: &mut Vec<u8>, x: u32) {
    v.extend_from_slice(&x.to_le_bytes());
}

fn push64(v: &mut Vec<u8>, x: u64) {
    v.extend_from_slice(&x.to_le_bytes());
}

fn pad8(v: &mut Vec<u8>) {
    while v.len() % 8 != 0 {
        v.push(0);
    }
}

/// A little-endian 64-bit shared object whose dynamic table holds `entries` (tag and
/// string). `dynstr` and `dynamic` choose whether those two sections can be found.
fn elf64_raw(entries: &[(i64, &[u8])], dynstr: bool, dynamic: bool) -> Vec<u8> {
    let mut strtab: Vec<u8> = vec![0];
    let mut dyns: Vec<(i64, u64)> = Vec::new();
    for (tag, s) in entries {
        dyns.push((*tag, strtab.len() as u64));
        strtab.extend_from_slice(s);
        strtab.push(0);
    }
    dyns.push((0, 0));
    let shstr: &[u8] = b"\0.dynstr\0.dynamic\0.shstrtab\0";
    let mut out: Vec<u8> = vec![0x7f, b'E', b'L', b'F', 2, 1, 1, 0];
    out.resize(16, 0);
    push16(&mut out, 3);
    push16(&mut out, 62);
    push32(&mut out, 1);
    push64(&mut out, 0);
    push64(&mut out, 0);
    let shoff_at = out.len();
    push64(&mut out, 0);
    push32(&mut out, 0);
    push16(&mut out, 64);
    push16(&mut out, 56);
    push16(&mut out, 0);
    push16(&mut out, 64);
    push16(&mut out, 4);
    push16(&mut out, 3);
    let dynstr_off = out.len() as u64;
    out.extend_from_slice(&strtab);
    pad8(&mut out);
    let dyn_off = out.len() as u64;
    for (t, v) in &dyns {
        push64(&mut out, *t as u64);
        push64(&mut out, *v);
    }
    let shstr_off = out.len() as u64;
    out.extend_from_slice(shstr);
    pad8(&mut out);
    let shoff = out.len() as u64;
    out[shoff_at..shoff_at + 8].copy_from_slice(&shoff.to_le_bytes());
    let sh = |out: &mut Vec<u8>, name: u32, ty: u32, off: u64, size: u64, entsize: u64| {
        push32(out, name);
        push32(out, ty);
        push64(out, 0);
        push64(out, 0);
        push64(out, off);
        push64(out, size);
        push32(out, 0);
        push32(out, 0);
        push64(out, 1);
        push64(out, entsize);
    };
    sh(&mut out, 0, 0, 0, 0, 0);
    let dynstr_name = if dynstr { 1 } else { 0 };
    sh(&mut out, dynstr_name, 3, dynstr_off, strtab.len() as u64, 0);
    let dyn_type = if dynamic { 6 } else { 1 };
    sh(&mut out, 9, dyn_type, dyn_off, (dyns.len() * 16) as u64, 16);
    sh(&mut out, 18, 3, shstr_off, shstr.len() as u64, 0);
    out
}

/// A 64-bit object needing `needed`, with `runpath` as its embedded search path.
fn elf64(needed: &[&str], runpath: Option<&str>) -> Vec<u8> {
    let mut entries: Vec<(i64, &[u8])> = needed.iter().map(|n| (1, n.as_bytes())).collect();
    if let Some(r) = runpath {
        entries.push((29, r.as_bytes()));
    }
    elf64_raw(&entries, true, true)
}

/// A bare 32-bit header: enough to be classified.
fn elf32() -> Vec<u8> {
    let mut out: Vec<u8> = vec![0x7f, b'E', b'L', b'F', 1, 1, 1, 0];
    out.resize(16, 0);
    push16(&mut out, 3);
    push16(&mut out, 3);
    push32(&mut out, 1);
    push32(&mut out, 0);
    push32(&mut out, 0);
    push32(&mut out, 0);
    push32(&mut out, 0);
    push16(&mut out, 52);
    push16(&mut out, 32);
    push16(&mut out, 0);
    push16(&mut out, 40);
    push16(&mut out, 0);
    push16(&mut out, 0);
    out
}

fn b(s: &str) -> Vec<u8> {
    s.as_bytes().to_vec()
}

/// Runs a traversal against an in-memory file system.
fn run(start: &str, env: &[&str], files: &HashMap<Vec<u8>, Vec<u8>>) -> Result<Vec<Vec<u8>>, ResolveError> {
    let env: Vec<Vec<u8>> = env.iter().map(|d| b(d)).collect();
    let mut r = ElfFile::new(start).resolver(&env);
    let mut req = r.request();
    for _ in 0..10_000 {
        match req {
            Request::Finished(out) => return out,
            Request::Inspect(p) | Request::Probe(p) => {
                req = r.feed(files.get(&p).cloned());
            }
        }
    }
    panic!("traversal did not finish");
}

fn fs(entries: Vec<(&str, Vec<u8>)>) -> HashMap<Vec<u8>, Vec<u8>> {
    entries.into_iter().map(|(p, d)| (b(p), d)).collect()
}

#[test]
fn no_dependencies_gives_empty_list() {
    let files = fs(vec![("/bin/app", elf64(&[], None))]);
    let env: Vec<Vec<u8>> = Vec::new();
    let mut r = Resolver::new(b"/bin/app", &env);
    assert_eq!(r.request(), Request::Inspect(b("/bin/app")));
    let next = r.feed(files.get(&b("/bin/app")).cloned());
    assert_eq!(next, Request::Finished(Ok(vec![])));
    assert!(r.results.is_empty());
    assert_eq!(r.start, b("/bin/app"));
}

#[test]
fn single_dependency_found() {
    let files = fs(vec![
        ("/bin/app", elf64(&["libfoo.so"], None)),
        ("/usr/lib/libfoo.so", elf64(&[], None)),
    ]);
    assert_eq!(run("/bin/app", &[], &files), Ok(vec![b("/usr/lib/libfoo.so")]));
}

#[test]
fn wrong_word_size_fails() {
    let files = fs(vec![
        ("/bin/app", elf64(&["libfoo.so"], None)),
        ("/usr/lib/libfoo.so", elf32()),
    ]);
    assert_eq!(run("/bin/app", &[], &files), Err(ResolveError::NotFound(b("libfoo.so"))));
}

#[test]
fn wrong_word_size_skipped() {
    let files = fs(vec![
        ("/bin/app", elf64(&["libfoo.so"], None)),
        ("/usr/lib/libfoo.so", elf32()),
        ("/lib64/libfoo.so", elf64(&[], None)),
    ]);
    assert_eq!(run("/bin/app", &[], &files), Ok(vec![b("/lib64/libfoo.so")]));
}

#[test]
fn unparsable_candidate_skipped() {
    let files = fs(vec![
        ("/bin/app", elf64(&["libfoo.so"], None)),
        ("/usr/lib/libfoo.so", b("not an object")),
        ("/usr/lib64/libfoo.so", elf64(&[], None)),
    ]);
    assert_eq!(run("/bin/app", &[], &files), Ok(vec![b("/usr/lib64/libfoo.so")]));
}

#[test]
fn standard_directory_beats_environment() {
    let files = fs(vec![
        ("/bin/app", elf64(&["libfoo.so"], None)),
        ("/opt/env/libfoo.so", elf64(&[], None)),
        ("/lib/libfoo.so", elf64(&[], None)),
    ]);
    assert_eq!(run("/bin/app", &["/opt/env"], &files), Ok(vec![b("/lib/libfoo.so")]));
}

#[test]
fn environment_beats_embedded_path() {
    let files = fs(vec![
        ("/bin/app", elf64(&["libfoo.so"], Some("/opt/hint"))),
        ("/opt/hint/libfoo.so", elf64(&[], None)),
        ("/opt/env/libfoo.so", elf64(&[], None)),
    ]);
    assert_eq!(run("/bin/app", &["/opt/env"], &files), Ok(vec![b("/opt/env/libfoo.so")]));
}

#[test]
fn embedded_path_is_searched() {
    let files = fs(vec![
        ("/bin/app", elf64(&["libfoo.so"], Some("/opt/a:/opt/hint/"))),
        ("/opt/hint/libfoo.so", elf64(&[], None)),
    ]);
    assert_eq!(run("/bin/app", &[], &files), Ok(vec![b("/opt/hint/libfoo.so")]));
}

#[test]
fn missing_dependency_fails_without_partial_list() {
    let files = fs(vec![
        ("/bin/app", elf64(&["libok.so", "libgone.so"], None)),
        ("/usr/lib/libok.so", elf64(&[], None)),
    ]);
    assert_eq!(run("/bin/app", &[], &files), Err(ResolveError::NotFound(b("libgone.so"))));
}

#[test]
fn transitive_failure_aborts() {
    let files = fs(vec![
        ("/bin/app", elf64(&["liba.so"], None)),
        ("/usr/lib/liba.so", elf64(&["libgone.so"], None)),
    ]);
    assert_eq!(run("/bin/app", &[], &files), Err(ResolveError::NotFound(b("libgone.so"))));
}

#[test]
fn cycle_terminates_and_lists_each_once() {
    let files = fs(vec![
        ("/bin/app", elf64(&["libb.so"], None)),
        ("/usr/lib/libb.so", elf64(&["liba.so"], None)),
        ("/usr/lib/liba.so", elf64(&["libb.so"], None)),
    ]);
    assert_eq!(
        run("/bin/app", &[], &files),
        Ok(vec![b("/usr/lib/libb.so"), b("/usr/lib/liba.so")])
    );
}

#[test]
fn cycle_back_to_start_excludes_start() {
    let files = fs(vec![
        ("/usr/lib/liba.so", elf64(&["libb.so"], None)),
        ("/usr/lib/libb.so", elf64(&["liba.so"], None)),
    ]);
    assert_eq!(run("/usr/lib/liba.so", &[], &files), Ok(vec![b("/usr/lib/libb.so")]));
}

#[test]
fn shared_dependency_listed_once() {
    let files = fs(vec![
        ("/bin/app", elf64(&["libx.so", "liby.so"], None)),
        ("/usr/lib/libx.so", elf64(&["liby.so"], None)),
        ("/usr/lib/liby.so", elf64(&[], None)),
    ]);
    assert_eq!(
        run("/bin/app", &[], &files),
        Ok(vec![b("/usr/lib/libx.so"), b("/usr/lib/liby.so")])
    );
}

#[test]
fn repeated_runs_agree() {
    let files = fs(vec![
        ("/bin/app", elf64(&["libx.so", "liby.so"], Some("/opt/h"))),
        ("/opt/h/libx.so", elf64(&["liby.so"], None)),
        ("/lib64/liby.so", elf64(&[], None)),
    ]);
    let first = run("/bin/app", &[], &files);
    let second = run("/bin/app", &[], &files);
    assert_eq!(first, Ok(vec![b("/opt/h/libx.so"), b("/lib64/liby.so")]));
    assert_eq!(first, second);
}

#[test]
fn unreadable_start_fails() {
    let files = fs(vec![]);
    assert_eq!(run("/bin/none", &[], &files), Err(ResolveError::Unreadable(b("/bin/none"))));
}

#[test]
fn undecodable_dependency_fails() {
    let files = fs(vec![
        ("/bin/app", elf64(&["libfoo.so"], None)),
        ("/usr/lib/libfoo.so", elf64_raw(&[], false, true)),
    ]);
    assert_eq!(
        run("/bin/app", &[], &files),
        Err(ResolveError::Undecodable(b("/usr/lib/libfoo.so"), InspectError::MissingStringTable))
    );
}

#[test]
fn inspect_reads_names_and_hints_in_order() {
    let data = elf64(&["liba.so", "libb.so.6"], Some("/x:/y"));
    let info = inspect(&data).unwrap();
    assert_eq!(info.word_size, WordSize::SixtyFourBit);
    assert_eq!(info.needed, vec![b("liba.so"), b("libb.so.6")]);
    assert_eq!(info.hints, vec![b("/x"), b("/y")]);
}

#[test]
fn inspect_rpath_and_runpath_both_count() {
    let data = elf64_raw(&[(15, b"/r1"), (1, b"liba.so"), (29, b"/r2:")], true, true);
    let info = inspect(&data).unwrap();
    assert_eq!(info.needed, vec![b("liba.so")]);
    assert_eq!(info.hints, vec![b("/r1"), b("/r2"), b("")]);
}

#[test]
fn inspect_errors() {
    assert_eq!(inspect(b"garbage"), Err(InspectError::Malformed));
    assert_eq!(inspect(&elf32()), Err(InspectError::MissingStringTable));
    assert_eq!(inspect(&elf64_raw(&[], false, true)), Err(InspectError::MissingStringTable));
    assert_eq!(inspect(&elf64_raw(&[(1, b"liba.so")], true, false)), Err(InspectError::MissingDynamic));
    assert_eq!(inspect(&elf64_raw(&[(1, b"lib\xff.so")], true, true)), Err(InspectError::InvalidString));
    assert_eq!(inspect(&elf64_raw(&[(29, b"/ok\xfe")], true, true)), Err(InspectError::InvalidString));
}

#[test]
fn classify_reads_class() {
    assert_eq!(classify(&elf32()), Some(WordSize::ThirtyTwoBit));
    assert_eq!(classify(&elf64(&[], None)), Some(WordSize::SixtyFourBit));
    assert_eq!(classify(b"\x7fELF"), None);
}

#[test]
fn c_str_at_cases() {
    let table: &[u8] = b"\0abc\0d\xffe\0tail";
    assert_eq!(c_str_at(table, 1), Some(b("abc")));
    assert_eq!(c_str_at(table, 2), Some(b("bc")));
    assert_eq!(c_str_at(table, 0), Some(b("")));
    assert_eq!(c_str_at(table, 5), None);
    assert_eq!(c_str_at(table, 10), None);
    assert_eq!(c_str_at(table, 100), None);
}

#[test]
fn split_cases() {
    assert_eq!(split_bytes(b"", b':'), vec![b("")]);
    assert_eq!(split_bytes(b"a:b", b':'), vec![b("a"), b("b")]);
    assert_eq!(split_bytes(b"::", b':'), vec![b(""), b(""), b("")]);
}

#[test]
fn join_cases() {
    assert_eq!(join_path(b"/usr/lib", b"libc.so.6"), b("/usr/lib/libc.so.6"));
    assert_eq!(join_path(b"/usr/lib/", b"libc.so.6"), b("/usr/lib/libc.so.6"));
    assert_eq!(join_path(b"", b"libc.so.6"), b("libc.so.6"));
    assert_eq!(join_path(b"/usr/lib", b"/abs/libc.so"), b("/abs/libc.so"));
}

#[test]
fn search_dirs_order() {
    let env = vec![b("/e1"), b("/e2")];
    let hints = vec![b("/h")];
    let expected: Vec<Vec<u8>> = ["/usr/lib", "/lib64", "/lib/x86_64-linux-gnu", "/lib", "/usr/lib64", "/e1", "/e2", "/h"]
        .iter()
        .map(|d| b(d))
        .collect();
    assert_eq!(search_dirs(&env, &hints), expected);
}

#[test]
fn elf_file_keeps_path() {
    assert_eq!(ElfFile::new("/usr/bin/ls").path, b("/usr/bin/ls"));
}
