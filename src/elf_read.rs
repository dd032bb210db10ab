//! The calls into the `elf` crate. Each result is named by a spec function of the
//! bytes alone: the parse is a pure function of the file's contents.
use vstd::prelude::*;

verus! {

/// The class of an ELF image: `Some(true)` for 64-bit, `Some(false)` for 32-bit,
/// `None` when the header does not parse.
pub uninterp spec fn elf_class_of(data: Seq<u8>) -> Option<bool>;

/// The file offset and size of the section with the given name: `None` when the
/// image or its section table does not parse, `Some(None)` when no section has that name.
pub uninterp spec fn section_range_of(data: Seq<u8>, name: Seq<char>) -> Option<Option<(u64, u64)>>;

/// The (tag, value) pairs of the dynamic table: `None` when the image does not
/// parse, `Some(None)` when it has no dynamic table.
pub uninterp spec fn dynamic_entries_of(data: Seq<u8>) -> Option<Option<Seq<(i64, u64)>>>;

/// Whether the bytes are valid UTF-8.
pub uninterp spec fn utf8_ok(b: Seq<u8>) -> bool;

/// Relies on `elf::ElfBytes::minimal_parse` and the `class` field of the parsed header.
#[verifier::external_body]
pub(crate) fn elf_class(data: &[u8]) -> (r: Option<bool>)
    ensures
        r == elf_class_of(data@),
{
    match elf::ElfBytes::<elf::endian::AnyEndian>::minimal_parse(data) {
        Ok(f) => match f.ehdr.class {
            elf::file::Class::ELF64 => Some(true),
            elf::file::Class::ELF32 => Some(false),
        },
        Err(_) => None,
    }
}

/// Relies on `elf::ElfBytes::minimal_parse` and `ElfBytes::section_header_by_name`,
/// reading the header's `sh_offset` and `sh_size`.
#[verifier::external_body]
pub(crate) fn section_range(data: &[u8], name: &str) -> (r: Option<Option<(u64, u64)>>)
    ensures
        r == section_range_of(data@, name@),
{
    match elf::ElfBytes::<elf::endian::AnyEndian>::minimal_parse(data) {
        Ok(f) => match f.section_header_by_name(name) {
            Ok(Some(h)) => Some(Some((h.sh_offset, h.sh_size))),
            Ok(None) => Some(None),
            Err(_) => None,
        },
        Err(_) => None,
    }
}

/// Relies on `elf::ElfBytes::minimal_parse` and `ElfBytes::dynamic`, listing each
/// entry's `d_tag` and `d_val()` in table order.
#[verifier::external_body]
pub(crate) fn dynamic_entries(data: &[u8]) -> (r: Option<Option<Vec<(i64, u64)>>>)
    ensures
        r matches Some(Some(v)) ==> dynamic_entries_of(data@) == Some(Some(v@)),
        r matches Some(None) ==> dynamic_entries_of(data@) == Some(None::<Seq<(i64, u64)>>),
        r is None ==> dynamic_entries_of(data@) is None,
{
    match elf::ElfBytes::<elf::endian::AnyEndian>::minimal_parse(data) {
        Ok(f) => match f.dynamic() {
            Ok(Some(t)) => Some(Some(t.iter().map(|d| (d.d_tag, d.d_val())).collect())),
            Ok(None) => Some(None),
            Err(_) => None,
        },
        Err(_) => None,
    }
}

/// Relies on `std::str::from_utf8`: whether it accepts the bytes.
#[verifier::external_body]
pub(crate) fn is_utf8(b: &[u8]) -> (r: bool)
    ensures
        r == utf8_ok(b@),
{
    std::str::from_utf8(b).is_ok()
}

} // verus!
