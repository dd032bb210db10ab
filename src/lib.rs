//! Resolves the transitive shared-library dependencies of an ELF object, the way
//! `ldd` does, as a verified state machine that is fed the bytes of files.
pub mod bytes;
pub mod elf_read;
pub mod inspect;
pub mod resolver;
pub mod laws;
