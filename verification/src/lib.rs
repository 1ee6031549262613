//! Heap profiles of the jemalloc allocator, in the pprof format.

pub mod bytes;
pub mod capi;
pub mod cast;
pub mod control;
pub mod distinct;
pub mod double;
pub mod dump_laws;
pub mod elf;
pub mod elf_laws;
pub mod hex;
pub mod jeheap;
pub mod jeheap_laws;
pub mod macho;
pub mod macho_laws;
pub mod mappings;
pub mod pprof;
pub mod pprof_laws;
pub mod profile;
pub mod proto;
pub mod string_table;
pub mod text;
pub mod text_laws;
pub mod wire;
pub mod wire_laws;
