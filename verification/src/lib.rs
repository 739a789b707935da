//! Memory subsystem of a small CPU emulator: a segmented address space that
//! stores disjoint byte regions keyed by virtual address, enforces per-region
//! read/write/execute protection on every access, and supports unmapping a
//! sub-range by trimming or splitting the affected regions.

pub mod elf;
pub mod machine;
pub mod vm;
