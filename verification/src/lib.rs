//! Core of an Android DEX dumper: reading DEX files, reassembling the chunks
//! that a probe delivers, scanning memory for DEX images, locating the hook
//! points in `libart.so`, and writing recorded bytecode back into a dump.
//!
//! Everything here works on plain values. Files, processes and probes belong
//! to the program around this crate.
pub mod arm64;
pub mod art;
pub mod artnotes;
pub mod bytes;
pub mod capture;
pub mod cli;
pub mod codeitem;
pub mod codescan;
pub mod dex;
pub mod dexlayout;
pub mod digest;
pub mod dump;
pub mod elf;
pub mod events;
pub mod fix;
pub mod hexcode;
pub mod maps;
pub mod mutf8;
pub mod names;
pub mod native;
pub mod platform;
pub mod scan;
pub mod sort;
pub mod shutdown;
pub mod state;
pub mod text;
