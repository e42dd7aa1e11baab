//! BPX: a sectioned binary container format, its codec, and what a package
//! manager keeps around it.
//!
//! A container is a fixed main header, a table of section headers and the
//! section payloads. Every layer is guarded by an additive checksum, and
//! large payloads are stored XZ-compressed.
//!
//! - `bpx` reads and writes containers, `section` their sections, `checksum`,
//!   `endian` and `layout` the bytes below them, and `integrity` says what
//!   the checks catch.
//! - `sd` is the structured data that metadata sections hold, `strings` the
//!   string table.
//! - `bpxp` packs trees of files into containers and unpacks them, `packing`
//!   proves that what is packed can be unpacked, `unpack` unpacks in one
//!   step, and `packager` sets the target of a package from a build profile.
//! - `bpxinfo`, `printsd`, `type_ext_maps` and `text` put containers in words.
//! - `profile`, `settings`, `registry`, `builder`, `command` and `minishell`
//!   are the bookkeeping of a package manager: build profiles, registries,
//!   build configurations, commands and their environment. `toolchain`,
//!   `compiler`, `version` and `installer` decide which toolchain, compiler
//!   and package fit a build, `cmakegenerator` writes what a CMake project
//!   needs to know of an unpacked library, and `lualiblog` formats log
//!   messages.
//! - `garraylen` cuts blocks of a typed length out of buffers, and `utils`
//!   hashes property names.

pub mod bpx;
pub mod bpxinfo;
pub mod bpxp;
pub mod builder;
pub mod checksum;
pub mod cmakegenerator;
pub mod command;
pub mod compiler;
pub mod endian;
pub mod error;
pub mod garraylen;
pub mod installer;
pub mod integrity;
pub mod layout;
pub mod lualiblog;
pub mod minishell;
pub mod packager;
pub mod packing;
pub mod printsd;
pub mod profile;
pub mod registry;
pub mod section;
pub mod sd;
pub mod settings;
pub mod strings;
pub mod text;
pub mod toolchain;
pub mod type_ext_maps;
pub mod unpack;
pub mod utils;
pub mod version;
pub mod xz;
