//! The logic of a tool that puts PlayStation 2 games on storage devices for Open PS2 Loader.
//!
//! A game is stored whole in the directory `CD` or `DVD`, or split into chunk files in the root
//! directory and listed in `ul.cfg` (the USBExtreme format). The modules decide; reading and
//! writing files, running programs and asking the operating system is left to the application.

pub mod checksum;
pub mod chunks;
pub mod copy;
pub mod defrag;
pub mod extents;
pub mod filesystem;
pub mod format;
pub mod games;
pub mod iso;
pub mod lsblk;
pub mod manage;
pub mod opl_crc;
pub mod order;
pub mod process;
pub mod repair;
pub mod restore;
pub mod settings;
pub mod split;
pub mod text;
pub mod ulcfg;
