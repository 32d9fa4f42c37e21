//! Direct manipulation of FAT12/FAT16 disk images held as one byte buffer.

pub mod bpb;
pub mod chain;
pub mod error;
pub mod image;
pub mod insert;
pub mod root_entry;

pub use bpb::{parse, BootParameterBlock};
pub use chain::cluster_chain;
pub use error::{FatError, NameError};
pub use image::{is_end_of_chain, is_free, Image};
pub use insert::insert_file;
pub use root_entry::RootEntry;
