//! Rewrites the filename table of openingTitle.arc, the title-screen
//! archive of New Super Mario Bros. Wii, so that it holds the region-specific
//! files under the names of the regions asked for.

pub mod codec;
pub mod convert;
pub mod filenames;
pub mod rebuild;
pub mod region;
pub mod u8_fnt;
pub mod util;

pub use crate::codec::{ParseU8Error, WriteU8Error};
pub use crate::convert::{
    ConflictStrategy, ConvertOpeningTitleBetweenRegionsConflictStrategies,
    ConvertOpeningTitleBetweenRegionsError,
};
pub use crate::filenames::OpeningTitleRegionFilenames;
pub use crate::region::{ParseRegionError, Region, RegionBitFlags};
pub use crate::u8_fnt::{U8FileNode, U8FolderNode, U8Node};
