//! The clip engine's verified core: the launcher/engine protocol values and
//! the decisions and pixel and timestamp arithmetic behind clip saving,
//! trimming, vertical exports and GIF exports.

pub mod protocol;
pub mod selection;
pub mod media;
pub mod vertical;
pub mod gaps;
pub mod overlay;
pub mod trim;
pub mod gif;
pub mod system;
