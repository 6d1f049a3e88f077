//! Card-maker core: rich-text markup, embedded asset lookup, the DIY layout
//! decisions and the helpers of the local static server.

pub mod card;
pub mod text;
pub mod markup;
pub mod assets;
pub mod server;
pub mod export;
pub mod diy;
pub mod raster;
pub mod kerning;
