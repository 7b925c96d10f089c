pub mod coord;
pub mod errors;
pub mod text;
pub mod tile;
pub mod atlas;
pub mod mapfolder;
