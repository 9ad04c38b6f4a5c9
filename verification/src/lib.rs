//! Building Geometry Dash level strings and writing them into the game's
//! local-levels save data.

pub mod codec;
pub mod level;
pub mod encoding;
pub mod save;
pub mod xml;
