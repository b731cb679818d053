//! Wallpaper color extraction: the rules that turn a wallpaper into a
//! handful of seed colors, a color population and color hints.

pub mod rounding;
pub mod sizing;
pub mod color;
pub mod hints;
pub mod population;
pub mod bitmap;
pub mod wallpaper;
pub mod cli;
pub mod blend;
