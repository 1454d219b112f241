//! A cellular-automaton / raster-compositing engine: Conway's game of life
//! played on top of an RGBA image, where births blend the colours of the
//! neighbouring pixels and deaths fade out through alpha decay.

pub mod cells;
pub mod compose;
pub mod conway;
pub mod modes;
pub mod pixelops;
pub mod raster;

pub use cells::CellState;
pub use cells::Grid;
pub use raster::Pixel;
pub use raster::Raster;
pub use raster::make_image;
pub use raster::cross;
pub use conway::Universe;
pub use conway::LifeError;
pub use conway::neighbors;
pub use conway::neighbors_coords;
pub use conway::begin_life;
pub use conway::step;
pub use conway::map_onto_cells;
pub use modes::Mode;
pub use modes::ParseModeError;
pub use modes::BackgroundColour;
pub use compose::create_background;
pub use compose::background_for_slides;
pub use compose::map_onto_whitespace;
pub use compose::fit;
pub use compose::pixelate;
pub use compose::split;
