//! Terminal graphics for a map viewer: render-mode selection, the xterm
//! 256-colour palette, Braille-cell rasterisation, sixel serialisation
//! and the text overlays drawn on top of a sixel image.

pub mod buffer;
pub mod cell_size;
pub mod color_set;
pub mod footer;
pub mod frame;
pub mod input;
pub mod layout;
pub mod overlay;
pub mod palette;
pub mod panels;
pub mod raster;
pub mod render_mode;
pub mod rle;
pub mod sixel;
pub mod sixel_decode;
pub mod snapshot;
pub mod terminal_graphics;
pub mod text;
pub mod widget;
