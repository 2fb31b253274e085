//! Terminal graphics helpers gathered in one place: render-mode
//! selection, cell sizes, sixel serialisation and text overlays.

pub use crate::cell_size::{cell_pixel_size_from_window, CellPixelSize, WindowSize};
pub use crate::frame::{MapCell, MapFrame};
pub use crate::overlay::{buffer_overlays, frame_text_overlays, OverlayCell, TermColor};
pub use crate::render_mode::{
    resolve_render_mode, terminal_supports_sixel_env, ActiveRenderMode, RenderMode, SnapshotFormat,
};
pub use crate::sixel::frame_to_sixel;
