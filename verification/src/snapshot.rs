//! Size of a headless snapshot, and when to stop waiting for its
//! tiles.

use vstd::prelude::*;
use crate::frame::MapFrame;

verus! {

/// Terminal size assumed when none can be read: 80 columns, 24 rows.
pub open spec fn fallback_terminal_size() -> (u16, u16) {
    (80, 24)
}

/// Columns and rows of a snapshot: those asked for, else those of the
/// terminal, else 80 by 24.
pub open spec fn snapshot_grid_of(cols: Option<u16>, rows: Option<u16>, terminal: Option<(u16, u16)>) -> (u16, u16) {
    let (tc, tr) = match terminal {
        Some(size) => size,
        None => fallback_terminal_size(),
    };
    (
        match cols {
            Some(c) => c,
            None => tc,
        },
        match rows {
            Some(r) => r,
            None => tr,
        },
    )
}

/// Columns and rows of a snapshot, given the sizes asked for and the
/// terminal's size (`None` where it could not be read).
pub fn snapshot_grid(cols: Option<u16>, rows: Option<u16>, terminal: Option<(u16, u16)>) -> (grid: (
    u16,
    u16,
))
    ensures
        grid == snapshot_grid_of(cols, rows, terminal),
{
    let (term_cols, term_rows) = match terminal {
        Some(size) => size,
        None => (80, 24),
    };
    let c = match cols {
        Some(c) => c,
        None => term_cols,
    };
    let r = match rows {
        Some(r) => r,
        None => term_rows,
    };
    (c, r)
}

/// Canvas size in Braille sub-pixels of a grid of cells: two across and
/// four down per cell.
pub fn braille_canvas_size(cols: u16, rows: u16) -> (size: (usize, usize))
    ensures
        size.0 == cols * 2,
        size.1 == rows * 4,
{
    (cols as usize * 2, rows as usize * 4)
}

/// What happened in one round of waiting for the map's tiles to settle.
pub enum WaitEvent {
    /// The deadline has passed before this round.
    DeadlineReached,
    /// Tiles were polled: `frame` is the frame rendered from newly
    /// arrived tiles (`None` when none arrived or nothing was rendered),
    /// and `idle` whether the tile backend has nothing queued or in
    /// flight.
    Polled { frame: Option<MapFrame>, idle: bool },
    /// The last poll after the backend went idle: `frame` as above.
    Drained { frame: Option<MapFrame> },
}

/// What the wait does after a round.
#[derive(Clone, Copy, Debug, PartialEq, Eq, Structural)]
pub enum WaitAction {
    /// Sleep one polling step, then check the deadline and poll again.
    Sleep,
    /// Poll once more to catch tiles that landed just before the backend
    /// went idle.
    Drain,
    /// Stop waiting.
    Stop,
}

/// One round of waiting for a stable frame: the newest frame rendered so
/// far (a new one replaces the one kept) and what to do next. The wait
/// stops at the deadline, and after one last poll once the backend is
/// idle; otherwise it sleeps and polls again.
pub fn wait_step(last: Option<MapFrame>, event: WaitEvent) -> (next: (Option<MapFrame>, WaitAction))
    ensures
        match event {
            WaitEvent::DeadlineReached => next.0 == last && next.1 == WaitAction::Stop,
            WaitEvent::Polled { frame, idle } => {
                &&& next.0 == if frame is Some {
                    frame
                } else {
                    last
                }
                &&& next.1 == if idle {
                    WaitAction::Drain
                } else {
                    WaitAction::Sleep
                }
            },
            WaitEvent::Drained { frame } => {
                &&& next.0 == if frame is Some {
                    frame
                } else {
                    last
                }
                &&& next.1 == WaitAction::Stop
            },
        },
{
    match event {
        WaitEvent::DeadlineReached => (last, WaitAction::Stop),
        WaitEvent::Polled { frame, idle } => {
            let kept = match frame {
                Some(f) => Some(f),
                None => last,
            };
            if idle {
                (kept, WaitAction::Drain)
            } else {
                (kept, WaitAction::Sleep)
            }
        },
        WaitEvent::Drained { frame } => {
            let kept = match frame {
                Some(f) => Some(f),
                None => last,
            };
            (kept, WaitAction::Stop)
        },
    }
}

} // verus!
