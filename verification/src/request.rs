//! What the core asks its caller to do on the display server.

use crate::pool::{BufferId, Canvas, PixelFormat};
use crate::surface::SurfaceId;
use vstd::prelude::*;

verus! {

/// One step for the caller to carry out, in the order handed over.
#[derive(Clone, Copy, Debug, PartialEq, Eq)]
pub enum Request {
    /// Reserve shared memory of `height * stride` bytes for a new buffer.
    CreateBuffer { buffer: BufferId, width: u32, height: u32, stride: u64, format: PixelFormat },
    /// Let the content renderer write the pixels of `surface` into `canvas`.
    Fill { surface: SurfaceId, canvas: Canvas },
    /// Declare the given rectangle of the surface's buffer as changed.
    DamageBuffer { surface: SurfaceId, x: u32, y: u32, width: u32, height: u32 },
    /// Ask for the next frame-completion signal of `surface`.
    Frame { surface: SurfaceId },
    /// Attach `buffer` to `surface`.
    Attach { surface: SurfaceId, buffer: BufferId },
    /// Commit the pending state of `surface`.
    Commit { surface: SurfaceId },
    /// Give the memory of `buffer` back; nothing refers to it any more.
    DestroyBuffer { buffer: BufferId },
}

impl Request {
    /// The surface the request acts on, if it acts on one.
    pub open spec fn surface(self) -> Option<SurfaceId> {
        match self {
            Request::CreateBuffer { .. } => None,
            Request::Fill { surface, .. } => Some(surface),
            Request::DamageBuffer { surface, .. } => Some(surface),
            Request::Frame { surface } => Some(surface),
            Request::Attach { surface, .. } => Some(surface),
            Request::Commit { surface } => Some(surface),
            Request::DestroyBuffer { .. } => None,
        }
    }

    /// The buffer the request names, if it names one.
    pub open spec fn buffer(self) -> Option<BufferId> {
        match self {
            Request::CreateBuffer { buffer, .. } => Some(buffer),
            Request::Fill { canvas, .. } => Some(canvas.buffer),
            Request::DamageBuffer { .. } => None,
            Request::Frame { .. } => None,
            Request::Attach { buffer, .. } => Some(buffer),
            Request::Commit { .. } => None,
            Request::DestroyBuffer { buffer } => Some(buffer),
        }
    }
}

} // verus!
