//! Presentation core for shared-memory menu surfaces.
//!
//! The crate decides *when* and *with which buffer* a menu surface is
//! presented to a compositing display server.  It holds no connection and
//! touches no pixel: everything the server reports comes in as an
//! [`Event`], and every step that has to reach the server is handed back to
//! the caller as a [`Request`], in the order in which it has to be sent.
//!
//! * [`surface`]: the state of one surface, [`Menu`].
//! * [`pool`]: the ledger of pixel buffers, [`BufferPool`].
//! * [`request`]: what the caller is asked to send.
//! * [`present`]: what happens to one surface when it is drawn, configured
//!   or closed.
//! * [`pass`]: one pass over all surfaces, and the agreement between
//!   surfaces and ledger that every pass keeps.
//! * [`state`]: the session, [`State`], and the handling of each event.
//! * [`laws`]: what holds of the session whatever the server sends.

pub mod laws;
pub mod pass;
pub mod pool;
pub mod present;
pub mod request;
pub mod state;
pub mod surface;

pub use pass::Pass;
pub use pool::{BufferId, BufferPool, BufferRecord, BufferStatus, Canvas, PixelFormat};
pub use request::Request;
pub use state::{Event, State};
pub use surface::{Configure, Extent, Menu, SurfaceId, DEFAULT_EXTENT};
