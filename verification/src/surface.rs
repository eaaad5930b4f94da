//! The state of one menu surface.

use crate::pool::BufferId;
use vstd::prelude::*;

verus! {

/// Width and height of a surface the server has not sized yet.
pub const DEFAULT_EXTENT: u32 = 256;

/// Identity of a surface, equal exactly when the server-side objects are.
#[derive(Clone, Copy, Debug, PartialEq, Eq, Hash, Structural)]
pub struct SurfaceId(pub u32);

/// A surface dimension in pixels: never zero.
#[derive(Clone, Copy, Debug, PartialEq, Eq, Hash)]
pub struct Extent {
    pixels: u32,
}

impl View for Extent {
    type V = u32;

    closed spec fn view(&self) -> u32 {
        self.pixels
    }
}

impl Extent {
    #[verifier::type_invariant]
    spec fn positive(self) -> bool {
        self.pixels > 0
    }

    /// The extent of `pixels` pixels; there is none of zero pixels.
    pub fn new(pixels: u32) -> (extent: Option<Extent>)
        ensures
            extent is None <==> pixels == 0,
            extent matches Some(e) ==> e@ == pixels,
    {
        if pixels == 0 {
            None
        } else {
            Some(Extent { pixels })
        }
    }

    /// The number of pixels.
    pub fn get(self) -> (pixels: u32)
        ensures
            pixels == self@,
            pixels > 0,
    {
        proof {
            use_type_invariant(self);
        }
        self.pixels
    }
}

/// The size a configure event proposes; an absent dimension leaves the
/// choice to the client.
#[derive(Clone, Copy, Debug, PartialEq, Eq)]
pub struct Configure {
    pub width: Option<Extent>,
    pub height: Option<Extent>,
}

impl Configure {
    /// Whether each proposed dimension is positive.
    pub open spec fn valid(self) -> bool {
        &&& self.width matches Some(w) ==> w@ > 0
        &&& self.height matches Some(h) ==> h@ > 0
    }
}

/// The dimension a surface takes from a proposal: the proposed one, or the
/// default where the server proposed none.
pub open spec fn extent_or_default(proposed: Option<Extent>) -> u32 {
    match proposed {
        Some(extent) => extent@,
        None => DEFAULT_EXTENT,
    }
}

/// The dimension a surface takes from a proposal.
pub fn resolve_extent(proposed: Option<Extent>) -> (pixels: u32)
    ensures
        pixels == extent_or_default(proposed),
        pixels > 0,
{
    match proposed {
        Some(extent) => extent.get(),
        None => DEFAULT_EXTENT,
    }
}

/// One menu surface: negotiated size, damage, and the buffer it presents.
#[derive(Clone, Copy, Debug, PartialEq, Eq)]
pub struct Menu {
    pub id: SurfaceId,
    pub width: u32,
    pub height: u32,
    /// Set once the server has sent a first size negotiation.
    pub configured: bool,
    /// Set while the surface has to be presented again.
    pub damaged: bool,
    /// The buffer bound to the surface; absent means that the next draw
    /// allocates one.
    pub buffer: Option<BufferId>,
}

impl Menu {
    /// A surface as it is before the server has configured it.
    pub open spec fn initial(id: SurfaceId) -> Menu {
        Menu { id, width: DEFAULT_EXTENT, height: DEFAULT_EXTENT, configured: false, damaged: true, buffer: None }
    }

    /// Whether the surface has a size of at least one pixel each way.
    pub open spec fn has_area(self) -> bool {
        self.width > 0 && self.height > 0
    }

    /// Whether a draw presents the surface: it is configured and damaged.
    pub open spec fn wants_draw(self) -> bool {
        self.configured && self.damaged
    }

    /// The surface after a configure event proposing `size`.
    pub open spec fn resized(self, size: Configure) -> Menu {
        Menu {
            width: extent_or_default(size.width),
            height: extent_or_default(size.height),
            configured: true,
            damaged: true,
            buffer: None,
            ..self
        }
    }

    /// The surface with its damage flag set.
    pub open spec fn with_damage(self) -> Menu {
        Menu { damaged: true, ..self }
    }

    /// A new, unconfigured surface.
    pub fn new(id: SurfaceId) -> (menu: Menu)
        ensures
            menu == Menu::initial(id),
    {
        Menu { id, width: DEFAULT_EXTENT, height: DEFAULT_EXTENT, configured: false, damaged: true, buffer: None }
    }

    /// Whether a draw presents the surface.
    pub fn needs_draw(&self) -> (wanted: bool)
        ensures
            wanted == self.wants_draw(),
    {
        self.configured && self.damaged
    }

    /// Applies a configure event: takes the proposed size, with the default
    /// for each absent dimension, unbinds the buffer, and marks the surface
    /// configured and damaged.  Returns the buffer that was bound.
    pub fn configure(&mut self, size: Configure) -> (unbound: Option<BufferId>)
        ensures
            *final(self) == old(self).resized(size),
            final(self).has_area(),
            unbound == old(self).buffer,
    {
        let unbound = self.buffer;
        self.width = resolve_extent(size.width);
        self.height = resolve_extent(size.height);
        self.configured = true;
        self.damaged = true;
        self.buffer = None;
        unbound
    }

    /// Marks the surface as needing to be presented again.
    pub fn damage(&mut self)
        ensures
            *final(self) == old(self).with_damage(),
    {
        self.damaged = true;
    }
}

} // verus!
