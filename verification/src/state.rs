//! The session: all surfaces, the buffer ledger, and the handling of every
//! event the display server can send.

use crate::pass::{
    bound_in, consistent, fits, lemma_filter_agrees, lemma_filter_consistent, lemma_push_consistent,
    lemma_run_frame, lemma_visit_consistent, other_than, run, run_upto, visit, visit_surface,
    Outcome, Pass,
};
use crate::pool::{discarded, has_status, released, BufferId, BufferPool, BufferRecord, BufferStatus};
use crate::request::Request;
use crate::surface::{extent_or_default, Configure, Menu, SurfaceId};
use vstd::prelude::*;

verus! {

/// What the display server, or the user of a surface, reports.
#[derive(Clone, Copy, Debug, PartialEq, Eq)]
pub enum Event {
    /// The server negotiates the size of `surface`.
    Configure { surface: SurfaceId, size: Configure },
    /// The server asks for `surface` to be torn down.
    CloseRequested { surface: SurfaceId },
    /// The server has processed the last presentation of `surface`.
    FrameDone { surface: SurfaceId },
    /// The content of `surface` changed.
    DamageRequested { surface: SurfaceId },
    /// The server no longer reads from `buffer`.
    BufferReleased { buffer: BufferId },
    /// The scale factor of the output under `surface` changed.
    ScaleFactorChanged { surface: SurfaceId, factor: i32 },
    /// The transform of the output under `surface` changed.
    TransformChanged { surface: SurfaceId },
    /// `surface` entered an output.
    SurfaceEntered { surface: SurfaceId },
    /// `surface` left an output.
    SurfaceLeft { surface: SurfaceId },
    /// An output appeared.
    OutputAdded,
    /// An output changed.
    OutputUpdated,
    /// An output went away.
    OutputRemoved,
}

/// Outcome of leaving everything as it is.
pub open spec fn idle(surfaces: Seq<Menu>, buffers: Seq<BufferRecord>) -> Outcome {
    Outcome { surfaces, buffers, requests: Seq::empty() }
}

/// Outcome of a draw: every configured and damaged surface is presented, in
/// the order of the collection.
pub open spec fn drawing(surfaces: Seq<Menu>, buffers: Seq<BufferRecord>) -> Outcome {
    run(Pass::Draw, surfaces, buffers)
}

/// Outcome of a configure event: the surface with that identity takes the
/// proposed size and loses its buffer, then everything is drawn.
pub open spec fn configuring(
    surfaces: Seq<Menu>,
    buffers: Seq<BufferRecord>,
    surface: SurfaceId,
    size: Configure,
) -> Outcome {
    let sized = run(Pass::Configure { surface, size }, surfaces, buffers);
    let shown = drawing(sized.surfaces, sized.buffers);
    Outcome { requests: sized.requests + shown.requests, ..shown }
}

/// Outcome of a close request: the buffer of the surface is let go and the
/// surface leaves the collection; all others stay, in their order.
pub open spec fn closing(surfaces: Seq<Menu>, buffers: Seq<BufferRecord>, surface: SurfaceId) -> Outcome {
    Outcome {
        surfaces: surfaces.filter(other_than(surface)),
        ..run(Pass::Unbind { surface }, surfaces, buffers)
    }
}

/// A surface after a damage request for `surface`: damaged if it has that
/// identity, and as it was otherwise.
pub open spec fn marked(menu: Menu, surface: SurfaceId) -> Menu {
    if menu.id == surface {
        menu.with_damage()
    } else {
        menu
    }
}

/// Outcome of a damage request: the surface is marked damaged; nothing else
/// changes and nothing is sent.
pub open spec fn damaging(surfaces: Seq<Menu>, buffers: Seq<BufferRecord>, surface: SurfaceId) -> Outcome {
    Outcome {
        surfaces: Seq::new(surfaces.len(), |i: int| marked(surfaces[i], surface)),
        buffers,
        requests: Seq::empty(),
    }
}

/// Outcome of the server releasing `buffer`: a buffer in flight becomes
/// free again if a surface still has it bound, and is reclaimed and
/// destroyed if none has; a buffer that was not in flight stays as it is.
pub open spec fn releasing(surfaces: Seq<Menu>, buffers: Seq<BufferRecord>, buffer: BufferId) -> Outcome {
    if !has_status(buffers, buffer, BufferStatus::InFlight) {
        idle(surfaces, buffers)
    } else if bound_in(surfaces, buffer) {
        Outcome { surfaces, buffers: released(buffers, buffer), requests: Seq::empty() }
    } else {
        Outcome {
            surfaces,
            buffers: discarded(released(buffers, buffer), buffer),
            requests: seq![Request::DestroyBuffer { buffer }],
        }
    }
}

/// Outcome of any event.  Scale, transform and output notifications change
/// nothing.
pub open spec fn handling(surfaces: Seq<Menu>, buffers: Seq<BufferRecord>, event: Event) -> Outcome {
    match event {
        Event::Configure { surface, size } => configuring(surfaces, buffers, surface, size),
        Event::CloseRequested { surface } => closing(surfaces, buffers, surface),
        Event::FrameDone { .. } => drawing(surfaces, buffers),
        Event::DamageRequested { surface } => damaging(surfaces, buffers, surface),
        Event::BufferReleased { buffer } => releasing(surfaces, buffers, buffer),
        _ => idle(surfaces, buffers),
    }
}

/// Whether `found` is the first surface with the given identity, or nothing
/// where there is none.
pub open spec fn is_first_of(surfaces: Seq<Menu>, surface: SurfaceId, found: Option<Menu>) -> bool {
    match found {
        Some(menu) => exists|i: int|
            {
                &&& 0 <= i < surfaces.len()
                &&& #[trigger] surfaces[i] == menu
                &&& menu.id == surface
                &&& forall|j: int| 0 <= j < i ==> (#[trigger] surfaces[j]).id != surface
            },
        None => forall|j: int| 0 <= j < surfaces.len() ==> (#[trigger] surfaces[j]).id != surface,
    }
}

/// Carries out `pass` on every surface and appends what has to be sent to
/// `requests`.
fn sweep(windows: &mut Vec<Menu>, pool: &mut BufferPool, pass: &Pass, requests: &mut Vec<Request>)
    requires
        consistent(old(windows)@, old(pool)@),
    ensures
        consistent(final(windows)@, final(pool)@),
        final(windows)@ == run(*pass, old(windows)@, old(pool)@).surfaces,
        final(pool)@ == run(*pass, old(windows)@, old(pool)@).buffers,
        final(requests)@ == old(requests)@ + run(*pass, old(windows)@, old(pool)@).requests,
{
    let ghost surfaces = windows@;
    let ghost buffers = pool@;
    let ghost sent = requests@;
    let mut i: usize = 0;
    assert(requests@ =~= sent + Seq::<Request>::empty());
    while i < windows.len()
        invariant
            i <= windows.len(),
            windows@.len() == surfaces.len(),
            consistent(windows@, pool@),
            windows@ == run_upto(*pass, surfaces, buffers, i as nat).surfaces,
            pool@ == run_upto(*pass, surfaces, buffers, i as nat).buffers,
            requests@ == sent + run_upto(*pass, surfaces, buffers, i as nat).requests,
        decreases windows.len() - i,
    {
        let ghost before = run_upto(*pass, surfaces, buffers, i as nat);
        let ghost step = visit(*pass, windows@[i as int], pool@);
        let mut menu: Menu = windows[i];
        proof {
            pool.lemma_len_bounded();
        }
        visit_surface(pass, &mut menu, pool, requests);
        proof {
            lemma_visit_consistent(*pass, windows@, before.buffers, i as int);
            assert(requests@ =~= sent + (before.requests + step.requests));
        }
        windows.set(i, menu);
        i += 1;
    }
}

/// Takes every surface with the given identity out of the collection.
fn remove_closed(windows: Vec<Menu>, surface: SurfaceId) -> (kept: Vec<Menu>)
    ensures
        kept@ == windows@.filter(other_than(surface)),
{
    let ghost keep = other_than(surface);
    proof {
        reveal(Seq::filter);
        assert(windows@.take(0) =~= Seq::<Menu>::empty());
    }
    let mut kept: Vec<Menu> = Vec::new();
    let mut i: usize = 0;
    while i < windows.len()
        invariant
            i <= windows.len(),
            keep == other_than(surface),
            kept@ == windows@.take(i as int).filter(keep),
        decreases windows.len() - i,
    {
        let menu: Menu = windows[i];
        proof {
            reveal(Seq::filter);
            assert(windows@.take(i + 1).drop_last() =~= windows@.take(i as int));
            assert(windows@.take(i + 1).last() == windows@[i as int]);
        }
        if menu.id.0 != surface.0 {
            kept.push(menu);
        }
        i += 1;
    }
    proof {
        assert(windows@.take(i as int) =~= windows@);
    }
    kept
}

/// Whether some surface of `windows` has `buffer` bound.
fn any_bound(windows: &Vec<Menu>, buffer: BufferId) -> (bound: bool)
    ensures
        bound == bound_in(windows@, buffer),
{
    let mut i: usize = 0;
    while i < windows.len()
        invariant
            i <= windows.len(),
            forall|j: int| 0 <= j < i ==> (#[trigger] windows@[j]).buffer != Some(buffer),
        decreases windows.len() - i,
    {
        match windows[i].buffer {
            Some(bound) => {
                if bound.0 == buffer.0 {
                    return true;
                }
            },
            None => {},
        }
        i += 1;
    }
    false
}

/// All surfaces of a session and the ledger of their buffers.
///
/// The two always agree: every surface has a positive size; a bound buffer
/// exists, has the size of its surface and is bound to that surface alone;
/// and a buffer that no surface has bound is held by the server or has been
/// reclaimed.
#[derive(Debug)]
pub struct State {
    pool: BufferPool,
    windows: Vec<Menu>,
}

impl State {
    /// The surfaces, in the order in which they were added.
    pub closed spec fn surfaces(&self) -> Seq<Menu> {
        self.windows@
    }

    /// The buffer ledger.
    pub closed spec fn buffers(&self) -> Seq<BufferRecord> {
        self.pool@
    }

    /// The surfaces and the ledger agree.  This holds of every session at
    /// all times.
    #[verifier::type_invariant]
    pub open spec fn wf(&self) -> bool {
        consistent(self.surfaces(), self.buffers())
    }

    /// The state together with the requests that led to it.
    pub open spec fn outcome(&self, requests: Seq<Request>) -> Outcome {
        Outcome { surfaces: self.surfaces(), buffers: self.buffers(), requests }
    }

    /// A session without surfaces and without buffers.
    pub fn new() -> (state: State)
        ensures
            state.wf(),
            state.surfaces() == Seq::<Menu>::empty(),
            state.buffers() == Seq::<BufferRecord>::empty(),
    {
        State { pool: BufferPool::new(), windows: Vec::new() }
    }

    /// The surfaces, in the order in which they were added.
    pub fn windows(&self) -> (windows: &Vec<Menu>)
        ensures
            windows@ == self.surfaces(),
    {
        &self.windows
    }

    /// The buffer ledger.
    pub fn pool(&self) -> (pool: &BufferPool)
        ensures
            pool@ == self.buffers(),
    {
        &self.pool
    }

    /// The first surface with the given identity.
    pub fn window(&self, surface: SurfaceId) -> (found: Option<Menu>)
        ensures
            is_first_of(self.surfaces(), surface, found),
    {
        let mut i: usize = 0;
        while i < self.windows.len()
            invariant
                i <= self.windows.len(),
                forall|j: int| 0 <= j < i ==> (#[trigger] self.windows@[j]).id != surface,
            decreases self.windows.len() - i,
        {
            let menu: Menu = self.windows[i];
            if menu.id.0 == surface.0 {
                return Some(menu);
            }
            i += 1;
        }
        None
    }

    /// Whether some surface has `buffer` bound.
    pub fn is_bound(&self, buffer: BufferId) -> (bound: bool)
        ensures
            bound == bound_in(self.surfaces(), buffer),
    {
        any_bound(&self.windows, buffer)
    }

    /// Takes the surfaces and the ledger out and leaves an empty session.
    fn take(&mut self) -> (parts: (Vec<Menu>, BufferPool))
        ensures
            parts.0@ == old(self).surfaces(),
            parts.1@ == old(self).buffers(),
            consistent(parts.0@, parts.1@),
            final(self).surfaces() == Seq::<Menu>::empty(),
            final(self).buffers() == Seq::<BufferRecord>::empty(),
    {
        proof {
            use_type_invariant(&*self);
        }
        let mut taken = State::new();
        core::mem::swap(self, &mut taken);
        let State { pool, windows } = taken;
        (windows, pool)
    }

    /// Adds a new, unconfigured surface at the end of the collection.
    pub fn add_window(&mut self, surface: SurfaceId)
        ensures
            final(self).wf(),
            final(self).surfaces() == old(self).surfaces().push(Menu::initial(surface)),
            final(self).buffers() == old(self).buffers(),
    {
        let (mut windows, pool) = self.take();
        let ghost before = windows@;
        windows.push(Menu::new(surface));
        proof {
            lemma_push_consistent(before, pool@, Menu::initial(surface));
        }
        *self = State { pool, windows };
    }

    /// Presents every surface that is configured and damaged, in the order
    /// of the collection, and returns what has to be sent, in order.
    ///
    /// A surface without a buffer gets a new one of its size; a surface
    /// whose buffer the server still holds gets a second one of the same
    /// size and leaves the first untouched.  The buffer presented goes in
    /// flight and the damage flag is cleared.  Surfaces that are not
    /// configured or not damaged are passed over.
    pub fn draw(&mut self) -> (requests: Vec<Request>)
        ensures
            final(self).wf(),
            final(self).outcome(requests@) == drawing(old(self).surfaces(), old(self).buffers()),
            final(self).surfaces().len() == old(self).surfaces().len(),
            forall|i: int|
                0 <= i < final(self).surfaces().len() ==> !(#[trigger] final(self).surfaces()[i]).wants_draw(),
            forall|i: int|
                0 <= i < final(self).surfaces().len() && !old(self).surfaces()[i].wants_draw() ==> (
                #[trigger] final(self).surfaces()[i]) == old(self).surfaces()[i],
    {
        let mut requests: Vec<Request> = Vec::new();
        let (mut windows, mut pool) = self.take();
        let ghost surfaces = windows@;
        let ghost buffers = pool@;
        sweep(&mut windows, &mut pool, &Pass::Draw, &mut requests);
        proof {
            lemma_run_frame(Pass::Draw, surfaces, buffers, surfaces.len());
            assert(requests@ =~= run(Pass::Draw, surfaces, buffers).requests);
        }
        *self = State { pool, windows };
        requests
    }

    /// Handles a frame-completion signal: draws.  Which surface the signal
    /// is for makes no difference; every surface left to draw is drawn.
    pub fn frame(&mut self, surface: SurfaceId) -> (requests: Vec<Request>)
        ensures
            final(self).wf(),
            final(self).outcome(requests@) == drawing(old(self).surfaces(), old(self).buffers()),
    {
        self.draw()
    }

    /// Handles a configure event: every surface with the given identity
    /// takes the proposed size, with the default for each absent dimension,
    /// loses its buffer, and is marked configured and damaged; then
    /// everything is drawn.
    pub fn configure(&mut self, surface: SurfaceId, size: Configure) -> (requests: Vec<Request>)
        ensures
            final(self).wf(),
            final(self).outcome(requests@) == configuring(
                old(self).surfaces(),
                old(self).buffers(),
                surface,
                size,
            ),
            final(self).surfaces().len() == old(self).surfaces().len(),
            forall|i: int|
                0 <= i < final(self).surfaces().len() ==> (#[trigger] final(self).surfaces()[i]).has_area(),
            forall|i: int|
                0 <= i < final(self).surfaces().len() && old(self).surfaces()[i].id == surface ==> {
                    &&& (#[trigger] final(self).surfaces()[i]).width == extent_or_default(size.width)
                    &&& final(self).surfaces()[i].height == extent_or_default(size.height)
                    &&& final(self).surfaces()[i].configured
                    &&& !final(self).surfaces()[i].damaged
                },
    {
        let mut requests: Vec<Request> = Vec::new();
        let (mut windows, mut pool) = self.take();
        let ghost surfaces = windows@;
        let ghost buffers = pool@;
        let pass = Pass::Configure { surface, size };
        sweep(&mut windows, &mut pool, &pass, &mut requests);
        let ghost sized = run(pass, surfaces, buffers);
        sweep(&mut windows, &mut pool, &Pass::Draw, &mut requests);
        proof {
            let shown = run(Pass::Draw, sized.surfaces, sized.buffers);
            lemma_run_frame(pass, surfaces, buffers, surfaces.len());
            lemma_run_frame(Pass::Draw, sized.surfaces, sized.buffers, sized.surfaces.len());
            assert(requests@ =~= sized.requests + shown.requests);
            assert forall|i: int| 0 <= i < windows@.len() implies (#[trigger] windows@[i]).has_area() by {
                assert(fits(windows@[i], pool@));
            }
        }
        *self = State { pool, windows };
        requests
    }

    /// Handles a damage request: every surface with the given identity is
    /// marked damaged.  Nothing is drawn before the next frame-completion
    /// signal or configure event.
    pub fn damage(&mut self, surface: SurfaceId)
        ensures
            final(self).wf(),
            final(self).outcome(Seq::empty()) == damaging(old(self).surfaces(), old(self).buffers(), surface),
    {
        let mut requests: Vec<Request> = Vec::new();
        let (mut windows, mut pool) = self.take();
        let ghost surfaces = windows@;
        let ghost buffers = pool@;
        sweep(&mut windows, &mut pool, &Pass::Damage { surface }, &mut requests);
        proof {
            lemma_damage_pass(surfaces, buffers, surface);
        }
        *self = State { pool, windows };
    }

    /// Handles a close request: every surface with the given identity
    /// leaves the collection and lets go of its buffer, which is destroyed
    /// at once if it is free and left to the server if it is in flight.
    /// All other surfaces stay as they are, in their order.
    pub fn request_close(&mut self, surface: SurfaceId) -> (requests: Vec<Request>)
        ensures
            final(self).wf(),
            final(self).outcome(requests@) == closing(old(self).surfaces(), old(self).buffers(), surface),
            forall|i: int|
                0 <= i < final(self).surfaces().len() ==> (#[trigger] final(self).surfaces()[i]).id != surface,
    {
        let mut requests: Vec<Request> = Vec::new();
        let (mut windows, mut pool) = self.take();
        let ghost surfaces = windows@;
        let ghost buffers = pool@;
        let pass = Pass::Unbind { surface };
        sweep(&mut windows, &mut pool, &pass, &mut requests);
        proof {
            lemma_run_frame(pass, surfaces, buffers, surfaces.len());
            assert(requests@ =~= run(pass, surfaces, buffers).requests);
        }
        let ghost unbound = windows@;
        let kept = remove_closed(windows, surface);
        proof {
            lemma_filter_consistent(unbound, pool@, surface, unbound.len());
            assert(unbound.take(unbound.len() as int) =~= unbound);
            assert(kept@ + unbound.skip(unbound.len() as int) =~= kept@);
            lemma_filter_agrees(unbound, surfaces, surface);
            assert forall|i: int| 0 <= i < kept@.len() implies (#[trigger] kept@[i]).id != surface by {
                surfaces.lemma_filter_pred(other_than(surface), i);
            }
        }
        *self = State { pool, windows: kept };
        requests
    }

    /// Handles the server's release of `buffer`: a buffer in flight becomes
    /// writable again if a surface still has it bound, and is reclaimed and
    /// destroyed if none has.  A release of any other buffer changes
    /// nothing.
    pub fn buffer_released(&mut self, buffer: BufferId) -> (requests: Vec<Request>)
        ensures
            final(self).wf(),
            final(self).outcome(requests@) == releasing(old(self).surfaces(), old(self).buffers(), buffer),
    {
        let mut requests: Vec<Request> = Vec::new();
        let (windows, mut pool) = self.take();
        let ghost buffers = pool@;
        if pool.release(buffer) {
            if !any_bound(&windows, buffer) {
                pool.discard(buffer);
                requests.push(Request::DestroyBuffer { buffer });
            }
        }
        proof {
            lemma_release_consistent(windows@, buffers, buffer);
        }
        *self = State { pool, windows };
        requests
    }

    /// Handles any event and returns what has to be sent in answer, in
    /// order.  Scale, transform and output notifications are acknowledged
    /// and change nothing.
    pub fn dispatch(&mut self, event: Event) -> (requests: Vec<Request>)
        ensures
            final(self).wf(),
            final(self).outcome(requests@) == handling(old(self).surfaces(), old(self).buffers(), event),
    {
        proof {
            use_type_invariant(&*self);
        }
        match event {
            Event::Configure { surface, size } => self.configure(surface, size),
            Event::CloseRequested { surface } => self.request_close(surface),
            Event::FrameDone { surface } => self.frame(surface),
            Event::DamageRequested { surface } => {
                self.damage(surface);
                Vec::new()
            },
            Event::BufferReleased { buffer } => self.buffer_released(buffer),
            _ => Vec::new(),
        }
    }
}

/// The release of a buffer leaves a consistent collection consistent.
pub proof fn lemma_release_consistent(surfaces: Seq<Menu>, buffers: Seq<BufferRecord>, buffer: BufferId)
    requires
        consistent(surfaces, buffers),
    ensures
        consistent(releasing(surfaces, buffers, buffer).surfaces, releasing(surfaces, buffers, buffer).buffers),
{
    let after = releasing(surfaces, buffers, buffer);
    assert forall|i: int| 0 <= i < surfaces.len() implies fits(#[trigger] after.surfaces[i], after.buffers) by {
        assert(fits(surfaces[i], buffers));
        if !bound_in(surfaces, buffer) {
            assert(surfaces[i].buffer != Some(buffer));
        }
    }
    assert forall|other: BufferId| #[trigger]
        has_status(after.buffers, other, BufferStatus::Free) implies bound_in(after.surfaces, other) by {
        if other != buffer {
            assert(has_status(buffers, other, BufferStatus::Free));
        }
    }
}

/// A damage pass sends nothing and leaves the ledger alone.
proof fn lemma_damage_silent(surfaces: Seq<Menu>, buffers: Seq<BufferRecord>, surface: SurfaceId, count: nat)
    requires
        count <= surfaces.len(),
    ensures
        run_upto(Pass::Damage { surface }, surfaces, buffers, count).requests == Seq::<Request>::empty(),
        run_upto(Pass::Damage { surface }, surfaces, buffers, count).buffers == buffers,
    decreases count,
{
    if count > 0 {
        lemma_damage_silent(surfaces, buffers, surface, (count - 1) as nat);
        assert(Seq::<Request>::empty() + Seq::<Request>::empty() =~= Seq::<Request>::empty());
    }
}

/// A damage pass marks the surface and does nothing else.
pub proof fn lemma_damage_pass(surfaces: Seq<Menu>, buffers: Seq<BufferRecord>, surface: SurfaceId)
    ensures
        run(Pass::Damage { surface }, surfaces, buffers) == damaging(surfaces, buffers, surface),
{
    lemma_run_frame(Pass::Damage { surface }, surfaces, buffers, surfaces.len());
    lemma_damage_silent(surfaces, buffers, surface, surfaces.len());
}

} // verus!
