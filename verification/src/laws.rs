//! What holds of the session whatever the server sends.

use crate::pass::{
    bound_in, consistent, fits, lemma_filter_agrees, lemma_filter_consistent, lemma_run_consistent,
    lemma_run_frame, lemma_run_ledger_length, other_than, run, run_upto, visit, Pass,
};
use crate::pool::{canvas_in, has_status, known, BufferId, BufferRecord, BufferStatus};
use crate::present::{drawn, present, provided, record_for, reusable, target_of};
use crate::request::Request;
use crate::state::{
    closing, configuring, drawing, handling, idle, lemma_damage_pass, lemma_release_consistent,
    Event,
};
use crate::surface::{extent_or_default, Configure, Menu, SurfaceId};
use vstd::prelude::*;

verus! {

/// No surface is left to draw.
pub open spec fn settled(surfaces: Seq<Menu>) -> bool {
    forall|i: int| 0 <= i < surfaces.len() ==> !(#[trigger] surfaces[i]).wants_draw()
}

/// No surface has the given identity.
pub open spec fn absent(surfaces: Seq<Menu>, surface: SurfaceId) -> bool {
    forall|i: int| 0 <= i < surfaces.len() ==> (#[trigger] surfaces[i]).id != surface
}

/// No request acts on the given surface.
pub open spec fn silent_on(requests: Seq<Request>, surface: SurfaceId) -> bool {
    forall|k: int| 0 <= k < requests.len() ==> (#[trigger] requests[k]).surface() != Some(surface)
}

/// The size of the buffer bound to the surface, where one is bound and the
/// ledger has it.
pub open spec fn bound_size(menu: Menu, buffers: Seq<BufferRecord>) -> Option<(u32, u32)> {
    match menu.buffer {
        Some(bound) => if known(buffers, bound) {
            Some((buffers[bound.0 as int].width, buffers[bound.0 as int].height))
        } else {
            None
        },
        None => None,
    }
}

/// Whether the event proposes positive dimensions only.
pub open spec fn well_formed(event: Event) -> bool {
    event matches Event::Configure { size, .. } ==> size.valid()
}

/// After a configure event every surface has a positive width and height,
/// and every surface the event is for has the proposed size, with 256 in
/// place of each dimension the server left out.
pub proof fn configure_gives_positive_size(
    surfaces: Seq<Menu>,
    buffers: Seq<BufferRecord>,
    surface: SurfaceId,
    size: Configure,
)
    requires
        size.valid(),
        forall|i: int| 0 <= i < surfaces.len() ==> (#[trigger] surfaces[i]).has_area(),
    ensures
        configuring(surfaces, buffers, surface, size).surfaces.len() == surfaces.len(),
        forall|i: int|
            0 <= i < surfaces.len() ==> (#[trigger] configuring(
                surfaces,
                buffers,
                surface,
                size,
            ).surfaces[i]).has_area(),
        forall|i: int|
            0 <= i < surfaces.len() && surfaces[i].id == surface ==> {
                &&& (#[trigger] configuring(surfaces, buffers, surface, size).surfaces[i]).width
                    == extent_or_default(size.width)
                &&& configuring(surfaces, buffers, surface, size).surfaces[i].height == extent_or_default(
                    size.height,
                )
            },
        extent_or_default(None) == 256,
{
    let pass = Pass::Configure { surface, size };
    let sized = run(pass, surfaces, buffers);
    lemma_run_frame(pass, surfaces, buffers, surfaces.len());
    lemma_run_frame(Pass::Draw, sized.surfaces, sized.buffers, sized.surfaces.len());
    let after = configuring(surfaces, buffers, surface, size);
    assert forall|i: int| 0 <= i < surfaces.len() implies (#[trigger] after.surfaces[i]).has_area() by {
        assert(surfaces[i].has_area());
    }
}

/// A draw over surfaces none of which is left to draw changes nothing and
/// sends nothing.
pub proof fn lemma_settled_draw_is_idle(surfaces: Seq<Menu>, buffers: Seq<BufferRecord>, count: nat)
    requires
        settled(surfaces),
        count <= surfaces.len(),
    ensures
        run_upto(Pass::Draw, surfaces, buffers, count) == idle(surfaces, buffers),
    decreases count,
{
    if count > 0 {
        lemma_settled_draw_is_idle(surfaces, buffers, (count - 1) as nat);
        assert(!surfaces[count - 1].wants_draw());
        assert(surfaces.update(count - 1, surfaces[count - 1]) =~= surfaces);
        assert(Seq::<Request>::empty() + Seq::<Request>::empty() =~= Seq::<Request>::empty());
    }
}

/// After a draw no configured surface is damaged, and a second draw with no
/// damage in between changes nothing and sends nothing.
pub proof fn draw_is_idempotent(surfaces: Seq<Menu>, buffers: Seq<BufferRecord>)
    ensures
        forall|i: int|
            0 <= i < surfaces.len() && surfaces[i].configured ==> !(#[trigger] drawing(
                surfaces,
                buffers,
            ).surfaces[i]).damaged,
        settled(drawing(surfaces, buffers).surfaces),
        drawing(drawing(surfaces, buffers).surfaces, drawing(surfaces, buffers).buffers) == idle(
            drawing(surfaces, buffers).surfaces,
            drawing(surfaces, buffers).buffers,
        ),
{
    let once = drawing(surfaces, buffers);
    lemma_run_frame(Pass::Draw, surfaces, buffers, surfaces.len());
    assert forall|i: int| 0 <= i < once.surfaces.len() implies !(#[trigger] once.surfaces[i]).wants_draw() by {
        assert(!surfaces[i].wants_draw() ==> once.surfaces[i] == surfaces[i]);
    }
    lemma_settled_draw_is_idle(once.surfaces, once.buffers, once.surfaces.len());
}

/// Drawing a surface whose buffer the server does not hold allocates a
/// buffer exactly when no buffer of the surface's size is bound to it.
pub proof fn allocation_follows_size(menu: Menu, buffers: Seq<BufferRecord>)
    requires
        fits(menu, buffers),
        menu.wants_draw(),
        !(menu.buffer matches Some(bound) && has_status(buffers, bound, BufferStatus::InFlight)),
    ensures
        drawn(menu, buffers).buffers.len() == buffers.len() + 1 <==> bound_size(menu, buffers) != Some(
            (menu.width, menu.height),
        ),
        drawn(menu, buffers).buffers.len() == buffers.len() <==> bound_size(menu, buffers) == Some(
            (menu.width, menu.height),
        ),
        bound_size(menu, buffers) == Some((menu.width, menu.height)) ==> drawn(menu, buffers).menu.buffer
            == menu.buffer,
{
}

/// After a configure event each surface the event is for is bound to a
/// buffer that did not exist before and has the surface's new size.
pub proof fn configure_rebinds(
    surfaces: Seq<Menu>,
    buffers: Seq<BufferRecord>,
    surface: SurfaceId,
    size: Configure,
    index: int,
)
    requires
        consistent(surfaces, buffers),
        size.valid(),
        buffers.len() + surfaces.len() <= usize::MAX,
        0 <= index < surfaces.len(),
        surfaces[index].id == surface,
    ensures
        configuring(surfaces, buffers, surface, size).surfaces[index].buffer matches Some(bound) && {
            &&& buffers.len() <= bound.0 < configuring(surfaces, buffers, surface, size).buffers.len()
            &&& configuring(surfaces, buffers, surface, size).buffers[bound.0 as int].width
                == extent_or_default(size.width)
            &&& configuring(surfaces, buffers, surface, size).buffers[bound.0 as int].height
                == extent_or_default(size.height)
        },
{
    let pass = Pass::Configure { surface, size };
    let sized = run(pass, surfaces, buffers);
    lemma_run_frame(pass, surfaces, buffers, surfaces.len());
    lemma_run_ledger_length(pass, surfaces, buffers, surfaces.len());
    lemma_run_consistent(pass, surfaces, buffers, surfaces.len());
    lemma_run_consistent(Pass::Draw, sized.surfaces, sized.buffers, sized.surfaces.len());
    lemma_run_frame(Pass::Draw, sized.surfaces, sized.buffers, sized.surfaces.len());
    lemma_run_ledger_length(Pass::Draw, sized.surfaces, sized.buffers, sized.surfaces.len());
    lemma_draw_binding(sized.surfaces, sized.buffers, sized.surfaces.len(), index);
    let after = configuring(surfaces, buffers, surface, size);
    assert(fits(after.surfaces[index], after.buffers));
}

/// Where the server still holds the bound buffer of a surface that is
/// drawn, exactly one buffer is added, of the surface's size; it becomes the
/// bound buffer and the one presented; every buffer that existed before,
/// the held one among them, stays exactly as it was; nothing is destroyed,
/// and nothing is sent about the held buffer.
pub proof fn held_buffer_is_doubled(menu: Menu, buffers: Seq<BufferRecord>, held: BufferId)
    requires
        menu.wants_draw(),
        menu.buffer == Some(held),
        known(buffers, held),
        canvas_in(buffers, held) is None,
        buffers.len() <= usize::MAX,
    ensures
        drawn(menu, buffers).buffers.len() == buffers.len() + 1,
        drawn(menu, buffers).menu.buffer == Some(BufferId(buffers.len() as usize)),
        drawn(menu, buffers).buffers[buffers.len() as int] == (BufferRecord {
            status: BufferStatus::InFlight,
            ..record_for(menu)
        }),
        forall|b: int| 0 <= b < buffers.len() ==> #[trigger] drawn(menu, buffers).buffers[b] == buffers[b],
        !drawn(menu, buffers).menu.damaged,
        forall|k: int|
            0 <= k < drawn(menu, buffers).requests.len() ==> !(#[trigger] drawn(menu, buffers).requests[k]
                is DestroyBuffer),
        forall|k: int|
            0 <= k < drawn(menu, buffers).requests.len() ==> (#[trigger] drawn(
                menu,
                buffers,
            ).requests[k]).buffer() != Some(held),
        drawn(menu, buffers).requests[0] is CreateBuffer,
        forall|k: int|
            1 <= k < drawn(menu, buffers).requests.len() ==> !(#[trigger] drawn(menu, buffers).requests[k]
                is CreateBuffer),
{
}

/// A draw changes no buffer that is not free: what the server holds, and
/// what has been reclaimed, stays exactly as it was.
pub proof fn draw_leaves_held_buffers(
    surfaces: Seq<Menu>,
    buffers: Seq<BufferRecord>,
    count: nat,
    buffer: BufferId,
)
    requires
        count <= surfaces.len(),
        buffers.len() + count <= usize::MAX,
        known(buffers, buffer),
        canvas_in(buffers, buffer) is None,
    ensures
        known(run_upto(Pass::Draw, surfaces, buffers, count).buffers, buffer),
        run_upto(Pass::Draw, surfaces, buffers, count).buffers[buffer.0 as int] == buffers[buffer.0 as int],
    decreases count,
{
    if count > 0 {
        draw_leaves_held_buffers(surfaces, buffers, (count - 1) as nat, buffer);
        lemma_run_ledger_length(Pass::Draw, surfaces, buffers, (count - 1) as nat);
    }
}

/// A draw over the first `count` surfaces changes no buffer that none of
/// them has bound.
pub proof fn lemma_draw_spares_unvisited(
    surfaces: Seq<Menu>,
    buffers: Seq<BufferRecord>,
    count: nat,
    buffer: BufferId,
)
    requires
        count <= surfaces.len(),
        buffers.len() + count <= usize::MAX,
        known(buffers, buffer),
        forall|j: int| 0 <= j < count ==> (#[trigger] surfaces[j]).buffer != Some(buffer),
    ensures
        known(run_upto(Pass::Draw, surfaces, buffers, count).buffers, buffer),
        run_upto(Pass::Draw, surfaces, buffers, count).buffers[buffer.0 as int] == buffers[buffer.0 as int],
    decreases count,
{
    if count > 0 {
        lemma_draw_spares_unvisited(surfaces, buffers, (count - 1) as nat, buffer);
        lemma_run_ledger_length(Pass::Draw, surfaces, buffers, (count - 1) as nat);
        lemma_run_frame(Pass::Draw, surfaces, buffers, (count - 1) as nat);
        let before = run_upto(Pass::Draw, surfaces, buffers, (count - 1) as nat);
        assert(before.surfaces[count - 1] == surfaces[count - 1]);
    }
}

/// In a draw, a visited surface that is to be drawn keeps its buffer where
/// it can write to it, and is bound to a buffer that did not exist before
/// where it cannot.
pub proof fn lemma_draw_binding(surfaces: Seq<Menu>, buffers: Seq<BufferRecord>, count: nat, index: int)
    requires
        consistent(surfaces, buffers),
        count <= surfaces.len(),
        buffers.len() + count <= usize::MAX,
        0 <= index < count,
        surfaces[index].wants_draw(),
    ensures
        reusable(surfaces[index], buffers) ==> run_upto(
            Pass::Draw,
            surfaces,
            buffers,
            count,
        ).surfaces[index].buffer == surfaces[index].buffer,
        !reusable(surfaces[index], buffers) ==> (run_upto(
            Pass::Draw,
            surfaces,
            buffers,
            count,
        ).surfaces[index].buffer matches Some(bound) && buffers.len() <= bound.0),
    decreases count,
{
    lemma_run_frame(Pass::Draw, surfaces, buffers, (count - 1) as nat);
    lemma_run_ledger_length(Pass::Draw, surfaces, buffers, (count - 1) as nat);
    if index < count - 1 {
        lemma_draw_binding(surfaces, buffers, (count - 1) as nat, index);
    } else {
        let before = run_upto(Pass::Draw, surfaces, buffers, (count - 1) as nat);
        assert(before.surfaces[index] == surfaces[index]);
        if let Some(bound) = surfaces[index].buffer {
            assert(fits(surfaces[index], buffers));
            assert forall|j: int| 0 <= j < count - 1 implies (#[trigger] surfaces[j]).buffer != Some(
                bound,
            ) by {
                assert(surfaces[index].buffer != surfaces[j].buffer);
            }
            lemma_draw_spares_unvisited(surfaces, buffers, (count - 1) as nat, bound);
        }
    }
}

/// In a draw, a surface whose buffer the server does not hold keeps its
/// buffer if that buffer has the surface's size, and is bound to a buffer
/// that did not exist before, of the surface's size, if it has none of that
/// size.
pub proof fn draw_allocates_for_unbound_size(surfaces: Seq<Menu>, buffers: Seq<BufferRecord>, index: int)
    requires
        consistent(surfaces, buffers),
        buffers.len() + surfaces.len() <= usize::MAX,
        0 <= index < surfaces.len(),
        surfaces[index].wants_draw(),
        !(surfaces[index].buffer matches Some(bound) && has_status(buffers, bound, BufferStatus::InFlight)),
    ensures
        bound_size(surfaces[index], buffers) == Some((surfaces[index].width, surfaces[index].height))
            ==> drawing(surfaces, buffers).surfaces[index].buffer == surfaces[index].buffer,
        bound_size(surfaces[index], buffers) != Some((surfaces[index].width, surfaces[index].height))
            ==> (drawing(surfaces, buffers).surfaces[index].buffer matches Some(bound) && {
            &&& buffers.len() <= bound.0 < drawing(surfaces, buffers).buffers.len()
            &&& drawing(surfaces, buffers).buffers[bound.0 as int].width == surfaces[index].width
            &&& drawing(surfaces, buffers).buffers[bound.0 as int].height == surfaces[index].height
        }),
{
    assert(fits(surfaces[index], buffers));
    lemma_draw_binding(surfaces, buffers, surfaces.len(), index);
    lemma_run_consistent(Pass::Draw, surfaces, buffers, surfaces.len());
    lemma_run_frame(Pass::Draw, surfaces, buffers, surfaces.len());
    let after = drawing(surfaces, buffers);
    assert(fits(after.surfaces[index], after.buffers));
}

/// In a draw, a surface whose buffer the server still holds is bound to a
/// buffer that did not exist before, of the same size, and is no longer
/// damaged; the held buffer stays exactly as it was.
pub proof fn draw_doubles_held_buffer(
    surfaces: Seq<Menu>,
    buffers: Seq<BufferRecord>,
    index: int,
    held: BufferId,
)
    requires
        consistent(surfaces, buffers),
        buffers.len() + surfaces.len() <= usize::MAX,
        0 <= index < surfaces.len(),
        surfaces[index].wants_draw(),
        surfaces[index].buffer == Some(held),
        canvas_in(buffers, held) is None,
    ensures
        drawing(surfaces, buffers).buffers[held.0 as int] == buffers[held.0 as int],
        !drawing(surfaces, buffers).surfaces[index].damaged,
        drawing(surfaces, buffers).surfaces[index].buffer matches Some(bound) && {
            &&& bound != held
            &&& buffers.len() <= bound.0 < drawing(surfaces, buffers).buffers.len()
            &&& drawing(surfaces, buffers).buffers[bound.0 as int].width == buffers[held.0 as int].width
            &&& drawing(surfaces, buffers).buffers[bound.0 as int].height == buffers[held.0 as int].height
            &&& drawing(surfaces, buffers).buffers[bound.0 as int].stride == buffers[held.0 as int].stride
        },
{
    assert(fits(surfaces[index], buffers));
    draw_leaves_held_buffers(surfaces, buffers, surfaces.len(), held);
    lemma_draw_binding(surfaces, buffers, surfaces.len(), index);
    lemma_run_consistent(Pass::Draw, surfaces, buffers, surfaces.len());
    lemma_run_frame(Pass::Draw, surfaces, buffers, surfaces.len());
    let after = drawing(surfaces, buffers);
    assert(fits(after.surfaces[index], after.buffers));
}

/// The buffer a surface is presented with was writable when it was filled,
/// and is in flight afterwards.
pub proof fn presented_buffer_was_writable(menu: Menu, buffers: Seq<BufferRecord>)
    requires
        buffers.len() <= usize::MAX,
    ensures
        canvas_in(provided(menu, buffers), target_of(menu, buffers)) is Some,
        has_status(present(menu, buffers).buffers, target_of(menu, buffers), BufferStatus::InFlight),
{
}

/// A pass sends nothing for a surface that is not in the collection.
pub proof fn lemma_absent_is_unnamed(
    pass: Pass,
    surfaces: Seq<Menu>,
    buffers: Seq<BufferRecord>,
    count: nat,
    surface: SurfaceId,
)
    requires
        count <= surfaces.len(),
        absent(surfaces, surface),
    ensures
        silent_on(run_upto(pass, surfaces, buffers, count).requests, surface),
        absent(run_upto(pass, surfaces, buffers, count).surfaces, surface),
    decreases count,
{
    lemma_run_frame(pass, surfaces, buffers, count);
    let after = run_upto(pass, surfaces, buffers, count);
    assert forall|i: int| 0 <= i < after.surfaces.len() implies (#[trigger] after.surfaces[i]).id
        != surface by {
        assert(surfaces[i].id != surface);
    }
    if count > 0 {
        lemma_absent_is_unnamed(pass, surfaces, buffers, (count - 1) as nat, surface);
        lemma_run_frame(pass, surfaces, buffers, (count - 1) as nat);
        assert(surfaces[count - 1].id != surface);
    }
}

/// A surface that is not in the collection stays out of it, and nothing is
/// ever sent for it, whatever event arrives.
pub proof fn absent_surface_stays_silent(
    surfaces: Seq<Menu>,
    buffers: Seq<BufferRecord>,
    event: Event,
    surface: SurfaceId,
)
    requires
        absent(surfaces, surface),
    ensures
        absent(handling(surfaces, buffers, event).surfaces, surface),
        silent_on(handling(surfaces, buffers, event).requests, surface),
{
    match event {
        Event::Configure { surface: target, size } => {
            let pass = Pass::Configure { surface: target, size };
            let sized = run(pass, surfaces, buffers);
            lemma_absent_is_unnamed(pass, surfaces, buffers, surfaces.len(), surface);
            lemma_run_frame(pass, surfaces, buffers, surfaces.len());
            lemma_absent_is_unnamed(Pass::Draw, sized.surfaces, sized.buffers, sized.surfaces.len(), surface);
        },
        Event::CloseRequested { surface: target } => {
            lemma_absent_is_unnamed(Pass::Unbind { surface: target }, surfaces, buffers, surfaces.len(), surface);
            lemma_filter_keeps_absent(surfaces, target, surface);
        },
        Event::FrameDone { .. } => {
            lemma_absent_is_unnamed(Pass::Draw, surfaces, buffers, surfaces.len(), surface);
        },
        Event::DamageRequested { surface: target } => {
            lemma_damage_pass(surfaces, buffers, target);
            lemma_absent_is_unnamed(Pass::Damage { surface: target }, surfaces, buffers, surfaces.len(), surface);
        },
        _ => {},
    }
}

/// Taking surfaces out of a collection brings none in.
pub proof fn lemma_filter_keeps_absent(surfaces: Seq<Menu>, closed: SurfaceId, surface: SurfaceId)
    requires
        absent(surfaces, surface),
    ensures
        absent(surfaces.filter(other_than(closed)), surface),
{
    let kept = surfaces.filter(other_than(closed));
    assert forall|i: int| 0 <= i < kept.len() implies (#[trigger] kept[i]).id != surface by {
        assert(kept.contains(kept[i]));
        surfaces.lemma_filter_contains_rev(other_than(closed), kept[i]);
        let j = choose|j: int| 0 <= j < surfaces.len() && surfaces[j] == kept[i];
        assert(surfaces[j].id != surface);
    }
}

/// An unbind pass changes no buffer but those bound to the surfaces it is
/// for.
pub proof fn lemma_unbind_spares_others(
    surfaces: Seq<Menu>,
    buffers: Seq<BufferRecord>,
    surface: SurfaceId,
    count: nat,
    buffer: BufferId,
)
    requires
        count <= surfaces.len(),
        known(buffers, buffer),
        forall|j: int|
            0 <= j < count && (#[trigger] surfaces[j]).id == surface ==> surfaces[j].buffer != Some(buffer),
    ensures
        known(run_upto(Pass::Unbind { surface }, surfaces, buffers, count).buffers, buffer),
        run_upto(Pass::Unbind { surface }, surfaces, buffers, count).buffers[buffer.0 as int]
            == buffers[buffer.0 as int],
    decreases count,
{
    if count > 0 {
        let pass = Pass::Unbind { surface };
        lemma_unbind_spares_others(surfaces, buffers, surface, (count - 1) as nat, buffer);
        lemma_run_frame(pass, surfaces, buffers, (count - 1) as nat);
        let before = run_upto(pass, surfaces, buffers, (count - 1) as nat);
        assert(before.surfaces[count - 1] == surfaces[count - 1]);
    }
}

/// A close request leaves every other surface in the collection as it was,
/// and the buffer bound to it as it was.
pub proof fn close_spares_other_surfaces(
    surfaces: Seq<Menu>,
    buffers: Seq<BufferRecord>,
    surface: SurfaceId,
    index: int,
)
    requires
        consistent(surfaces, buffers),
        0 <= index < surfaces.len(),
        surfaces[index].id != surface,
    ensures
        closing(surfaces, buffers, surface).surfaces.contains(surfaces[index]),
        surfaces[index].buffer matches Some(bound) ==> closing(
            surfaces,
            buffers,
            surface,
        ).buffers[bound.0 as int] == buffers[bound.0 as int],
{
    surfaces.lemma_filter_contains(other_than(surface), index);
    if let Some(bound) = surfaces[index].buffer {
        assert(fits(surfaces[index], buffers));
        assert forall|j: int| 0 <= j < surfaces.len() && (#[trigger] surfaces[j]).id == surface implies surfaces[j].buffer
            != Some(bound) by {
            assert(surfaces[index].buffer != surfaces[j].buffer);
        }
        lemma_unbind_spares_others(surfaces, buffers, surface, surfaces.len(), bound);
    }
}

/// A close request takes the surface out of the collection and leaves all
/// others in it, in their order and as they were.  From then on a
/// frame-completion signal for the closed surface sends nothing for it and
/// does not bring it back.
pub proof fn close_removes_surface(surfaces: Seq<Menu>, buffers: Seq<BufferRecord>, surface: SurfaceId)
    ensures
        closing(surfaces, buffers, surface).surfaces == surfaces.filter(other_than(surface)),
        absent(closing(surfaces, buffers, surface).surfaces, surface),
        absent(
            handling(
                closing(surfaces, buffers, surface).surfaces,
                closing(surfaces, buffers, surface).buffers,
                Event::FrameDone { surface },
            ).surfaces,
            surface,
        ),
        silent_on(
            handling(
                closing(surfaces, buffers, surface).surfaces,
                closing(surfaces, buffers, surface).buffers,
                Event::FrameDone { surface },
            ).requests,
            surface,
        ),
{
    let after = closing(surfaces, buffers, surface);
    assert forall|i: int| 0 <= i < after.surfaces.len() implies (#[trigger] after.surfaces[i]).id
        != surface by {
        surfaces.lemma_filter_pred(other_than(surface), i);
    }
    absent_surface_stays_silent(after.surfaces, after.buffers, Event::FrameDone { surface }, surface);
}

/// Whatever event arrives, the surfaces and the ledger stay in agreement:
/// every surface keeps a positive size, a bound buffer always has the size
/// of its surface and has not been reclaimed, and no buffer is bound twice.
pub proof fn events_keep_consistency(surfaces: Seq<Menu>, buffers: Seq<BufferRecord>, event: Event)
    requires
        consistent(surfaces, buffers),
        well_formed(event),
        buffers.len() + surfaces.len() <= usize::MAX,
    ensures
        consistent(handling(surfaces, buffers, event).surfaces, handling(surfaces, buffers, event).buffers),
{
    let after = handling(surfaces, buffers, event);
    match event {
        Event::Configure { surface, size } => {
            let pass = Pass::Configure { surface, size };
            let sized = run(pass, surfaces, buffers);
            lemma_run_consistent(pass, surfaces, buffers, surfaces.len());
            lemma_run_frame(pass, surfaces, buffers, surfaces.len());
            lemma_run_ledger_length(pass, surfaces, buffers, surfaces.len());
            lemma_run_consistent(Pass::Draw, sized.surfaces, sized.buffers, sized.surfaces.len());
        },
        Event::CloseRequested { surface } => {
            let pass = Pass::Unbind { surface };
            let unbound = run(pass, surfaces, buffers);
            lemma_run_consistent(pass, surfaces, buffers, surfaces.len());
            lemma_run_frame(pass, surfaces, buffers, surfaces.len());
            lemma_filter_consistent(unbound.surfaces, unbound.buffers, surface, unbound.surfaces.len());
            lemma_filter_agrees(unbound.surfaces, surfaces, surface);
            assert(unbound.surfaces.take(unbound.surfaces.len() as int) =~= unbound.surfaces);
            assert(unbound.surfaces.filter(other_than(surface)) + unbound.surfaces.skip(
                unbound.surfaces.len() as int,
            ) =~= unbound.surfaces.filter(other_than(surface)));
        },
        Event::FrameDone { .. } => {
            lemma_run_consistent(Pass::Draw, surfaces, buffers, surfaces.len());
        },
        Event::DamageRequested { surface } => {
            lemma_damage_pass(surfaces, buffers, surface);
            lemma_run_consistent(Pass::Damage { surface }, surfaces, buffers, surfaces.len());
        },
        Event::BufferReleased { buffer } => {
            lemma_release_consistent(surfaces, buffers, buffer);
        },
        _ => {},
    }
}

/// A buffer that has been reclaimed stays reclaimed whatever a pass does to
/// a surface.
pub proof fn lemma_reclaimed_stays(pass: Pass, menu: Menu, buffers: Seq<BufferRecord>, buffer: BufferId)
    requires
        has_status(buffers, buffer, BufferStatus::Reclaimed),
    ensures
        has_status(visit(pass, menu, buffers).buffers, buffer, BufferStatus::Reclaimed),
{
}

/// Every buffer a pass asks to destroy is reclaimed in the ledger the pass
/// leaves behind.
pub proof fn lemma_destroyed_is_reclaimed(
    pass: Pass,
    surfaces: Seq<Menu>,
    buffers: Seq<BufferRecord>,
    count: nat,
)
    requires
        count <= surfaces.len(),
    ensures
        forall|k: int|
            0 <= k < run_upto(pass, surfaces, buffers, count).requests.len() ==> (#[trigger] run_upto(
                pass,
                surfaces,
                buffers,
                count,
            ).requests[k] matches Request::DestroyBuffer { buffer } ==> has_status(
                run_upto(pass, surfaces, buffers, count).buffers,
                buffer,
                BufferStatus::Reclaimed,
            )),
    decreases count,
{
    if count > 0 {
        lemma_destroyed_is_reclaimed(pass, surfaces, buffers, (count - 1) as nat);
        let before = run_upto(pass, surfaces, buffers, (count - 1) as nat);
        let step = visit(pass, before.surfaces[count - 1], before.buffers);
        let after = run_upto(pass, surfaces, buffers, count);
        assert forall|k: int| 0 <= k < after.requests.len() implies (
            #[trigger] after.requests[k] matches Request::DestroyBuffer { buffer }
                ==> has_status(after.buffers, buffer, BufferStatus::Reclaimed)
        ) by {
            if k < before.requests.len() {
                assert(after.requests[k] == before.requests[k]);
                if let Request::DestroyBuffer { buffer } = before.requests[k] {
                    lemma_reclaimed_stays(pass, before.surfaces[count - 1], before.buffers, buffer);
                }
            } else {
                assert(after.requests[k] == step.requests[k - before.requests.len()]);
            }
        }
    }
}

/// A buffer is destroyed only once the server has let go of it and no
/// surface presents it: after any event, every buffer the event asked to
/// destroy is reclaimed and bound to no surface.
pub proof fn destroyed_buffer_is_never_in_use(
    surfaces: Seq<Menu>,
    buffers: Seq<BufferRecord>,
    event: Event,
    index: int,
)
    requires
        consistent(surfaces, buffers),
        well_formed(event),
        buffers.len() + surfaces.len() <= usize::MAX,
        0 <= index < handling(surfaces, buffers, event).requests.len(),
    ensures
        handling(surfaces, buffers, event).requests[index] matches Request::DestroyBuffer { buffer } ==> {
            &&& has_status(handling(surfaces, buffers, event).buffers, buffer, BufferStatus::Reclaimed)
            &&& !bound_in(handling(surfaces, buffers, event).surfaces, buffer)
        },
{
    let after = handling(surfaces, buffers, event);
    events_keep_consistency(surfaces, buffers, event);
    if let Request::DestroyBuffer { buffer } = after.requests[index] {
        match event {
            Event::Configure { surface, size } => {
                let pass = Pass::Configure { surface, size };
                let sized = run(pass, surfaces, buffers);
                let shown = run(Pass::Draw, sized.surfaces, sized.buffers);
                lemma_run_frame(pass, surfaces, buffers, surfaces.len());
                lemma_destroyed_is_reclaimed(pass, surfaces, buffers, surfaces.len());
                lemma_destroyed_is_reclaimed(Pass::Draw, sized.surfaces, sized.buffers, sized.surfaces.len());
                if index < sized.requests.len() {
                    assert(after.requests[index] == sized.requests[index]);
                    lemma_run_keeps_reclaimed(Pass::Draw, sized.surfaces, sized.buffers, sized.surfaces.len(), buffer);
                } else {
                    assert(after.requests[index] == shown.requests[index - sized.requests.len()]);
                }
            },
            Event::CloseRequested { surface } => {
                lemma_destroyed_is_reclaimed(Pass::Unbind { surface }, surfaces, buffers, surfaces.len());
            },
            Event::FrameDone { .. } => {
                lemma_destroyed_is_reclaimed(Pass::Draw, surfaces, buffers, surfaces.len());
            },
            _ => {},
        }
        assert(has_status(after.buffers, buffer, BufferStatus::Reclaimed));
        assert forall|i: int| 0 <= i < after.surfaces.len() implies (#[trigger] after.surfaces[i]).buffer
            != Some(buffer) by {
            assert(fits(after.surfaces[i], after.buffers));
        }
    }
}

/// A buffer that has been reclaimed stays reclaimed through a whole pass.
pub proof fn lemma_run_keeps_reclaimed(
    pass: Pass,
    surfaces: Seq<Menu>,
    buffers: Seq<BufferRecord>,
    count: nat,
    buffer: BufferId,
)
    requires
        count <= surfaces.len(),
        has_status(buffers, buffer, BufferStatus::Reclaimed),
    ensures
        has_status(run_upto(pass, surfaces, buffers, count).buffers, buffer, BufferStatus::Reclaimed),
    decreases count,
{
    if count > 0 {
        lemma_run_keeps_reclaimed(pass, surfaces, buffers, (count - 1) as nat, buffer);
        let before = run_upto(pass, surfaces, buffers, (count - 1) as nat);
        lemma_reclaimed_stays(pass, before.surfaces[count - 1], before.buffers, buffer);
    }
}

} // verus!
