//! One pass over all surfaces, and what it keeps true of them.

use crate::pool::{has_status, known, BufferId, BufferPool, BufferRecord, BufferStatus};
use crate::present::{
    configure_surface, draw_surface, drawn, reconfigured, record_for, unbind_surface, unbinding,
    untouched, Presentation,
};
use crate::request::Request;
use crate::surface::{Configure, Menu, SurfaceId};
use vstd::prelude::*;

verus! {

/// What a pass does to each surface it visits.
#[derive(Clone, Copy, Debug, PartialEq, Eq)]
pub enum Pass {
    /// Present every surface that is configured and damaged.
    Draw,
    /// Give `surface` the proposed size.
    Configure { surface: SurfaceId, size: Configure },
    /// Take the bound buffer away from `surface`.
    Unbind { surface: SurfaceId },
    /// Mark `surface` as damaged.
    Damage { surface: SurfaceId },
}

/// Outcome of a pass: the surfaces, the ledger and the requests to send,
/// in order.
#[verifier::ext_equal]
pub struct Outcome {
    pub surfaces: Seq<Menu>,
    pub buffers: Seq<BufferRecord>,
    pub requests: Seq<Request>,
}

impl Pass {
    /// Whether each dimension the pass proposes is positive.
    pub open spec fn valid(self) -> bool {
        self matches Pass::Configure { size, .. } ==> size.valid()
    }
}

/// What the pass does to one surface.
pub open spec fn visit(pass: Pass, menu: Menu, buffers: Seq<BufferRecord>) -> Presentation {
    match pass {
        Pass::Draw => drawn(menu, buffers),
        Pass::Configure { surface, size } => if menu.id == surface {
            reconfigured(menu, buffers, size)
        } else {
            untouched(menu, buffers)
        },
        Pass::Unbind { surface } => if menu.id == surface {
            unbinding(menu, buffers)
        } else {
            untouched(menu, buffers)
        },
        Pass::Damage { surface } => if menu.id == surface {
            untouched(menu.with_damage(), buffers)
        } else {
            untouched(menu, buffers)
        },
    }
}

/// The surface a pass leaves behind, whatever buffer a draw binds to it.
pub open spec fn touched(pass: Pass, menu: Menu) -> Menu {
    Menu { buffer: menu.buffer, ..visit(pass, menu, Seq::empty()).menu }
}

/// The pass carried out on the first `count` surfaces, in their order; the
/// ledger and the requests run through from one surface to the next.
pub open spec fn run_upto(pass: Pass, surfaces: Seq<Menu>, buffers: Seq<BufferRecord>, count: nat) -> Outcome
    decreases count,
{
    if count == 0 || count > surfaces.len() {
        Outcome { surfaces, buffers, requests: Seq::empty() }
    } else {
        let before = run_upto(pass, surfaces, buffers, (count - 1) as nat);
        let step = visit(pass, before.surfaces[count - 1], before.buffers);
        Outcome {
            surfaces: before.surfaces.update(count - 1, step.menu),
            buffers: step.buffers,
            requests: before.requests + step.requests,
        }
    }
}

/// The pass carried out on every surface.
pub open spec fn run(pass: Pass, surfaces: Seq<Menu>, buffers: Seq<BufferRecord>) -> Outcome {
    run_upto(pass, surfaces, buffers, surfaces.len())
}

/// A surface agrees with the ledger: it has an area, and its bound buffer,
/// if any, exists, has not been reclaimed, and has the surface's size,
/// stride and format.
pub open spec fn fits(menu: Menu, buffers: Seq<BufferRecord>) -> bool {
    &&& menu.has_area()
    &&& menu.buffer matches Some(bound) ==> {
        &&& known(buffers, bound)
        &&& buffers[bound.0 as int].status != BufferStatus::Reclaimed
        &&& buffers[bound.0 as int] == BufferRecord {
            status: buffers[bound.0 as int].status,
            ..record_for(menu)
        }
    }
}

/// No buffer is bound to two surfaces.
pub open spec fn exclusive(surfaces: Seq<Menu>) -> bool {
    forall|i: int, j: int|
        0 <= i < surfaces.len() && 0 <= j < surfaces.len() && i != j && (#[trigger] surfaces[i]).buffer is Some
            ==> surfaces[i].buffer != (#[trigger] surfaces[j]).buffer
}

/// Whether some surface has `buffer` bound.
pub open spec fn bound_in(surfaces: Seq<Menu>, buffer: BufferId) -> bool {
    exists|i: int| 0 <= i < surfaces.len() && (#[trigger] surfaces[i]).buffer == Some(buffer)
}

/// Every buffer is accounted for: one that no surface has bound is held by
/// the server or has been reclaimed.
pub open spec fn accounted(surfaces: Seq<Menu>, buffers: Seq<BufferRecord>) -> bool {
    forall|buffer: BufferId| #[trigger]
        has_status(buffers, buffer, BufferStatus::Free) ==> bound_in(surfaces, buffer)
}

/// The surfaces and the ledger agree: every surface fits the ledger and
/// owns its buffer alone, and every buffer is accounted for.
pub open spec fn consistent(surfaces: Seq<Menu>, buffers: Seq<BufferRecord>) -> bool {
    &&& forall|i: int| 0 <= i < surfaces.len() ==> fits(#[trigger] surfaces[i], buffers)
    &&& exclusive(surfaces)
    &&& accounted(surfaces, buffers)
}

/// Visiting one surface of a consistent collection leaves it consistent.
pub proof fn lemma_visit_consistent(pass: Pass, surfaces: Seq<Menu>, buffers: Seq<BufferRecord>, index: int)
    requires
        consistent(surfaces, buffers),
        0 <= index < surfaces.len(),
        buffers.len() <= usize::MAX,
        visit(pass, surfaces[index], buffers).menu.has_area(),
    ensures
        consistent(
            surfaces.update(index, visit(pass, surfaces[index], buffers).menu),
            visit(pass, surfaces[index], buffers).buffers,
        ),
{
    let menu = surfaces[index];
    let step = visit(pass, menu, buffers);
    let after = surfaces.update(index, step.menu);
    assert(fits(menu, buffers));
    assert forall|i: int| 0 <= i < after.len() implies fits(#[trigger] after[i], step.buffers) by {
        assert(fits(surfaces[i], buffers));
        if i != index && surfaces[i].buffer is Some && menu.buffer is Some {
            assert(surfaces[i].buffer != surfaces[index].buffer);
        }
    }
    assert forall|i: int, j: int|
        0 <= i < after.len() && 0 <= j < after.len() && i != j && (#[trigger] after[i]).buffer is Some
        implies after[i].buffer != (#[trigger] after[j]).buffer by {
        assert(fits(surfaces[i], buffers));
        assert(fits(surfaces[j], buffers));
        if surfaces[i].buffer is Some {
            assert(surfaces[i].buffer != surfaces[j].buffer);
        }
        if surfaces[j].buffer is Some {
            assert(surfaces[j].buffer != surfaces[i].buffer);
        }
    }
    assert forall|buffer: BufferId| #[trigger]
        has_status(step.buffers, buffer, BufferStatus::Free) implies bound_in(after, buffer) by {
        assert(has_status(buffers, buffer, BufferStatus::Free));
        let owner = choose|i: int| 0 <= i < surfaces.len() && (#[trigger] surfaces[i]).buffer == Some(buffer);
        assert(after[owner].buffer == Some(buffer));
    }
}

/// Adding a surface that has an area and no buffer to a consistent
/// collection leaves it consistent.
pub proof fn lemma_push_consistent(surfaces: Seq<Menu>, buffers: Seq<BufferRecord>, menu: Menu)
    requires
        consistent(surfaces, buffers),
        menu.has_area(),
        menu.buffer is None,
    ensures
        consistent(surfaces.push(menu), buffers),
{
    let after = surfaces.push(menu);
    assert forall|i: int| 0 <= i < after.len() implies fits(#[trigger] after[i], buffers) by {
        if i < surfaces.len() {
            assert(fits(surfaces[i], buffers));
        }
    }
    assert forall|i: int, j: int|
        0 <= i < after.len() && 0 <= j < after.len() && i != j && (#[trigger] after[i]).buffer is Some
        implies after[i].buffer != (#[trigger] after[j]).buffer by {
        if j < surfaces.len() {
            assert(surfaces[i].buffer != surfaces[j].buffer);
        }
    }
    assert forall|buffer: BufferId| #[trigger]
        has_status(buffers, buffer, BufferStatus::Free) implies bound_in(after, buffer) by {
        let owner = choose|i: int| 0 <= i < surfaces.len() && (#[trigger] surfaces[i]).buffer == Some(buffer);
        assert(after[owner] == surfaces[owner]);
    }
}

/// Taking a surface without a buffer out of a consistent collection leaves
/// it consistent.
pub proof fn lemma_remove_consistent(surfaces: Seq<Menu>, buffers: Seq<BufferRecord>, index: int)
    requires
        consistent(surfaces, buffers),
        0 <= index < surfaces.len(),
        surfaces[index].buffer is None,
    ensures
        consistent(surfaces.remove(index), buffers),
{
    let after = surfaces.remove(index);
    assert forall|i: int| 0 <= i < after.len() implies fits(#[trigger] after[i], buffers) by {
        if i < index {
            assert(fits(surfaces[i], buffers));
        } else {
            assert(fits(surfaces[i + 1], buffers));
        }
    }
    assert forall|i: int, j: int|
        0 <= i < after.len() && 0 <= j < after.len() && i != j && (#[trigger] after[i]).buffer is Some
        implies after[i].buffer != (#[trigger] after[j]).buffer by {
        let from = if i < index { i } else { i + 1 };
        let to = if j < index { j } else { j + 1 };
        assert(after[i] == surfaces[from]);
        assert(after[j] == surfaces[to]);
        assert(surfaces[from].buffer != surfaces[to].buffer);
    }
    assert forall|buffer: BufferId| #[trigger]
        has_status(buffers, buffer, BufferStatus::Free) implies bound_in(after, buffer) by {
        let owner = choose|i: int| 0 <= i < surfaces.len() && (#[trigger] surfaces[i]).buffer == Some(buffer);
        let moved = if owner < index { owner } else { owner - 1 };
        assert(after[moved] == surfaces[owner]);
    }
}

/// Holds of every surface but the one with the given identity.
pub open spec fn other_than(surface: SurfaceId) -> spec_fn(Menu) -> bool {
    |menu: Menu| menu.id != surface
}

/// Leaving surfaces without a buffer out of a consistent collection leaves
/// it consistent.
pub proof fn lemma_filter_consistent(
    surfaces: Seq<Menu>,
    buffers: Seq<BufferRecord>,
    closed: SurfaceId,
    count: nat,
)
    requires
        consistent(surfaces, buffers),
        count <= surfaces.len(),
        forall|j: int|
            0 <= j < surfaces.len() && (#[trigger] surfaces[j]).id == closed ==> surfaces[j].buffer is None,
    ensures
        consistent(
            surfaces.take(count as int).filter(other_than(closed)) + surfaces.skip(count as int),
            buffers,
        ),
    decreases count,
{
    reveal(Seq::filter);
    let keep = other_than(closed);
    if count == 0 {
        assert(surfaces.take(0).filter(keep) + surfaces.skip(0) =~= surfaces);
    } else {
        lemma_filter_consistent(surfaces, buffers, closed, (count - 1) as nat);
        let kept = surfaces.take(count - 1).filter(keep);
        let joined = kept + surfaces.skip(count - 1);
        assert(surfaces.take(count as int).drop_last() =~= surfaces.take(count - 1));
        assert(surfaces.take(count as int).last() == surfaces[count - 1]);
        if keep(surfaces[count - 1]) {
            assert(kept.push(surfaces[count - 1]) + surfaces.skip(count as int) =~= joined);
        } else {
            assert(joined[kept.len() as int] == surfaces[count - 1]);
            lemma_remove_consistent(joined, buffers, kept.len() as int);
            assert(joined.remove(kept.len() as int) =~= kept + surfaces.skip(count as int));
        }
    }
}

/// Two collections that hold the same surfaces wherever one of them is to
/// be kept leave the same surfaces behind.
pub proof fn lemma_filter_agrees(left: Seq<Menu>, right: Seq<Menu>, closed: SurfaceId)
    requires
        left.len() == right.len(),
        forall|j: int|
            0 <= j < left.len() ==> (#[trigger] left[j]).id == right[j].id && (left[j].id != closed
                ==> left[j] == right[j]),
    ensures
        left.filter(other_than(closed)) == right.filter(other_than(closed)),
    decreases left.len(),
{
    reveal(Seq::filter);
    if left.len() > 0 {
        assert(left.last().id == right.last().id) by {
            assert(left[left.len() - 1].id == right[left.len() - 1].id);
        }
        assert forall|j: int| 0 <= j < left.drop_last().len() implies (#[trigger] left.drop_last()[j]).id
            == right.drop_last()[j].id && (left.drop_last()[j].id != closed ==> left.drop_last()[j]
            == right.drop_last()[j]) by {
            assert(left[j].id == right[j].id);
        }
        lemma_filter_agrees(left.drop_last(), right.drop_last(), closed);
    }
}

/// What a pass over the first `count` surfaces leaves of the collection:
/// its length and the identity of every surface stay; the surfaces not yet
/// visited are untouched; each visited surface is what the pass makes of it,
/// and only a draw changes which buffer it is bound to.
pub proof fn lemma_run_frame(pass: Pass, surfaces: Seq<Menu>, buffers: Seq<BufferRecord>, count: nat)
    requires
        count <= surfaces.len(),
    ensures
        run_upto(pass, surfaces, buffers, count).surfaces.len() == surfaces.len(),
        forall|j: int|
            count <= j < surfaces.len() ==> #[trigger] run_upto(pass, surfaces, buffers, count).surfaces[j]
                == surfaces[j],
        forall|j: int|
            0 <= j < count ==> #[trigger] run_upto(pass, surfaces, buffers, count).surfaces[j] == (Menu {
                buffer: run_upto(pass, surfaces, buffers, count).surfaces[j].buffer,
                ..touched(pass, surfaces[j])
            }),
        forall|j: int|
            0 <= j < count && (pass != Pass::Draw || !surfaces[j].wants_draw()) ==> #[trigger] run_upto(
                pass,
                surfaces,
                buffers,
                count,
            ).surfaces[j] == visit(pass, surfaces[j], Seq::empty()).menu,
    decreases count,
{
    if count > 0 {
        lemma_run_frame(pass, surfaces, buffers, (count - 1) as nat);
        let before = run_upto(pass, surfaces, buffers, (count - 1) as nat);
        assert(before.surfaces[count - 1] == surfaces[count - 1]);
    }
}

/// A pass never shrinks the ledger, adds at most one buffer for each surface
/// it visits, and adds none unless it draws.
pub proof fn lemma_run_ledger_length(pass: Pass, surfaces: Seq<Menu>, buffers: Seq<BufferRecord>, count: nat)
    requires
        count <= surfaces.len(),
    ensures
        buffers.len() <= run_upto(pass, surfaces, buffers, count).buffers.len() <= buffers.len() + count,
        pass != Pass::Draw ==> run_upto(pass, surfaces, buffers, count).buffers.len() == buffers.len(),
    decreases count,
{
    if count > 0 {
        lemma_run_ledger_length(pass, surfaces, buffers, (count - 1) as nat);
    }
}

/// A pass over a consistent collection leaves it consistent.
pub proof fn lemma_run_consistent(pass: Pass, surfaces: Seq<Menu>, buffers: Seq<BufferRecord>, count: nat)
    requires
        consistent(surfaces, buffers),
        pass.valid(),
        count <= surfaces.len(),
        buffers.len() + count <= usize::MAX,
    ensures
        consistent(
            run_upto(pass, surfaces, buffers, count).surfaces,
            run_upto(pass, surfaces, buffers, count).buffers,
        ),
    decreases count,
{
    if count > 0 {
        lemma_run_consistent(pass, surfaces, buffers, (count - 1) as nat);
        lemma_run_ledger_length(pass, surfaces, buffers, (count - 1) as nat);
        lemma_run_frame(pass, surfaces, buffers, (count - 1) as nat);
        let before = run_upto(pass, surfaces, buffers, (count - 1) as nat);
        assert(fits(before.surfaces[count - 1], before.buffers));
        lemma_visit_consistent(pass, before.surfaces, before.buffers, count - 1);
    }
}

/// Carries out what the pass does to one surface.
pub fn visit_surface(pass: &Pass, menu: &mut Menu, pool: &mut BufferPool, requests: &mut Vec<Request>)
    ensures
        *final(menu) == visit(*pass, *old(menu), old(pool)@).menu,
        final(pool)@ == visit(*pass, *old(menu), old(pool)@).buffers,
        final(requests)@ == old(requests)@ + visit(*pass, *old(menu), old(pool)@).requests,
        old(menu).has_area() ==> final(menu).has_area(),
{
    match pass {
        Pass::Draw => {
            draw_surface(menu, pool, requests);
        },
        Pass::Configure { surface, size } => {
            if menu.id.0 == surface.0 {
                configure_surface(menu, pool, requests, *size);
            } else {
                assert(requests@ =~= old(requests)@ + Seq::<Request>::empty());
            }
        },
        Pass::Unbind { surface } => {
            if menu.id.0 == surface.0 {
                unbind_surface(menu, pool, requests);
            } else {
                assert(requests@ =~= old(requests)@ + Seq::<Request>::empty());
            }
        },
        Pass::Damage { surface } => {
            if menu.id.0 == surface.0 {
                menu.damage();
            }
            assert(requests@ =~= old(requests)@ + Seq::<Request>::empty());
        },
    }
}

} // verus!
