//! Presenting one surface: which buffer it gets and what is sent for it.

use crate::pool::{
    attached, canvas_in, discarded, has_status, row_stride, stride_of, BufferId, BufferPool,
    BufferRecord, BufferStatus, Canvas, PixelFormat,
};
use crate::request::Request;
use crate::surface::{Configure, Menu};
use vstd::prelude::*;

verus! {

/// Outcome of handling one surface: the surface, the ledger and the
/// requests to send, in order.
#[verifier::ext_equal]
pub struct Presentation {
    pub menu: Menu,
    pub buffers: Seq<BufferRecord>,
    pub requests: Seq<Request>,
}

/// The buffer record a surface of this size needs.
pub open spec fn record_for(menu: Menu) -> BufferRecord {
    BufferRecord::fresh(menu.width, menu.height, stride_of(menu.width), PixelFormat::Argb8888)
}

/// Whether the surface can present with the buffer it has: one is bound and
/// the server does not hold it.
pub open spec fn reusable(menu: Menu, buffers: Seq<BufferRecord>) -> bool {
    menu.buffer matches Some(bound) && canvas_in(buffers, bound) is Some
}

/// The buffer the surface presents with: the bound one where it is
/// reusable, otherwise a new one at the end of the ledger.
pub open spec fn target_of(menu: Menu, buffers: Seq<BufferRecord>) -> BufferId {
    if reusable(menu, buffers) {
        menu.buffer->0
    } else {
        BufferId(buffers.len() as usize)
    }
}

/// The ledger once the surface has a buffer it can write to.
pub open spec fn provided(menu: Menu, buffers: Seq<BufferRecord>) -> Seq<BufferRecord> {
    if reusable(menu, buffers) {
        buffers
    } else {
        buffers.push(record_for(menu))
    }
}

/// The request that creates the surface's new buffer, where it needs one.
pub open spec fn creation(menu: Menu, buffers: Seq<BufferRecord>) -> Seq<Request> {
    if reusable(menu, buffers) {
        Seq::empty()
    } else {
        seq![
            Request::CreateBuffer {
                buffer: target_of(menu, buffers),
                width: menu.width,
                height: menu.height,
                stride: stride_of(menu.width),
                format: PixelFormat::Argb8888,
            },
        ]
    }
}

/// What is sent to show `canvas` on the surface: fill, damage of the whole
/// surface, frame interest, and only then attach and commit.
pub open spec fn showing(menu: Menu, canvas: Canvas) -> Seq<Request> {
    seq![
        Request::Fill { surface: menu.id, canvas },
        Request::DamageBuffer { surface: menu.id, x: 0, y: 0, width: menu.width, height: menu.height },
        Request::Frame { surface: menu.id },
        Request::Attach { surface: menu.id, buffer: canvas.buffer },
        Request::Commit { surface: menu.id },
    ]
}

/// Presenting a surface: it gets a writable buffer (its own, or a new one
/// where it has none or the server still holds it), the buffer goes in
/// flight, and the damage flag is cleared.
pub open spec fn present(menu: Menu, buffers: Seq<BufferRecord>) -> Presentation {
    let target = target_of(menu, buffers);
    let ledger = provided(menu, buffers);
    Presentation {
        menu: Menu { damaged: false, buffer: Some(target), ..menu },
        buffers: attached(ledger, target),
        requests: creation(menu, buffers) + showing(menu, canvas_in(ledger, target)->0),
    }
}

/// A surface that is passed over: nothing changes and nothing is sent.
pub open spec fn untouched(menu: Menu, buffers: Seq<BufferRecord>) -> Presentation {
    Presentation { menu, buffers, requests: Seq::empty() }
}

/// Handling a surface during a draw: it is presented if it is configured
/// and damaged, and left alone otherwise.
pub open spec fn drawn(menu: Menu, buffers: Seq<BufferRecord>) -> Presentation {
    if menu.wants_draw() {
        present(menu, buffers)
    } else {
        untouched(menu, buffers)
    }
}

/// Taking the bound buffer away from a surface.  A free buffer is reclaimed
/// and destroyed at once; one that the server still holds is left exactly as
/// it is.
pub open spec fn unbinding(menu: Menu, buffers: Seq<BufferRecord>) -> Presentation {
    match menu.buffer {
        Some(bound) => Presentation {
            menu: Menu { buffer: None, ..menu },
            buffers: discarded(buffers, bound),
            requests: if has_status(buffers, bound, BufferStatus::Free) {
                seq![Request::DestroyBuffer { buffer: bound }]
            } else {
                Seq::empty()
            },
        },
        None => untouched(menu, buffers),
    }
}

/// A configure event on a surface: the bound buffer is taken away and the
/// surface takes the proposed size.
pub open spec fn reconfigured(menu: Menu, buffers: Seq<BufferRecord>, size: Configure) -> Presentation {
    Presentation { menu: menu.resized(size), ..unbinding(menu, buffers) }
}

/// Takes the bound buffer, if any, away from the surface and appends the
/// request that destroys it where it can be destroyed at once.
pub fn unbind_surface(menu: &mut Menu, pool: &mut BufferPool, requests: &mut Vec<Request>)
    ensures
        *final(menu) == unbinding(*old(menu), old(pool)@).menu,
        final(pool)@ == unbinding(*old(menu), old(pool)@).buffers,
        final(requests)@ == old(requests)@ + unbinding(*old(menu), old(pool)@).requests,
{
    match menu.buffer {
        Some(bound) => {
            menu.buffer = None;
            if pool.discard(bound) {
                requests.push(Request::DestroyBuffer { buffer: bound });
                assert(requests@ =~= old(requests)@ + seq![Request::DestroyBuffer { buffer: bound }]);
            } else {
                assert(requests@ =~= old(requests)@ + Seq::<Request>::empty());
            }
        },
        None => {
            assert(requests@ =~= old(requests)@ + Seq::<Request>::empty());
        },
    }
}

/// Applies a configure event to the surface: takes its buffer away and
/// gives it the proposed size, the default for each absent dimension.
pub fn configure_surface(
    menu: &mut Menu,
    pool: &mut BufferPool,
    requests: &mut Vec<Request>,
    size: Configure,
)
    ensures
        *final(menu) == reconfigured(*old(menu), old(pool)@, size).menu,
        final(pool)@ == reconfigured(*old(menu), old(pool)@, size).buffers,
        final(requests)@ == old(requests)@ + reconfigured(*old(menu), old(pool)@, size).requests,
        final(menu).has_area(),
{
    unbind_surface(menu, pool, requests);
    menu.configure(size);
}

/// Draws one surface: presents it if it is configured and damaged, and
/// appends what has to be sent for it to `requests`.
pub fn draw_surface(menu: &mut Menu, pool: &mut BufferPool, requests: &mut Vec<Request>)
    ensures
        *final(menu) == drawn(*old(menu), old(pool)@).menu,
        final(pool)@ == drawn(*old(menu), old(pool)@).buffers,
        final(requests)@ == old(requests)@ + drawn(*old(menu), old(pool)@).requests,
{
    if !menu.needs_draw() {
        assert(old(requests)@ + Seq::<Request>::empty() =~= old(requests)@);
        return ;
    }
    let ghost before = *menu;
    let ghost ledger = pool@;
    let bound: Option<Canvas> = match menu.buffer {
        Some(buffer) => pool.canvas_of(buffer),
        None => None,
    };
    let canvas: Canvas = match bound {
        Some(canvas) => canvas,
        None => {
            let stride: u64 = row_stride(menu.width);
            let buffer: BufferId = pool.allocate(menu.width, menu.height, stride, PixelFormat::Argb8888);
            requests.push(
                Request::CreateBuffer {
                    buffer,
                    width: menu.width,
                    height: menu.height,
                    stride,
                    format: PixelFormat::Argb8888,
                },
            );
            Canvas { buffer, width: menu.width, height: menu.height, stride }
        },
    };
    assert(canvas_in(pool@, canvas.buffer) == Some(canvas));
    assert(canvas.buffer == target_of(before, ledger));
    assert(pool@ =~= provided(before, ledger));
    assert(requests@ =~= old(requests)@ + creation(before, ledger));
    requests.push(Request::Fill { surface: menu.id, canvas });
    requests.push(
        Request::DamageBuffer { surface: menu.id, x: 0, y: 0, width: menu.width, height: menu.height },
    );
    menu.damaged = false;
    requests.push(Request::Frame { surface: menu.id });
    pool.attach(canvas.buffer);
    requests.push(Request::Attach { surface: menu.id, buffer: canvas.buffer });
    requests.push(Request::Commit { surface: menu.id });
    menu.buffer = Some(canvas.buffer);
    assert(requests@ =~= old(requests)@ + present(before, ledger).requests);
}

} // verus!
