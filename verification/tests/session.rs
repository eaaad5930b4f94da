use menu_surfaces::{
    BufferId, BufferRecord, BufferStatus, Canvas, Configure, Event, Extent, Menu, PixelFormat,
    Request, State, SurfaceId,
};

fn proposal(width: u32, height: u32) -> Configure {
    Configure { width: Extent::new(width), height: Extent::new(height) }
}

fn record(width: u32, height: u32, status: BufferStatus) -> BufferRecord {
    BufferRecord { width, height, stride: u64::from(width) * 4, format: PixelFormat::Argb8888, status }
}

fn shown(surface: SurfaceId, buffer: usize, width: u32, height: u32) -> Vec<Request> {
    let stride = u64::from(width) * 4;
    vec![
        Request::Fill { surface, canvas: Canvas { buffer: BufferId(buffer), width, height, stride } },
        Request::DamageBuffer { surface, x: 0, y: 0, width, height },
        Request::Frame { surface },
        Request::Attach { surface, buffer: BufferId(buffer) },
        Request::Commit { surface },
    ]
}

fn created(buffer: usize, width: u32, height: u32) -> Request {
    Request::CreateBuffer {
        buffer: BufferId(buffer),
        width,
        height,
        stride: u64::from(width) * 4,
        format: PixelFormat::Argb8888,
    }
}

fn snapshot(state: &State) -> (Vec<Menu>, Vec<Option<BufferRecord>>) {
    let buffers = (0..state.pool().len()).map(|i| state.pool().get(BufferId(i))).collect();
    (state.windows().clone(), buffers)
}

#[test]
fn new_session_has_nothing() {
    let mut state = State::new();
    assert_eq!(state.windows().len(), 0);
    assert_eq!(state.pool().len(), 0);
    assert_eq!(state.draw(), vec![]);
    assert_eq!(state.window(SurfaceId(0)), None);
    assert!(!state.is_bound(BufferId(0)));
}

#[test]
fn add_window_appends_unconfigured_surface() {
    let mut state = State::new();
    state.add_window(SurfaceId(4));
    state.add_window(SurfaceId(2));
    assert_eq!(state.windows().clone(), vec![Menu::new(SurfaceId(4)), Menu::new(SurfaceId(2))]);
    assert_eq!(state.pool().len(), 0);
}

#[test]
fn unconfigured_surface_is_never_drawn() {
    let mut state = State::new();
    state.add_window(SurfaceId(4));
    assert_eq!(state.draw(), vec![]);
    assert_eq!(state.frame(SurfaceId(4)), vec![]);
    state.damage(SurfaceId(4));
    assert_eq!(state.draw(), vec![]);
    assert_eq!(state.windows().clone(), vec![Menu::new(SurfaceId(4))]);
    assert_eq!(state.pool().len(), 0);
}

#[test]
fn window_finds_the_first_with_that_identity() {
    let mut state = State::new();
    state.add_window(SurfaceId(4));
    state.add_window(SurfaceId(2));
    state.add_window(SurfaceId(2));
    state.configure(SurfaceId(4), proposal(10, 10));
    assert_eq!(state.window(SurfaceId(2)), Some(Menu::new(SurfaceId(2))));
    assert_eq!(state.window(SurfaceId(4)).unwrap().width, 10);
    assert_eq!(state.window(SurfaceId(3)), None);
}

#[test]
fn every_surface_has_positive_size_after_configure() {
    let sizes = [
        Configure { width: None, height: None },
        Configure { width: Extent::new(0), height: Extent::new(0) },
        Configure { width: Extent::new(1), height: None },
        Configure { width: None, height: Extent::new(u32::MAX) },
        proposal(1920, 1080),
    ];
    let expected = [(256, 256), (256, 256), (1, 256), (256, u32::MAX), (1920, 1080)];
    for (size, dimensions) in sizes.iter().zip(expected) {
        let mut state = State::new();
        state.add_window(SurfaceId(1));
        state.add_window(SurfaceId(2));
        state.configure(SurfaceId(2), *size);
        for menu in state.windows() {
            assert!(menu.width > 0 && menu.height > 0);
        }
        let configured = state.window(SurfaceId(2)).unwrap();
        assert_eq!((configured.width, configured.height), dimensions);
        assert!(configured.configured);
        assert_eq!(state.window(SurfaceId(1)), Some(Menu::new(SurfaceId(1))));
    }
}

#[test]
fn configure_for_unknown_surface_changes_nothing() {
    let mut state = State::new();
    state.add_window(SurfaceId(1));
    let before = snapshot(&state);
    assert_eq!(state.configure(SurfaceId(9), proposal(5, 5)), vec![]);
    assert_eq!(snapshot(&state), before);
}

#[test]
fn configure_draws_every_damaged_surface() {
    let mut state = State::new();
    state.add_window(SurfaceId(1));
    state.add_window(SurfaceId(2));
    state.configure(SurfaceId(1), proposal(10, 20));
    state.buffer_released(BufferId(0));
    state.damage(SurfaceId(1));

    let requests = state.configure(SurfaceId(2), proposal(30, 40));
    let mut expected = shown(SurfaceId(1), 0, 10, 20);
    expected.push(created(1, 30, 40));
    expected.extend(shown(SurfaceId(2), 1, 30, 40));
    assert_eq!(requests, expected);
}

#[test]
fn configure_reaches_every_surface_with_that_identity() {
    let mut state = State::new();
    state.add_window(SurfaceId(2));
    state.add_window(SurfaceId(2));
    let requests = state.configure(SurfaceId(2), proposal(3, 5));
    let mut expected = vec![created(0, 3, 5)];
    expected.extend(shown(SurfaceId(2), 0, 3, 5));
    expected.push(created(1, 3, 5));
    expected.extend(shown(SurfaceId(2), 1, 3, 5));
    assert_eq!(requests, expected);
    assert_eq!(state.windows()[0].buffer, Some(BufferId(0)));
    assert_eq!(state.windows()[1].buffer, Some(BufferId(1)));
}

#[test]
fn second_draw_without_damage_does_nothing() {
    let mut state = State::new();
    state.add_window(SurfaceId(1));
    state.add_window(SurfaceId(2));
    state.add_window(SurfaceId(3));
    state.configure(SurfaceId(1), proposal(10, 20));
    state.configure(SurfaceId(3), proposal(30, 40));
    state.damage(SurfaceId(1));
    state.damage(SurfaceId(2));

    let first = state.draw();
    assert!(!first.is_empty());
    for menu in state.windows() {
        assert!(!menu.configured || !menu.damaged);
    }
    let after_first = snapshot(&state);
    assert_eq!(state.draw(), vec![]);
    assert_eq!(snapshot(&state), after_first);
    assert_eq!(state.frame(SurfaceId(1)), vec![]);
    assert_eq!(snapshot(&state), after_first);
}

#[test]
fn released_buffer_is_reused_and_none_is_allocated() {
    let mut state = State::new();
    state.add_window(SurfaceId(1));
    state.configure(SurfaceId(1), proposal(10, 20));
    assert_eq!(state.buffer_released(BufferId(0)), vec![]);
    assert_eq!(state.pool().get(BufferId(0)), Some(record(10, 20, BufferStatus::Free)));

    state.damage(SurfaceId(1));
    let requests = state.draw();
    assert_eq!(requests, shown(SurfaceId(1), 0, 10, 20));
    assert_eq!(state.pool().len(), 1);
    assert_eq!(state.windows()[0].buffer, Some(BufferId(0)));
    assert_eq!(state.pool().get(BufferId(0)), Some(record(10, 20, BufferStatus::InFlight)));
}

#[test]
fn configure_with_the_same_size_still_allocates() {
    let mut state = State::new();
    state.add_window(SurfaceId(1));
    state.configure(SurfaceId(1), proposal(10, 20));
    let requests = state.configure(SurfaceId(1), proposal(10, 20));
    let mut expected = vec![created(1, 10, 20)];
    expected.extend(shown(SurfaceId(1), 1, 10, 20));
    assert_eq!(requests, expected);
}

#[test]
fn held_buffer_is_left_untouched_when_doubled() {
    let mut state = State::new();
    state.add_window(SurfaceId(1));
    state.add_window(SurfaceId(2));
    state.configure(SurfaceId(1), proposal(10, 20));
    state.configure(SurfaceId(2), proposal(30, 40));
    let held = state.pool().get(BufferId(0));
    let other = state.pool().get(BufferId(1));

    state.damage(SurfaceId(1));
    let requests = state.draw();
    let mut expected = vec![created(2, 10, 20)];
    expected.extend(shown(SurfaceId(1), 2, 10, 20));
    assert_eq!(requests, expected);
    assert_eq!(state.pool().len(), 3);
    assert_eq!(state.pool().get(BufferId(0)), held);
    assert_eq!(state.pool().get(BufferId(1)), other);
    assert_eq!(state.windows()[0].buffer, Some(BufferId(2)));
    assert_eq!(state.windows()[1].buffer, Some(BufferId(1)));
    assert!(!state.is_bound(BufferId(0)));
    assert!(state.is_bound(BufferId(2)));
}

#[test]
fn doubled_buffer_is_destroyed_once_released() {
    let mut state = State::new();
    state.add_window(SurfaceId(1));
    state.configure(SurfaceId(1), proposal(10, 20));
    state.damage(SurfaceId(1));
    state.draw();

    assert_eq!(state.buffer_released(BufferId(0)), vec![Request::DestroyBuffer { buffer: BufferId(0) }]);
    assert_eq!(state.pool().get(BufferId(0)), Some(record(10, 20, BufferStatus::Reclaimed)));
    assert_eq!(state.buffer_released(BufferId(0)), vec![]);
    assert_eq!(state.pool().get(BufferId(0)), Some(record(10, 20, BufferStatus::Reclaimed)));
    assert_eq!(state.pool().get(BufferId(1)), Some(record(10, 20, BufferStatus::InFlight)));
}

#[test]
fn release_of_unknown_or_free_buffer_changes_nothing() {
    let mut state = State::new();
    state.add_window(SurfaceId(1));
    state.configure(SurfaceId(1), proposal(10, 20));
    state.buffer_released(BufferId(0));
    let before = snapshot(&state);
    assert_eq!(state.buffer_released(BufferId(0)), vec![]);
    assert_eq!(state.buffer_released(BufferId(7)), vec![]);
    assert_eq!(snapshot(&state), before);
}

#[test]
fn damage_marks_only_the_named_surface() {
    let mut state = State::new();
    state.add_window(SurfaceId(1));
    state.add_window(SurfaceId(2));
    state.configure(SurfaceId(1), proposal(10, 20));
    state.configure(SurfaceId(2), proposal(10, 20));
    let (mut expected, buffers) = snapshot(&state);

    state.damage(SurfaceId(2));
    expected[1].damaged = true;
    assert_eq!(snapshot(&state), (expected.clone(), buffers.clone()));

    state.damage(SurfaceId(8));
    assert_eq!(snapshot(&state), (expected, buffers));
}

#[test]
fn close_destroys_free_buffer_and_keeps_the_others() {
    let mut state = State::new();
    state.add_window(SurfaceId(1));
    state.add_window(SurfaceId(2));
    state.add_window(SurfaceId(3));
    state.configure(SurfaceId(1), proposal(10, 20));
    state.configure(SurfaceId(2), proposal(30, 40));
    state.buffer_released(BufferId(1));
    let (windows, _) = snapshot(&state);

    let requests = state.request_close(SurfaceId(2));
    assert_eq!(requests, vec![Request::DestroyBuffer { buffer: BufferId(1) }]);
    assert_eq!(state.windows().clone(), vec![windows[0], windows[2]]);
    assert_eq!(state.pool().get(BufferId(0)), Some(record(10, 20, BufferStatus::InFlight)));
    assert_eq!(state.pool().get(BufferId(1)), Some(record(30, 40, BufferStatus::Reclaimed)));
}

#[test]
fn close_leaves_held_buffer_until_release() {
    let mut state = State::new();
    state.add_window(SurfaceId(1));
    state.configure(SurfaceId(1), proposal(10, 20));
    assert_eq!(state.request_close(SurfaceId(1)), vec![]);
    assert_eq!(state.windows().len(), 0);
    assert_eq!(state.pool().get(BufferId(0)), Some(record(10, 20, BufferStatus::InFlight)));
    assert!(!state.is_bound(BufferId(0)));

    assert_eq!(state.buffer_released(BufferId(0)), vec![Request::DestroyBuffer { buffer: BufferId(0) }]);
    assert_eq!(state.pool().get(BufferId(0)), Some(record(10, 20, BufferStatus::Reclaimed)));
}

#[test]
fn close_removes_every_surface_with_that_identity() {
    let mut state = State::new();
    state.add_window(SurfaceId(2));
    state.add_window(SurfaceId(1));
    state.add_window(SurfaceId(2));
    assert_eq!(state.request_close(SurfaceId(2)), vec![]);
    assert_eq!(state.windows().clone(), vec![Menu::new(SurfaceId(1))]);
    assert_eq!(state.request_close(SurfaceId(2)), vec![]);
    assert_eq!(state.windows().clone(), vec![Menu::new(SurfaceId(1))]);
}

#[test]
fn nothing_is_sent_for_a_closed_surface() {
    let closed = SurfaceId(1);
    let mut state = State::new();
    state.add_window(closed);
    state.add_window(SurfaceId(2));
    state.configure(closed, proposal(10, 20));
    state.request_close(closed);

    let events = [
        Event::FrameDone { surface: closed },
        Event::DamageRequested { surface: closed },
        Event::Configure { surface: closed, size: proposal(5, 5) },
        Event::FrameDone { surface: closed },
        Event::Configure { surface: SurfaceId(2), size: proposal(7, 7) },
        Event::CloseRequested { surface: closed },
    ];
    for event in events {
        for request in state.dispatch(event) {
            let names_closed = match request {
                Request::Fill { surface, .. }
                | Request::DamageBuffer { surface, .. }
                | Request::Frame { surface }
                | Request::Attach { surface, .. }
                | Request::Commit { surface } => surface == closed,
                Request::CreateBuffer { .. } | Request::DestroyBuffer { .. } => false,
            };
            assert!(!names_closed);
        }
        assert_eq!(state.window(closed), None);
    }
}

#[test]
fn dispatch_does_what_the_handlers_do() {
    let mut direct = State::new();
    let mut routed = State::new();
    direct.add_window(SurfaceId(1));
    routed.add_window(SurfaceId(1));
    direct.add_window(SurfaceId(2));
    routed.add_window(SurfaceId(2));

    let size = proposal(12, 34);
    assert_eq!(
        routed.dispatch(Event::Configure { surface: SurfaceId(1), size }),
        direct.configure(SurfaceId(1), size)
    );
    assert_eq!(snapshot(&routed), snapshot(&direct));

    direct.damage(SurfaceId(1));
    assert_eq!(routed.dispatch(Event::DamageRequested { surface: SurfaceId(1) }), vec![]);
    assert_eq!(snapshot(&routed), snapshot(&direct));

    assert_eq!(routed.dispatch(Event::FrameDone { surface: SurfaceId(2) }), direct.frame(SurfaceId(2)));
    assert_eq!(snapshot(&routed), snapshot(&direct));

    assert_eq!(
        routed.dispatch(Event::BufferReleased { buffer: BufferId(0) }),
        direct.buffer_released(BufferId(0))
    );
    assert_eq!(snapshot(&routed), snapshot(&direct));

    assert_eq!(
        routed.dispatch(Event::CloseRequested { surface: SurfaceId(1) }),
        direct.request_close(SurfaceId(1))
    );
    assert_eq!(snapshot(&routed), snapshot(&direct));
    assert_eq!(routed.windows().clone(), vec![Menu::new(SurfaceId(2))]);
}

#[test]
fn notifications_change_nothing() {
    let surface = SurfaceId(1);
    let mut state = State::new();
    state.add_window(surface);
    state.configure(surface, proposal(10, 20));
    state.damage(surface);
    let before = snapshot(&state);
    let events = [
        Event::ScaleFactorChanged { surface, factor: 2 },
        Event::TransformChanged { surface },
        Event::SurfaceEntered { surface },
        Event::SurfaceLeft { surface },
        Event::OutputAdded,
        Event::OutputUpdated,
        Event::OutputRemoved,
    ];
    for event in events {
        assert_eq!(state.dispatch(event), vec![]);
        assert_eq!(snapshot(&state), before);
    }
}

#[test]
fn buffers_are_numbered_in_the_order_of_the_surfaces() {
    let mut state = State::new();
    state.add_window(SurfaceId(5));
    state.add_window(SurfaceId(6));
    state.add_window(SurfaceId(7));
    state.configure(SurfaceId(7), proposal(7, 7));
    state.configure(SurfaceId(5), proposal(5, 5));
    state.configure(SurfaceId(6), proposal(6, 6));
    state.damage(SurfaceId(5));
    state.damage(SurfaceId(6));
    state.damage(SurfaceId(7));
    state.buffer_released(BufferId(2));

    let requests = state.draw();
    let mut expected = vec![created(3, 5, 5)];
    expected.extend(shown(SurfaceId(5), 3, 5, 5));
    expected.extend(shown(SurfaceId(6), 2, 6, 6));
    expected.push(created(4, 7, 7));
    expected.extend(shown(SurfaceId(7), 4, 7, 7));
    assert_eq!(requests, expected);
}

fn assert_agreement(state: &State) {
    let windows = state.windows();
    for (index, menu) in windows.iter().enumerate() {
        assert!(menu.width > 0 && menu.height > 0);
        if let Some(bound) = menu.buffer {
            let held = state.pool().get(bound).unwrap();
            assert_eq!((held.width, held.height), (menu.width, menu.height));
            assert_eq!(held.stride, u64::from(menu.width) * 4);
            assert_eq!(held.format, PixelFormat::Argb8888);
            assert_ne!(held.status, BufferStatus::Reclaimed);
            for other in &windows[index + 1..] {
                assert_ne!(other.buffer, Some(bound));
            }
            assert!(state.is_bound(bound));
        }
    }
    for index in 0..state.pool().len() {
        let buffer = BufferId(index);
        if state.pool().get(buffer).unwrap().status == BufferStatus::Free {
            assert!(state.is_bound(buffer));
        }
    }
}

#[test]
fn surfaces_and_ledger_agree_after_every_event() {
    let mut state = State::new();
    let mut seed: u64 = 0x2545_f491_4f6c_dd1d;
    let mut next = move |bound: u64| {
        seed = seed.wrapping_mul(6_364_136_223_846_793_005).wrapping_add(1_442_695_040_888_963_407);
        (seed >> 33) % bound
    };
    for step in 0..2_000 {
        let surface = SurfaceId(next(4) as u32);
        let event = match next(7) {
            0 => {
                if state.windows().len() < 6 {
                    state.add_window(surface);
                }
                Event::OutputUpdated
            }
            1 => Event::Configure {
                surface,
                size: Configure {
                    width: Extent::new(next(5) as u32 * 100),
                    height: Extent::new(next(5) as u32 * 50),
                },
            },
            2 => Event::CloseRequested { surface },
            3 => Event::FrameDone { surface },
            4 => Event::DamageRequested { surface },
            5 => Event::BufferReleased { buffer: BufferId(next(state.pool().len() as u64 + 1) as usize) },
            _ => Event::ScaleFactorChanged { surface, factor: 2 },
        };
        let before = state.pool().len();
        let requests = state.dispatch(event);
        assert_agreement(&state);

        let created = requests.iter().filter(|r| matches!(r, Request::CreateBuffer { .. })).count();
        assert_eq!(state.pool().len(), before + created);
        for request in &requests {
            match *request {
                Request::DestroyBuffer { buffer } => {
                    assert_eq!(state.pool().get(buffer).unwrap().status, BufferStatus::Reclaimed);
                    assert!(!state.is_bound(buffer));
                }
                Request::Attach { surface, buffer } => {
                    assert_eq!(state.pool().get(buffer).unwrap().status, BufferStatus::InFlight);
                    assert!(state.windows().iter().any(|m| m.id == surface && m.buffer == Some(buffer)));
                }
                _ => {}
            }
        }
        for menu in state.windows() {
            if matches!(event, Event::Configure { .. } | Event::FrameDone { .. }) {
                assert!(!menu.configured || !menu.damaged, "step {step}");
            }
        }
    }
}
