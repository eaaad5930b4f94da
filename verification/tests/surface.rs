use menu_surfaces::surface::resolve_extent;
use menu_surfaces::{BufferId, Configure, Extent, Menu, SurfaceId, DEFAULT_EXTENT};

#[test]
fn default_extent_is_256() {
    assert_eq!(DEFAULT_EXTENT, 256);
}

#[test]
fn extent_of_zero_pixels_does_not_exist() {
    assert_eq!(Extent::new(0), None);
}

#[test]
fn extent_keeps_its_pixels() {
    assert_eq!(Extent::new(1).unwrap().get(), 1);
    assert_eq!(Extent::new(300).unwrap().get(), 300);
    assert_eq!(Extent::new(u32::MAX).unwrap().get(), u32::MAX);
}

#[test]
fn absent_extent_resolves_to_default() {
    assert_eq!(resolve_extent(None), 256);
    assert_eq!(resolve_extent(Extent::new(0)), 256);
    assert_eq!(resolve_extent(Extent::new(640)), 640);
    assert_eq!(resolve_extent(Extent::new(1)), 1);
}

#[test]
fn new_menu_is_unconfigured_default_sized_and_damaged() {
    let menu = Menu::new(SurfaceId(5));
    assert_eq!(
        menu,
        Menu {
            id: SurfaceId(5),
            width: 256,
            height: 256,
            configured: false,
            damaged: true,
            buffer: None,
        }
    );
    assert!(!menu.needs_draw());
}

#[test]
fn needs_draw_only_when_configured_and_damaged() {
    let mut menu = Menu::new(SurfaceId(5));
    for (configured, damaged) in [(false, false), (false, true), (true, false), (true, true)] {
        menu.configured = configured;
        menu.damaged = damaged;
        assert_eq!(menu.needs_draw(), configured && damaged);
    }
}

#[test]
fn configure_takes_each_dimension_or_the_default() {
    let cases = [
        (None, None, 256, 256),
        (Extent::new(300), None, 300, 256),
        (None, Extent::new(40), 256, 40),
        (Extent::new(1), Extent::new(u32::MAX), 1, u32::MAX),
    ];
    for (width, height, expected_width, expected_height) in cases {
        let mut menu = Menu::new(SurfaceId(1));
        menu.configure(Configure { width, height });
        assert_eq!((menu.width, menu.height), (expected_width, expected_height));
        assert!(menu.width > 0 && menu.height > 0);
        assert!(menu.configured);
        assert!(menu.damaged);
        assert_eq!(menu.id, SurfaceId(1));
    }
}

#[test]
fn configure_goes_back_to_default_when_size_is_withdrawn() {
    let mut menu = Menu::new(SurfaceId(1));
    menu.configure(Configure { width: Extent::new(300), height: Extent::new(200) });
    menu.configure(Configure { width: None, height: None });
    assert_eq!((menu.width, menu.height), (256, 256));
}

#[test]
fn configure_unbinds_and_hands_back_the_buffer() {
    let mut menu = Menu {
        id: SurfaceId(1),
        width: 10,
        height: 20,
        configured: true,
        damaged: false,
        buffer: Some(BufferId(4)),
    };
    let unbound = menu.configure(Configure { width: Extent::new(10), height: Extent::new(20) });
    assert_eq!(unbound, Some(BufferId(4)));
    assert_eq!(menu.buffer, None);
    assert!(menu.damaged);
    assert_eq!((menu.width, menu.height), (10, 20));
}

#[test]
fn damage_sets_only_the_flag() {
    let mut menu = Menu {
        id: SurfaceId(1),
        width: 10,
        height: 20,
        configured: true,
        damaged: false,
        buffer: Some(BufferId(4)),
    };
    menu.damage();
    assert_eq!(
        menu,
        Menu {
            id: SurfaceId(1),
            width: 10,
            height: 20,
            configured: true,
            damaged: true,
            buffer: Some(BufferId(4)),
        }
    );
    menu.damage();
    assert!(menu.damaged);
}
