use kymenu::buffer::Buffer;
use kymenu::output::Output;
use kymenu::wayland_globals::{WaylandGlobal, WaylandGlobals};

#[test]
fn buffer_size_is_four_bytes_per_pixel() {
    let o = Output::new(1920, 20);
    assert_eq!(o.get_buffer_size(), 1920 * 20 * 4);
    assert_eq!((o.width(), o.height()), (1920, 20));
}

#[test]
fn frames_alternate_between_halves() {
    let b = Buffer::new(&Output::new(10, 2));
    assert_eq!(b.get_buffer(0), (0, 80));
    assert_eq!(b.get_buffer(1), (80, 160));
    assert_eq!(b.get_buffer(2), (0, 80));
}

#[test]
fn resize_is_pending_only_for_a_new_size() {
    let mut b = Buffer::new(&Output::new(10, 2));
    b.set_pending_resize(Output::new(2, 10));
    assert!(!b.has_pending_resize());
    assert_eq!(b.apply_pending_resize(), None);
    b.set_pending_resize(Output::new(20, 2));
    assert!(b.has_pending_resize());
    assert_eq!(b.pending_resize().map(|o| o.width()), Some(20));
    assert_eq!(b.apply_pending_resize(), Some(20 * 2 * 4 * 4));
    assert!(!b.has_pending_resize());
    assert_eq!(b.get_buffer(1), (320, 640));
}

#[test]
fn globals_are_recorded_by_interface() {
    let mut g = WaylandGlobals::default();
    g.set("wl_shm", 3, 1);
    g.set("wl_seat", 4, 7);
    g.set("wl_output", 5, 4);
    g.set("wl_compositor", 1, 6);
    g.set("zwlr_layer_shell_v1", 2, 4);
    assert_eq!(g.shm.as_ref().map(|x| (x.name, x.version)), Some((3, 1)));
    assert_eq!(g.seat.as_ref().map(|x| (x.name, x.version)), Some((4, 7)));
    assert_eq!(g.compositor.as_ref().map(|x| (x.name, x.version)), Some((1, 6)));
    assert_eq!(g.layer_shell.as_ref().map(|x| (x.name, x.version)), Some((2, 4)));
    let w = WaylandGlobal::new(8, 9);
    assert_eq!((w.name, w.version), (8, 9));
}
