use pepper::buffer_position::BufferPosition;
use pepper::buffer_view::BufferViewHandle;
use pepper::viewport::{Viewport, ViewportCollection};

#[test]
fn split_and_focus() {
    let mut viewports = ViewportCollection::new();
    viewports.set_view_size(80, 24);
    assert_eq!(1, viewports.iter().len());
    assert_eq!(80, viewports.current_viewport().width);
    assert_eq!(22, viewports.current_viewport().height);

    viewports.current_viewport_mut().set_current_buffer_view_handle(BufferViewHandle(4));
    viewports.focus_next_viewport(|h| BufferViewHandle(h.0 + 10));
    assert_eq!(2, viewports.iter().len());
    let current = viewports.current_viewport();
    assert_eq!(40, current.x);
    assert_eq!(40, current.width);
    assert_eq!(Some(&BufferViewHandle(14)), current.current_buffer_view_handle());

    viewports.focus_next_viewport(|h| h);
    assert_eq!(Some(&BufferViewHandle(4)), viewports.current_viewport().current_buffer_view_handle());
    assert_eq!(40, viewports.current_viewport().width);
}

#[test]
fn current_view_swaps_to_the_front() {
    let mut viewport = Viewport::default();
    assert_eq!(None, viewport.current_buffer_view_handle());
    viewport.set_current_buffer_view_handle(BufferViewHandle(1));
    viewport.set_current_buffer_view_handle(BufferViewHandle(2));
    assert_eq!(vec![BufferViewHandle(2), BufferViewHandle(1)], viewport.buffer_view_handles);
    viewport.scroll = 5;
    viewport.set_current_buffer_view_handle(BufferViewHandle(1));
    assert_eq!(vec![BufferViewHandle(1), BufferViewHandle(2)], viewport.buffer_view_handles);
    assert_eq!(0, viewport.scroll);
}

#[test]
fn scroll_follows_the_cursor() {
    let mut viewport = Viewport::default();
    viewport.height = 10;
    viewport.scroll_to_cursor(BufferPosition::line_col(15, 0));
    assert_eq!(6, viewport.scroll);
    viewport.scroll_to_cursor(BufferPosition::line_col(8, 0));
    assert_eq!(6, viewport.scroll);
    viewport.scroll_to_cursor(BufferPosition::line_col(2, 0));
    assert_eq!(2, viewport.scroll);
}
