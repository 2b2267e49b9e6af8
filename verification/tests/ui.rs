use pepper::theme::Color;
use pepper::ui::none_ui::NoneUi;
use pepper::ui::{
    clear_line, clear_until_new_line, move_cursor_to, move_cursor_to_next_line, move_cursor_up,
    set_background_color, set_foreground_color, set_not_underlined, set_underlined,
};

#[test]
fn escape_codes() {
    let mut buf = Vec::new();
    clear_line(&mut buf);
    clear_until_new_line(&mut buf);
    move_cursor_to_next_line(&mut buf);
    set_underlined(&mut buf);
    set_not_underlined(&mut buf);
    assert_eq!(b"\x1b[2K\x1b[0K\x1b[1E\x1b[4m\x1b[24m".to_vec(), buf);
}

#[test]
fn formatted_escape_codes() {
    let mut buf = Vec::new();
    move_cursor_to(&mut buf, 12, 0);
    move_cursor_up(&mut buf, 305);
    set_background_color(&mut buf, Color(255, 0, 9));
    set_foreground_color(&mut buf, Color(10, 200, 100));
    assert_eq!(b"\x1b[12;0H\x1b[305A\x1b[48;2;255;0;9m\x1b[38;2;10;200;100m".to_vec(), buf);
}

#[test]
fn none_ui_shows_nothing() {
    let mut ui = NoneUi;
    assert!(ui.display(b"anything").is_ok());
}
