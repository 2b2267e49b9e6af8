use pepper::buffer_position::{BufferPosition, BufferRange};
use pepper::undo::{Edit, EditKind, Text, Undo};

#[test]
fn text_keeps_single_chars_inline() {
    assert!(matches!(Text::from_str(""), Text::Char(_, 0)));
    assert_eq!("", Text::from_str("").as_str());
    assert!(matches!(Text::from_str("é"), Text::Char(_, 2)));
    assert_eq!("é", Text::from_str("é").as_str());
    assert!(matches!(Text::from_str("ab"), Text::String(_)));
    assert_eq!("ab", Text::from_str("ab").as_str());
    assert_eq!("😀", Text::from_char('😀').as_str());
}

#[test]
fn edit_range_ends_where_the_text_ends() {
    let edit = Edit::new(EditKind::Insert, BufferPosition::line_col(2, 3), Text::from_str("ab"));
    assert_eq!(BufferPosition::line_col(2, 3), edit.range.from);
    assert_eq!(BufferPosition::line_col(2, 5), edit.range.to);

    let edit = Edit::new(EditKind::Delete, BufferPosition::line_col(2, 3), Text::from_str("ab\ncdé"));
    assert_eq!(BufferPosition::line_col(3, 4), edit.range.to);

    let range = BufferRange::from_str_position(BufferPosition::line_col(0, 0), "x\n");
    assert_eq!(BufferPosition::line_col(1, 0), range.to);
}

#[test]
fn undo_gives_the_current_group() {
    let mut undo = Undo::new();
    undo.push_edit(Edit::new(EditKind::Insert, BufferPosition::line_col(0, 0), Text::from_str("a")));
    undo.push_edit(Edit::new(EditKind::Insert, BufferPosition::line_col(0, 1), Text::from_str("b")));
    // the edits are committed as a group, and the new current group is empty
    assert_eq!(0, undo.undo().len());
    assert_eq!(0, undo.redo().len());
    undo.push_edit(Edit::new(EditKind::Delete, BufferPosition::line_col(0, 0), Text::from_str("c")));
    let redone: Vec<&str> = undo.redo().iter().map(|e| e.text.as_str()).collect();
    assert_eq!(0, redone.len());
}
