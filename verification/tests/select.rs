use pepper::select::{SelectContext, SelectEntry, SelectEntryCollection, SelectSource};

#[test]
fn filter_keeps_matching_names_best_first() {
    let ctx = SelectContext {
        sources: vec![
            vec![SelectEntry::from_str("open"), SelectEntry::from_str("close")],
            vec![SelectEntry { name: "xopen", description: "another" }],
        ],
    };
    let mut select = SelectEntryCollection::new();
    select.filter(&ctx, "open");
    let names: Vec<&str> = select.entries(&ctx).iter().map(|e| e.name).collect();
    assert_eq!(2, names.len());
    assert!(names.contains(&"open"));
    assert!(names.contains(&"xopen"));
    assert!(!names.contains(&"close"));

    select.filter(&ctx, "");
    assert_eq!(3, select.entries(&ctx).len());
    assert_eq!("open", select.entry(&ctx, 0).name);
}

#[test]
fn cursor_moves_and_wraps() {
    let ctx = SelectContext {
        sources: vec![vec![SelectEntry::from_str("a"), SelectEntry::from_str("b"), SelectEntry::from_str("c")]],
    };
    let mut select = SelectEntryCollection::new();
    select.filter(&ctx, "");
    assert_eq!(0, select.cursor());
    select.move_cursor(1);
    assert_eq!(1, select.cursor());
    select.move_cursor(5);
    assert_eq!(2, select.cursor());
    select.move_cursor(1);
    assert_eq!(0, select.cursor());
    select.move_cursor(-1);
    assert_eq!(2, select.cursor());
    assert_eq!(2, select.height(2));
    select.update_scroll(2);
    assert_eq!(1, select.scroll());
    select.clear();
    assert_eq!(0, select.cursor());
    assert_eq!(0, select.scroll());
}

#[test]
fn sources_offer_entries() {
    let entry = SelectEntry::from_str("one");
    assert_eq!(1, SelectSource::len(&entry));
    assert_eq!("one", entry.entry(0).name);
    assert_eq!("", entry.description);
    let entries = [SelectEntry::from_str("x"), SelectEntry::from_str("y")];
    let slice: &[SelectEntry] = &entries;
    assert_eq!(2, SelectSource::len(&slice));
    assert_eq!("y", slice.entry(1).name);
}
