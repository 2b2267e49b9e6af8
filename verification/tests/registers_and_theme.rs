use pepper::register::{RegisterCollection, RegisterKey};
use pepper::theme::{gruvbox_theme, Color};
use pepper::word_database::WordIter;

#[test]
fn registers_hold_what_was_set() {
    let mut registers = RegisterCollection::new();
    let a = RegisterKey::from_char('a').unwrap();
    let z = RegisterKey::from_str("z").unwrap();
    assert!(RegisterKey::from_char('A').is_none());
    assert!(RegisterKey::from_str("ab").is_none());
    registers.set(a, "hello");
    assert_eq!("hello", registers.get(a));
    assert_eq!("", registers.get(z));
    registers.copy(a, z);
    assert_eq!("hello", registers.get(z));
    registers.get_mut(z).push('!');
    assert_eq!("hello!", registers.get(z));
    assert_eq!(b'a', a.as_u8());
}

#[test]
fn colors_pack_into_u32() {
    assert_eq!(0x1d2021, Color(0x1d, 0x20, 0x21).into_u32());
    let c = Color::from_u32(0xff123456);
    assert_eq!((0x12, 0x34, 0x56), (c.0, c.1, c.2));
    let mut theme = gruvbox_theme();
    assert_eq!(0x1d2021, theme.background.into_u32());
    assert!(theme.color_from_name("background").is_some());
    assert!(theme.color_from_name("nothing").is_none());
}

#[test]
fn words_of_other_scripts() {
    let mut iter = WordIter::new("héllo wörld δ2");
    assert_eq!(Some("héllo"), iter.next());
    assert_eq!(Some("wörld"), iter.next());
    assert_eq!(Some("δ2"), iter.next());
    assert_eq!(None, iter.next());
}
