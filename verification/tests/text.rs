use sludge::graphics::text::{get_char_list, CharListError, CharacterListType};

#[test]
fn char_list_ascii_subset_is_printable_ascii() {
    let chars = get_char_list(CharacterListType::AsciiSubset).unwrap();
    assert_eq!(chars.len(), 0x7F - 0x20);
    assert_eq!(chars[0], ' ');
    assert_eq!(*chars.last().unwrap(), '~');
}

#[test]
fn char_list_sizes_of_each_set() {
    assert_eq!(get_char_list(CharacterListType::Ascii).unwrap().len(), 0x7F);
    assert_eq!(get_char_list(CharacterListType::ExtendedAscii).unwrap().len(), 0xFF);
    assert_eq!(
        get_char_list(CharacterListType::Cyrillic).unwrap().len(),
        (0xFF - 0x20) + (0x52F - 0x400) + (0x2DFF - 0x2DE0) + (0xA69F - 0xA640)
    );
    assert_eq!(
        get_char_list(CharacterListType::Thai).unwrap().len(),
        (0xFF - 0x20) + (0x205E - 0x2010) + (0xE7F - 0xE00)
    );
    let viet = get_char_list(CharacterListType::Vietnamese).unwrap();
    assert_eq!(viet.len(), (0xFF - 0x20) + 6 + (0x1EF9 - 0x1EA0));
    assert_eq!(viet[0xFF - 0x20], '\u{102}');
}

#[test]
fn char_list_unsupported_sets_are_refused() {
    assert_eq!(
        get_char_list(CharacterListType::Chinese),
        Err(CharListError::NotYetSupported(CharacterListType::Chinese))
    );
    assert_eq!(
        get_char_list(CharacterListType::Japanese),
        Err(CharListError::NotYetSupported(CharacterListType::Japanese))
    );
}
