use dxf_sheets::chars::chars_of;
use dxf_sheets::numbers::digit_of;

#[test]
fn a_string_is_taken_apart_into_its_characters() {
    assert_eq!(chars_of("a.Å"), vec!['a', '.', 'Å']);
    assert_eq!(chars_of(""), Vec::<char>::new());
}

#[test]
fn the_ten_digits_have_their_values() {
    assert_eq!(digit_of('0'), Some(0));
    assert_eq!(digit_of('7'), Some(7));
    assert_eq!(digit_of('9'), Some(9));
}

#[test]
fn other_characters_are_no_digits() {
    assert_eq!(digit_of('/'), None);
    assert_eq!(digit_of(':'), None);
    assert_eq!(digit_of('a'), None);
    assert_eq!(digit_of('٣'), None);
}
