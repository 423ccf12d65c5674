use regbatch::registry::RegValue;
use regbatch::winstr::WinStr;
use regbatch::winstr::wide_eq;

#[test]
fn from_str_and_get_string_round_trip() {
    let w = WinStr::from_str("Drop for Symlink");
    assert_eq!(w.get_string(), "Drop for Symlink");
}

#[test]
fn from_str_appends_one_terminator() {
    let w = WinStr::from_str("AB");
    assert_eq!(w.len_with_terminator(), 3);
}

#[test]
fn from_str_of_empty_text() {
    let w = WinStr::from_str("");
    assert_eq!(w.len_with_terminator(), 1);
    assert_eq!(w.get_string(), "");
}

#[test]
fn get_string_strips_all_trailing_zero_units() {
    let w = WinStr::from_buffer(vec![0x41u16, 0x42u16, 0u16, 0u16, 0u16], 5);
    assert_eq!(w.get_string(), "AB");
}

#[test]
fn get_string_keeps_interior_zero_units() {
    let w = WinStr::from_slice(&[0x41u16, 0u16, 0x42u16]);
    assert_eq!(w.get_string(), "A\u{0}B");
}

#[test]
fn from_buffer_truncates_to_size() {
    let w = WinStr::from_buffer(vec![0x41u16, 0x42u16, 0x43u16], 2);
    assert_eq!(w.len_with_terminator(), 2);
    assert_eq!(w.get_string(), "AB");
}

#[test]
fn from_buffer_with_oversized_count_takes_all() {
    let w = WinStr::from_buffer(vec![0x41u16, 0x42u16], 9);
    assert_eq!(w.len_with_terminator(), 2);
    assert_eq!(w.get_string(), "AB");
}

#[test]
fn from_slice_copies_units() {
    let w = WinStr::from_slice(&[0x48u16, 0x69u16]);
    assert_eq!(w.len_with_terminator(), 2);
    assert_eq!(w.get_string(), "Hi");
}

#[test]
fn bytes_slice_is_little_endian_with_terminator() {
    let w = WinStr::from_str("A");
    assert_eq!(w.bytes_slice(), vec![0x41u8, 0x00u8, 0x00u8, 0x00u8]);
}

#[test]
fn bytes_slice_of_wide_unit() {
    // one unit 0x0142 becomes its low byte then its high byte
    let w = WinStr::from_slice(&[0x0142u16]);
    assert_eq!(w.bytes_slice(), vec![0x42u8, 0x01u8]);
}

#[test]
fn wide_eq_compares_units() {
    let a = WinStr::from_str("same");
    let b = WinStr::from_str("same");
    let c = WinStr::from_str("other");
    assert!(wide_eq(&a, &b));
    assert!(!wide_eq(&a, &c));
    assert!(!wide_eq(&a, &WinStr::from_slice(&[])));
}

#[test]
fn dup_copies_content() {
    let a = WinStr::from_str("copy me");
    let b = a.dup();
    assert!(wide_eq(&a, &b));
}

#[test]
fn text_value_data_carries_string_tag_and_wide_bytes() {
    let v = RegValue::of_str("A");
    let (tag, bytes) = v.get_data();
    assert_eq!(tag, 1);
    assert_eq!(bytes, vec![0x41u8, 0x00u8, 0x00u8, 0x00u8]);
}
