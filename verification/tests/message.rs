use soulseek_rs::message::Message;
use soulseek_rs::message::peer::upload_denied::plain;
use soulseek_rs::message::text::{same_text, trim_end_char, trim_text};

#[test]
fn what_is_written_is_read_back() {
    let mut m = Message::new();
    m.write_int8(7);
    m.write_int32(0xDEAD_BEEF);
    m.write_int64(0x0102_0304_0506_0708);
    m.write_bool(true);
    m.write_bool(false);
    m.write_string("héllo");
    m.write_raw_bytes(vec![9, 9]);
    assert_eq!(m.get_size(), 1 + 4 + 8 + 1 + 1 + 4 + 6 + 2);
    let mut r = Message::new_with_data(m.get_data());
    assert_eq!(r.read_int8(), 7);
    assert_eq!(r.read_int32(), 0xDEAD_BEEF);
    assert_eq!(r.read_int64(), 0x0102_0304_0506_0708);
    assert!(r.read_bool());
    assert!(!r.read_bool());
    assert_eq!(r.read_string(), "héllo");
    assert_eq!(r.get_pointer(), 25);
    assert_eq!(r.get_slice(25, 27), vec![9, 9]);
}

#[test]
fn numbers_go_out_little_endian() {
    let mut m = Message::new();
    m.write_int32(0x0403_0201);
    assert_eq!(m.get_data(), vec![1, 2, 3, 4]);
    assert_eq!(m.get_buffer(), vec![4, 0, 0, 0, 1, 2, 3, 4]);
}

#[test]
fn a_read_past_the_end_gives_nothing_and_stays_at_the_end() {
    let mut m = Message::new_with_data(vec![1, 2]);
    assert_eq!(m.read_int32(), 0);
    assert_eq!(m.get_pointer(), 2);
    assert_eq!(m.read_int8(), 0);
    assert!(!m.read_bool());
    assert_eq!(m.read_string(), "");
    assert_eq!(m.read_int64(), 0);
    let mut s = Message::new_with_data(vec![10, 0, 0, 0, 97]);
    assert_eq!(s.read_string(), "");
    assert_eq!(s.get_pointer(), 5);
}

#[test]
fn bytes_that_are_not_utf8_are_read_leniently() {
    let mut m = Message::new_with_data(vec![3, 0, 0, 0, 104, 0xFF, 105, 2, 0, 0, 0, 104, 105]);
    assert_eq!(m.read_string(), "h\u{FFFD}i");
    assert_eq!(m.read_string(), "hi");
}

#[test]
fn texts_compare_and_trim_exactly() {
    assert!(same_text("abc", "abc"));
    assert!(!same_text("abc", "abd"));
    assert!(!same_text("abc", "ab"));
    assert_eq!(plain("\t x y \n"), "The user declined: x y");
    assert_eq!(plain("\u{3000}x\u{A0}"), "The user declined: x");
    assert_eq!(plain("Banned..."), "The user does not share with you");
    assert_eq!(plain(" .Banned. "), "The user declined: .Banned.");
}

#[test]
fn trimming_drops_only_what_is_at_the_ends() {
    assert_eq!(trim_text("\u{3000} x\u{2003}y\t\n"), "x\u{2003}y");
    assert_eq!(trim_text(" \u{85}\u{200A} "), "");
    assert_eq!(trim_text(""), "");
    assert_eq!(trim_text("é x é"), "é x é");
    assert_eq!(trim_end_char("ok...", '.'), "ok");
    assert_eq!(trim_end_char(".a.b..", '.'), ".a.b");
    assert_eq!(trim_end_char("...", '.'), "");
    assert_eq!(trim_end_char("ok. ", '.'), "ok. ");
}
