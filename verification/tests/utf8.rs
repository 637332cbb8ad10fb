use reindent::utf8::unescape_bytes;
use reindent::{unescape_utf8, unicode_to_utf8};

#[test]
fn unescape_unicode_test() {
    let out = unescape_utf8(r"Hello world\").unwrap();
    assert_eq!(r"Hello world\", out);

    let out = unescape_utf8(r"Hello \u0038\u0039").unwrap();
    assert_eq!(r"Hello 89", out);

    let out = unescape_utf8(r"Hello \u0l38").unwrap();
    assert_eq!(r"Hello \u0l38", out);

    let out = unescape_utf8(r"привет").unwrap();
    assert_eq!(r"привет", out);

    let out = unescape_utf8(r"\u041c\u0430\u0440\u0438\u044f").unwrap();
    assert_eq!(r"Мария", out);
}

#[test]
fn unicode_to_utf8_test() {
    assert_eq!(vec![0x24], unicode_to_utf8(0x24));
    assert_eq!(vec![0xc2, 0xa2], unicode_to_utf8(0xa2));
    assert_eq!(vec![0xc2, 0xa2], unicode_to_utf8(0xa2));
    assert_eq!(vec![0xe2, 0x82, 0xac], unicode_to_utf8(0x20ac));
}

#[test]
fn encoder_agrees_with_std_up_to_ffff() {
    let mut scalar: u32 = 0;
    while scalar <= 0xFFFF {
        if let Some(c) = char::from_u32(scalar) {
            let mut buf = [0u8; 4];
            let expected = c.encode_utf8(&mut buf).as_bytes().to_vec();
            assert_eq!(expected, unicode_to_utf8(scalar));
        }
        scalar += 1;
    }
}

#[test]
fn encoder_at_the_edges_of_each_length() {
    assert_eq!(vec![0x00], unicode_to_utf8(0x00));
    assert_eq!(vec![0x3f], unicode_to_utf8(0x3f));
    assert_eq!(vec![0x40], unicode_to_utf8(0x40));
    assert_eq!(vec![0x41], unicode_to_utf8(0x41));
    assert_eq!(vec![0x7f], unicode_to_utf8(0x7f));
    assert_eq!(vec![0xc2, 0x80], unicode_to_utf8(0x80));
    assert_eq!(vec![0xdf, 0xbf], unicode_to_utf8(0x7ff));
    assert_eq!(vec![0xe0, 0xa0, 0x80], unicode_to_utf8(0x800));
    assert_eq!(vec![0xe0, 0xbf, 0xbf], unicode_to_utf8(0xfff));
    assert_eq!(vec![0xe1, 0x80, 0x80], unicode_to_utf8(0x1000));
    assert_eq!(vec![0xef, 0xbf, 0xbf], unicode_to_utf8(0xffff));
}

#[test]
fn encoder_writes_surrogates_in_three_bytes() {
    assert_eq!(vec![0xed, 0xa0, 0x80], unicode_to_utf8(0xd800));
    assert_eq!(vec![0xed, 0xbf, 0xbf], unicode_to_utf8(0xdfff));
}

#[test]
fn encoder_beyond_its_range() {
    assert_eq!(vec![0x90, 0x80, 0x80], unicode_to_utf8(0x1_0000));
    assert_eq!(vec![0x90, 0x8d, 0x88], unicode_to_utf8(0x1_0348));
    assert_eq!(vec![0xbf, 0xbf, 0xbf], unicode_to_utf8(0x3_ffff));
    assert_eq!(vec![0xf1, 0x80, 0x80, 0x80], unicode_to_utf8(0x4_0000));
    assert_eq!(vec![0xf4, 0x8f, 0xbf, 0xbf], unicode_to_utf8(0x10_ffff));
    assert_eq!(vec![0xf7, 0xbf, 0xbf, 0xbf], unicode_to_utf8(0x1f_ffff));
    assert_eq!(vec![0x88, 0x80, 0x80, 0x80], unicode_to_utf8(0x20_0000));
    assert_eq!(vec![0xbf, 0xbf, 0xbf, 0xbf], unicode_to_utf8(0xff_ffff));
    assert_eq!(vec![0xf9, 0x80, 0x80, 0x80, 0x80], unicode_to_utf8(0x100_0000));
    assert_eq!(vec![0xfb, 0xbf, 0xbf, 0xbf, 0xbf], unicode_to_utf8(0x3ff_ffff));
    assert_eq!(vec![0x84, 0x80, 0x80, 0x80, 0x80], unicode_to_utf8(0x400_0000));
    assert_eq!(vec![0xbf, 0xbf, 0xbf, 0xbf, 0xbf], unicode_to_utf8(0x3fff_ffff));
    assert_eq!(vec![0xfd, 0x80, 0x80, 0x80, 0x80, 0x80], unicode_to_utf8(0x4000_0000));
    assert_eq!(vec![0xfd, 0xbf, 0xbf, 0xbf, 0xbf, 0xbf], unicode_to_utf8(0x7fff_ffff));
    assert_eq!(vec![0x82, 0x80, 0x80, 0x80, 0x80, 0x80], unicode_to_utf8(0x8000_0000));
    assert_eq!(vec![0x83, 0xbf, 0xbf, 0xbf, 0xbf, 0xbf], unicode_to_utf8(0xffff_ffff));
}

#[test]
fn unescape_letters() {
    assert_eq!("AB", unescape_utf8("\\u0041\\u0042").unwrap());
    assert_eq!("\"A\"", unescape_utf8("\"\\u0041\"").unwrap());
}

#[test]
fn unescape_takes_digits_of_either_case() {
    assert_eq!("€€", unescape_utf8("\\u20ac\\u20AC").unwrap());
    assert_eq!("\u{abcd}", unescape_utf8("\\uAbCd").unwrap());
}

#[test]
fn unescape_leaves_what_is_no_escape() {
    assert_eq!("\\u12", unescape_utf8("\\u12").unwrap());
    assert_eq!("\\u123", unescape_utf8("\\u123").unwrap());
    assert_eq!("\\U0041", unescape_utf8("\\U0041").unwrap());
    assert_eq!("\\u004g", unescape_utf8("\\u004g").unwrap());
    assert_eq!("\\u 041", unescape_utf8("\\u 041").unwrap());
    assert_eq!("\\u+041", unescape_utf8("\\u+041").unwrap());
    assert_eq!("u0041", unescape_utf8("u0041").unwrap());
    assert_eq!("", unescape_utf8("").unwrap());
}

#[test]
fn unescape_at_the_very_end() {
    assert_eq!("abcA", unescape_utf8("abc\\u0041").unwrap());
    assert_eq!("A\\u004", unescape_utf8("\\u0041\\u004").unwrap());
}

#[test]
fn unescape_reads_from_left_to_right() {
    assert_eq!("\\A", unescape_utf8("\\\\u0041").unwrap());
    assert_eq!("\\u0041", unescape_utf8("\\u005cu0041").unwrap());
}

#[test]
fn unescape_of_each_escape_in_the_plane() {
    let mut scalar: u32 = 0;
    while scalar <= 0xFFFF {
        let text = format!("\\u{:04x}", scalar);
        match char::from_u32(scalar) {
            Some(c) => assert_eq!(c.to_string(), unescape_utf8(&text).unwrap()),
            None => assert!(unescape_utf8(&text).is_err()),
        }
        scalar += 1;
    }
}

#[test]
fn unescape_fails_on_a_surrogate() {
    let res = unescape_utf8("a\\ud83d\\ude00b");
    assert!(res.is_err());
    assert!(!res.unwrap_err().to_string().is_empty());
}

#[test]
fn unescape_bytes_passes_other_bytes_through() {
    assert_eq!(vec![0xff, 0x41, 0xfe], unescape_bytes(&[0xff, 0x5c, 0x75, 0x30, 0x30, 0x34, 0x31, 0xfe]));
    assert_eq!(vec![0xed, 0xa0, 0x80], unescape_bytes(b"\\ud800"));
}
