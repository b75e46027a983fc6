use ucs2::{str_num_ucs2_chars, str_to_ucs2, Error};

#[test]
fn test_str_num_chars() {
    // Some of the strings here are from https://www.kermitproject.org/utf8.html.

    // One-byte chars.
    assert_eq!(str_num_ucs2_chars("abc"), Ok(3));
    // Two-byte chars.
    assert_eq!(str_num_ucs2_chars("Τη γλώσσα μου έδωσαν ελληνική"), Ok(29));
    // Three-byte chars.
    assert_eq!(
        str_num_ucs2_chars("ვეპხის ტყაოსანი შოთა რუსთაველი"),
        Ok(30)
    );
    // Four-byte chars.
    assert_eq!(str_num_ucs2_chars("😁🔥"), Err(Error::MultiByte));
}

#[test]
fn test_ucs2_cstr() {
    // One more than the number of characters, for the null char.
    let num_chars = match str_num_ucs2_chars("abc") {
        Ok(num) => num + 1,
        Err(_) => panic!("input contains a character which cannot be represented in UCS-2"),
    };
    assert_eq!(num_chars, 4);

    let s: [u16; 4] = match str_to_ucs2("abc") {
        Ok(val) => val,
        Err(_) => unreachable!(),
    };
    assert_eq!(s, [97, 98, 99, 0]);
}

#[test]
fn num_chars_of_empty_text() {
    assert_eq!(str_num_ucs2_chars(""), Ok(0));
}

#[test]
fn num_chars_counts_characters_not_bytes() {
    // 1 + 2 + 3 + 3 bytes.
    assert_eq!("$¢ह한".len(), 9);
    assert_eq!(str_num_ucs2_chars("$¢ह한"), Ok(4));
}

#[test]
fn num_chars_rejects_supplementary_plane_anywhere() {
    assert_eq!(str_num_ucs2_chars("😎"), Err(Error::MultiByte));
    assert_eq!(str_num_ucs2_chars("abc😎"), Err(Error::MultiByte));
    assert_eq!(str_num_ucs2_chars("😎abc"), Err(Error::MultiByte));
    assert_eq!(str_num_ucs2_chars("a😎c"), Err(Error::MultiByte));
    // U+10000, the first code point above the Basic Multilingual Plane.
    assert_eq!(str_num_ucs2_chars("\u{10000}"), Err(Error::MultiByte));
    // U+FFFF, the last one inside.
    assert_eq!(str_num_ucs2_chars("\u{FFFF}"), Ok(1));
}

#[test]
fn cstr_of_empty_text_is_one_null() {
    let s: Result<[u16; 1], Error> = str_to_ucs2("");
    assert_eq!(s, Ok([0]));
}

#[test]
fn cstr_of_mixed_widths() {
    let s: Result<[u16; 5], Error> = str_to_ucs2("$¢ह한");
    assert_eq!(s, Ok([0x0024, 0x00A2, 0x0939, 0xD55C, 0]));
}

#[test]
fn cstr_rejects_supplementary_plane() {
    let s: Result<[u16; 2], Error> = str_to_ucs2("😎");
    assert_eq!(s, Err(Error::MultiByte));
    let s: Result<[u16; 4], Error> = str_to_ucs2("ab😎");
    assert_eq!(s, Err(Error::MultiByte));
}
