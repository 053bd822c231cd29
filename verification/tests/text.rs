use bare_rt::text::{decode_arg, strlen, DecodeFault};

#[test]
fn strlen_counts_bytes_before_first_nul() {
    assert_eq!(strlen(b"hello\0"), Some(5));
    assert_eq!(strlen(b"a\0"), Some(1));
}

#[test]
fn strlen_of_empty_text_is_zero() {
    assert_eq!(strlen(b"\0"), Some(0));
    assert_eq!(strlen(b"\0\0\0"), Some(0));
}

#[test]
fn strlen_stops_at_first_of_several_nuls() {
    assert_eq!(strlen(b"ab\0cd\0"), Some(2));
    assert_eq!(strlen(b"ab\0\xff\xfe"), Some(2));
}

#[test]
fn strlen_without_nul_is_none() {
    assert_eq!(strlen(b"abc"), None);
    assert_eq!(strlen(b""), None);
}

#[test]
fn strlen_counts_bytes_not_characters() {
    let mut run = "h\u{e9}llo \u{2713}".as_bytes().to_vec();
    run.push(0);
    assert_eq!(strlen(&run), Some(10));
}

#[test]
fn decode_arg_reads_ascii_text() {
    assert_eq!(decode_arg(b"alpha\0"), Ok(String::from("alpha")));
    assert_eq!(decode_arg(b"\0"), Ok(String::new()));
}

#[test]
fn decode_arg_reads_text_of_every_width() {
    let text = "a\u{e9}\u{2713}\u{1f600}z";
    let mut run = text.as_bytes().to_vec();
    run.push(0);
    assert_eq!(decode_arg(&run), Ok(String::from(text)));
}

#[test]
fn decode_arg_round_trips_the_bytes_before_the_nul() {
    let texts = ["", "x", "--flag=value", "gr\u{fc}\u{df}e", "\u{65e5}\u{672c}\u{8a9e}", "\u{10ffff}"];
    for text in texts {
        let mut run = text.as_bytes().to_vec();
        run.push(0);
        run.extend_from_slice(b"what follows");
        let decoded = decode_arg(&run).unwrap();
        assert_eq!(decoded.as_bytes(), &run[..text.len()]);
        assert_eq!(decoded, text);
    }
}

#[test]
fn decode_arg_ignores_what_follows_the_nul() {
    assert_eq!(decode_arg(b"ab\0\xff\xff"), Ok(String::from("ab")));
    assert_eq!(decode_arg(b"ab\0cd\0"), Ok(String::from("ab")));
}

#[test]
fn decode_arg_gives_a_string_of_its_own() {
    let mut run = b"beta\0".to_vec();
    let decoded = decode_arg(&run).unwrap();
    run[0] = b'z';
    assert_eq!(decoded, "beta");
}

#[test]
fn decode_arg_rejects_a_stray_byte() {
    assert_eq!(decode_arg(b"\xff\0"), Err(DecodeFault::InvalidText));
    assert_eq!(decode_arg(b"ok\x80\0"), Err(DecodeFault::InvalidText));
}

#[test]
fn decode_arg_rejects_an_overlong_encoding() {
    assert_eq!(decode_arg(b"\xc0\xaf\0"), Err(DecodeFault::InvalidText));
    assert_eq!(decode_arg(b"\xe0\x80\xaf\0"), Err(DecodeFault::InvalidText));
}

#[test]
fn decode_arg_rejects_a_surrogate() {
    assert_eq!(decode_arg(b"\xed\xa0\x80\0"), Err(DecodeFault::InvalidText));
}

#[test]
fn decode_arg_rejects_a_value_past_the_last_scalar() {
    assert_eq!(decode_arg(b"\xf4\x90\x80\x80\0"), Err(DecodeFault::InvalidText));
}

#[test]
fn decode_arg_rejects_a_character_cut_short_by_the_nul() {
    assert_eq!(decode_arg(b"\xe2\x82\0"), Err(DecodeFault::InvalidText));
    assert_eq!(decode_arg(b"abc\xf0\x9f\x98\0"), Err(DecodeFault::InvalidText));
}

#[test]
fn decode_arg_reports_a_missing_nul() {
    assert_eq!(decode_arg(b"abc"), Err(DecodeFault::Unterminated));
    assert_eq!(decode_arg(b""), Err(DecodeFault::Unterminated));
}

#[test]
fn decode_arg_reports_a_missing_nul_before_bad_text() {
    assert_eq!(decode_arg(b"\xff\xff"), Err(DecodeFault::Unterminated));
}
