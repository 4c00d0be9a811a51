use eon_stream_engine::json::write_string;

fn literal(value: &str) -> String {
    let mut out = String::from(">");
    write_string(&mut out, value);
    out
}

#[test]
fn plain_text_is_quoted() {
    assert_eq!(literal("hello"), ">\"hello\"");
    assert_eq!(literal(""), ">\"\"");
}

#[test]
fn special_characters_are_escaped() {
    assert_eq!(literal("\""), r#">"\"""#);
    assert_eq!(literal("\\"), r#">"\\""#);
    assert_eq!(literal("\n\r\t"), r#">"\n\r\t""#);
    assert_eq!(literal("\u{0}\u{8}\u{b}\u{c}\u{1b}"), r#">"\u0000\u0008\u000b\u000c\u001b""#);
    assert_eq!(literal("/ü\u{7f}\u{2028}"), ">\"/ü\u{7f}\u{2028}\"");
}
