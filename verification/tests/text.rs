use dloc::text::EofReplacor;

fn b(s: &str) -> Vec<u8> {
    s.as_bytes().to_vec()
}

#[test]
fn replace_eof() {
    assert_eq!(
        b("Hi\nHow are you?\rIm Good\r\nGood to know").replace_eol(),
        b("Hi<lf>How are you?<cr>Im Good<cf>Good to know"),
    );
    assert_eq!(
        b("Hi<\nHow are you?\r>Im Good<\r\nGood to know").replace_eol(),
        b("Hi<<lf>How are you?<cr>>Im Good<<cf>Good to know"),
    );
    assert_eq!(b("This<hf>Test").replace_eol(), b("This<hf>Test"));
}

#[test]
fn replace_eol_back() {
    assert_eq!(
        b("Hi<lf>How are you?<cr>Im Good<cf>Good to know").replace_eol_back(),
        b("Hi\nHow are you?\rIm Good\r\nGood to know"),
    );
    assert_eq!(
        b("Hi<<lf>How are you?<cr>>Im Good<<cf>Good to know").replace_eol_back(),
        b("Hi<\nHow are you?\r>Im Good<\r\nGood to know"),
    );
    assert_eq!(b("This<hf>Test").replace_eol_back(), b("This<hf>Test"));
}

#[test]
fn escape_then_unescape_is_identity() {
    for s in [
        "",
        "plain",
        "a\nb\rc\r\nd",
        "\r\n\r\n",
        "ends with\r",
        "<unrelated> <c <l <tags>",
    ] {
        assert_eq!(b(s).replace_eol().replace_eol_back(), b(s));
    }
}

#[test]
fn escaped_text_has_no_line_breaks() {
    let e = b("one\rtwo\nthree\r\nfour").replace_eol();
    assert!(!e.contains(&b'\n'));
    assert!(!e.contains(&b'\r'));
}
