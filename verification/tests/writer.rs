use properties::{LineEnding, Properties, WriteOption};

#[test]
fn writer_normal() {
    let cases = vec![
        ("a0", "b", "a0=b\n"),
        (" a 1 ", " b c ", "\\ a\\ 1\\ =\\ b c \n"),
        ("a2", "\\b", "a2=\\\\b\n"),
        ("a3", "\t\n\r\x0c=:#!b", "a3=\\t\\n\\r\\f\\=\\:\\#\\!b\n"),
        ("a4", "你好©🌐", "a4=你好©🌐\n"),
    ];
    for &(key, val, expected) in &cases {
        let mut buff = Vec::new();
        let mut prop = Properties::new();
        prop.set(key, val);
        if let Err(e) = prop.store(&mut buff, &WriteOption::default()) {
            panic!("store properties failed, {}", e.message());
        }
        let actual = String::from_utf8(buff).unwrap();
        if actual != expected {
            panic!("unexpected result, got {} expect {}", actual, expected);
        }
    }
}

#[test]
fn escape_unicode() {
    let cases = vec![
        ("a0", "你好©🌐", "a0=\\u4F60\\u597D\\u00A9\\uD83C\\uDF10\r\n"),
        ("a1", "\x01Hello", "a1=\\u0001Hello\r\n"),
    ];
    let mut opt = WriteOption::default();
    opt.escape_unicode(true);
    opt.line_ending(LineEnding::CrLf);

    for &(key, val, expected) in &cases {
        let mut buff = Vec::new();
        let mut prop = Properties::new();
        prop.set(key, val);
        if let Err(e) = prop.store(&mut buff, &opt) {
            panic!("store properties failed, {}", e.message());
        }
        let actual = String::from_utf8(buff).unwrap();
        if actual != expected {
            panic!("unexpected result, got {} expect {}", actual, expected);
        }
    }
}

#[test]
fn comments() {
    let cases = vec![(
        true,
        "Hello\r\n你好©🌐\nWorld",
        "a0",
        "b",
        "#Hello\r#\\u4F60\\u597D\\u00A9\\uD83C\\uDF10\r#World\ra0=b\r",
    )];
    let mut opt = WriteOption::default();
    opt.line_ending(LineEnding::Cr);

    for &(escape, comment, key, val, expected) in &cases {
        let mut buff = Vec::new();
        let mut prop = Properties::new();
        opt.escape_unicode(escape);
        opt.comments(comment.to_string());
        prop.set(key, val);
        if let Err(e) = prop.store(&mut buff, &opt) {
            panic!("store properties failed, {}", e.message());
        }
        let actual = String::from_utf8(buff).unwrap();
        if actual != expected {
            panic!("unexpected result, got {} expect {}", actual, expected);
        }
    }
}
