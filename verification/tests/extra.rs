use properties::decode::{decode_unicode, load_convert};
use properties::line::LineReader;
use properties::writer::{hex, save_comment, save_convert};
use properties::{LineEnding, Properties, PropertiesError, WriteOption};

#[test]
fn store_then_load_round_trip_plain() {
    // Printable ASCII and standard escapes survive encode-then-decode.
    let entries = vec![
        ("plain", "value"),
        (" a 1 ", " b c "),
        ("tabs\tand\nlines", "\rmore\x0c"),
        ("sep=colon:hash#bang!", "=:#!"),
        ("back\\slash", "\\"),
    ];
    let mut prop = Properties::new();
    for &(k, v) in &entries {
        prop.set(k, v);
    }
    let mut buff = Vec::new();
    prop.store(&mut buff, &WriteOption::default()).unwrap();
    let mut reloaded = Properties::new();
    reloaded.load(&buff).unwrap();
    assert_eq!(reloaded.len(), entries.len());
    for &(k, v) in &entries {
        assert_eq!(reloaded.get(k), Some(v.to_string()));
    }
}

#[test]
fn store_then_load_round_trip_escape_unicode() {
    // With escape_unicode, every code point — surrogate pairs included —
    // survives encode-then-decode.
    let entries = vec![
        ("ascii", "plain"),
        ("greek", "αβγ"),
        ("han 好", "你好"),
        ("emoji", "🌐🚀"),
        ("control", "\x01\x02"),
        ("mixed🌐", "a你b🌐c"),
    ];
    for escape in [false, true] {
        let mut opt = WriteOption::default();
        opt.escape_unicode(escape);
        let mut prop = Properties::new();
        for &(k, v) in &entries {
            prop.set(k, v);
        }
        let mut buff = Vec::new();
        prop.store(&mut buff, &opt).unwrap();
        let mut reloaded = Properties::new();
        reloaded.load(&buff).unwrap();
        assert_eq!(reloaded.len(), entries.len());
        for &(k, v) in &entries {
            assert_eq!(reloaded.get(k), Some(v.to_string()), "escape={}", escape);
        }
    }
}

#[test]
fn store_then_load_round_trip_with_comments_and_endings() {
    // The comment block is skipped on reload, under every line ending.
    let entries = vec![("key one", "value one"), ("key#two", "value\ntwo")];
    for ending in [LineEnding::Lf, LineEnding::Cr, LineEnding::CrLf] {
        let mut opt = WriteOption::default();
        opt.line_ending(ending);
        opt.comments("first line\r\nsecond\n#third\nkey one=shadow".to_string());
        let mut prop = Properties::new();
        for &(k, v) in &entries {
            prop.set(k, v);
        }
        let mut buff = Vec::new();
        prop.store(&mut buff, &opt).unwrap();
        let mut reloaded = Properties::new();
        reloaded.load(&buff).unwrap();
        assert_eq!(reloaded.len(), entries.len());
        for &(k, v) in &entries {
            assert_eq!(reloaded.get(k), Some(v.to_string()));
        }
    }
}

#[test]
fn encoder_literal_cases() {
    // Keys escape every space; values only a leading one.
    assert_eq!(save_convert(" a 1 ", true, false), b"\\ a\\ 1\\ ".to_vec());
    assert_eq!(save_convert(" b c ", false, false), b"\\ b c ".to_vec());
}

#[test]
fn encoder_escape_unicode_uppercase_surrogates() {
    // Uppercase hex, surrogate pair split, high surrogate first.
    assert_eq!(
        save_convert("你好🌐", false, true),
        b"\\u4F60\\u597D\\uD83C\\uDF10".to_vec()
    );
}

#[test]
fn comment_block_hash_reuse() {
    // A '#' already present after a line break is not doubled, and CRLF in
    // the source collapses to one configured ending.
    let out = save_comment("x\r\n#y\nz", false, LineEnding::Lf);
    assert_eq!(out, b"#x\n#y\n#z\n".to_vec());
}

#[test]
fn key_without_separator_has_empty_value() {
    let mut prop = Properties::new();
    prop.load(b"a7\nb8   \n").unwrap();
    assert_eq!(prop.len(), 2);
    assert_eq!(prop.get("a7"), Some(String::new()));
    assert_eq!(prop.get("b8"), Some(String::new()));
}

#[test]
fn blank_and_comment_only_input_is_empty() {
    let mut prop = Properties::new();
    prop.load(b" \n\t\n!note\n#note\n").unwrap();
    assert_eq!(prop.len(), 0);
}

#[test]
fn invalid_utf8_value_is_rejected() {
    let mut prop = Properties::new();
    let mut data = b"key=".to_vec();
    data.push(0xFF);
    match prop.load(&data) {
        Ok(_) => panic!("load should fail on invalid utf8"),
        Err(e) => {
            assert_eq!(e, PropertiesError::InvalidTextEncoding);
            assert_eq!(e.message(), "invalid utf8 encoding".to_string());
        }
    }
}

#[test]
fn entries_committed_before_error_remain() {
    let mut prop = Properties::new();
    let r = prop.load(b"good=1\nbad=\\u4xyz\n");
    assert_eq!(r, Err(PropertiesError::InvalidHexDigit));
    assert_eq!(prop.get("good"), Some("1".to_string()));
    assert_eq!(prop.get("bad"), None);
}

#[test]
fn set_replaces_and_last_load_wins() {
    let mut prop = Properties::new();
    assert_eq!(prop.len(), 0);
    prop.set("k", "v1");
    prop.set("k", "v2");
    assert_eq!(prop.len(), 1);
    assert_eq!(prop.get("k"), Some("v2".to_string()));
    assert_eq!(prop.get("missing"), None);
    prop.load(b"k=v3\nk=v4\n").unwrap();
    assert_eq!(prop.len(), 1);
    assert_eq!(prop.get("k"), Some("v4".to_string()));
}

#[test]
fn decode_unicode_hex_digits() {
    assert_eq!(decode_unicode(b"4f6A"), Ok(0x4F6A));
    assert_eq!(decode_unicode(b"0000"), Ok(0));
    assert_eq!(decode_unicode(b"FFFF"), Ok(0xFFFF));
    assert_eq!(decode_unicode(b"4xyz"), Err(PropertiesError::InvalidHexDigit));
}

#[test]
fn load_convert_escapes() {
    assert_eq!(load_convert(b"a\\tb"), Ok(b"a\tb".to_vec()));
    assert_eq!(load_convert(b"\\u0041"), Ok(b"A".to_vec()));
    assert_eq!(
        load_convert(b"\\ud83c\\udf10"),
        Ok("🌐".as_bytes().to_vec())
    );
    assert_eq!(
        load_convert(b"\\u4f6"),
        Err(PropertiesError::TruncatedUnicodeEscape { in_surrogate_pair: false })
    );
}

#[test]
fn hex_digit_is_uppercase() {
    assert_eq!(hex(0x0), b'0');
    assert_eq!(hex(0x9), b'9');
    assert_eq!(hex(0xA), b'A');
    assert_eq!(hex(0xF), b'F');
    assert_eq!(hex(0x2A), b'A');
}

#[test]
fn line_reader_joins_continuations() {
    let data = b"a=1\\\n   2\n#note\nb=3\n";
    let mut lr = LineReader::new();
    let n = lr.read_line(data);
    assert_eq!(&lr.line[..n], b"a=12");
    let n = lr.read_line(data);
    assert_eq!(&lr.line[..n], b"b=3");
    let n = lr.read_line(data);
    assert_eq!(n, 0);
}

#[test]
fn store_empty_mapping_writes_nothing() {
    let mut prop = Properties::new();
    let mut buff = Vec::new();
    prop.store(&mut buff, &WriteOption::default()).unwrap();
    assert!(buff.is_empty());
}
