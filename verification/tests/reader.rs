use properties::Properties;

#[test]
fn parse_properties() {
    let cases = vec![
        ("", vec![]),
        ("a0=b", vec![("a0", "b")]),
        ("a0 \t\x0c b", vec![("a0", "b")]),
        ("a0\tb", vec![("a0", "b")]),
        ("a0\x0cb", vec![("a0", "b")]),
        ("a0:b", vec![("a0", "b")]),
        ("a1 = \t\x0cb", vec![("a1", "b")]),
        ("a2=b\\:b", vec![("a2", "b:b")]),
        ("a3=b\\\n   c, d ", vec![("a3", "bc, d ")]),
        ("a3=\\\\\\\ncd", vec![("a3", "\\cd")]),
        ("a4=d\\", vec![("a4", "d")]),
        ("a5=\\th\\re\\nl\\fl", vec![("a5", "\th\re\nl\x0cl")]),
        ("a6=\u{4f60}\u{597d}\u{1f310}", vec![("a6", "你好🌐")]),
        ("\\!a=\\#b", vec![("!a", "#b")]),
        (
            "a0=b\na1=c\\\nd=e\ra2=d\r\n#comment1\n#comment2\\\na3=e\\\r\n#asy\n \n#comment4",
            vec![("a0", "b"), ("a1", "cd=e"), ("a2", "d"), ("a3", "e#asy")],
        ),
    ];
    for &(input, ref r) in &cases {
        let mut prop = Properties::new();
        match prop.load(input.as_bytes()) {
            Ok(_) => {
                if r.len() != prop.len() {
                    panic!("invalid items, expect={} got={}", r.len(), prop.len());
                }
                for l in r {
                    match prop.get(&l.0) {
                        Some(val) => {
                            if val.ne(&l.1) {
                                panic!("invalid key {}, expect={} got={}", l.0, l.1, val);
                            }
                        }
                        None => panic!("key {} doesn't exist", l.0),
                    }
                }
            }
            Err(e) => panic!("Load properties failed, {}", e.message()),
        }
    }
}

#[test]
fn abnormal() {
    let cases = vec![
        ("key=\\u4xyz", "parse unicode failed, invalid char"),
        ("key=\\u4f6", "invalid escape unicode, at least 4 bytes"),
        (
            "key=\\ud83c\\more data",
            "got lead surrogates without trail",
        ),
        (
            "key=\\ud83c\\ue00",
            "invalid surrogates escape unicode, at least 6 bytes",
        ),
        ("key=\\ud83c\\uda00", "invalid trail surrogates"),
        ("key=\\ud83c\\ue000", "invalid trail surrogates"),
    ];
    for (input, err) in &cases {
        let mut prop = Properties::new();
        match prop.load(input.as_bytes()) {
            Ok(_) => {
                if let Some(_) = prop.get("key") {
                    panic!("Item should not exist")
                }
                panic!("Load properties should failed")
            }
            Err(e) => {
                let msg = e.message();
                assert!(msg.starts_with(err), "{}", msg);
            }
        }
    }
}

#[test]
fn reader_normal() {
    let cases = vec![
        ("", vec![]),
        ("a0=b", vec![("a0", "b")]),
        ("a0 \t\x0c b", vec![("a0", "b")]),
        ("a0\tb", vec![("a0", "b")]),
        ("a0\x0cb", vec![("a0", "b")]),
        ("a0:b", vec![("a0", "b")]),
        ("a0=\\", vec![("a0", "")]),
        ("a0=\\b", vec![("a0", "b")]),
        ("a1 = \t\x0cb", vec![("a1", "b")]),
        ("a2=b\\:b", vec![("a2", "b:b")]),
        ("a3=b\\\n   c, d ", vec![("a3", "bc, d ")]),
        ("a3=\\\\\\\ncd", vec![("a3", "\\cd")]),
        ("a4=d\\", vec![("a4", "d")]),
        ("a5=\\th\\re\\nl\\fl", vec![("a5", "\th\re\nl\x0cl")]),
        ("a6=\u{4f60}\u{597d}\u{1f310}", vec![("a6", "你好🌐")]),
        ("\\!a=\\#b", vec![("!a", "#b")]),
        (
            "a0=b\na1=c\\\nd=e\ra2=d\r\n#comment1\n#comment2\\\na3=e\\\r\n#asy\n \n#comment4",
            vec![("a0", "b"), ("a1", "cd=e"), ("a2", "d"), ("a3", "e#asy")],
        ),
    ];
    for &(input, ref r) in &cases {
        let mut prop = Properties::new();
        match prop.load(input.as_bytes()) {
            Ok(_) => {
                if r.len() != prop.len() {
                    panic!("invalid items, expect={} got={}", r.len(), prop.len());
                }
                for l in r {
                    match prop.get(&l.0) {
                        Some(val) => {
                            if val.ne(&l.1) {
                                panic!("invalid key {}, expect={} got={}", l.0, l.1, val);
                            }
                        }
                        None => panic!("key {} doesn't exist", l.0),
                    }
                }
            }
            Err(e) => panic!("Load properties failed, {}", e.message()),
        }
    }
}

#[test]
fn unicode() {
    let cases = vec![
        (
            "a0=\\u4F60\\u597D\\u00A9\\uD83C\\uDF10\n",
            vec![("a0", "你好©🌐")],
        ),
        (
            "a0=\\u4f60\\u597d\\u00a9\\ud83c\\udf10\n",
            vec![("a0", "你好©🌐")],
        ),
    ];
    for &(input, ref r) in &cases {
        let mut prop = Properties::new();
        match prop.load(input.as_bytes()) {
            Ok(_) => {
                if r.len() != prop.len() {
                    panic!("invalid items, expect={} got={}", r.len(), prop.len());
                }
                for l in r {
                    match prop.get(&l.0) {
                        Some(val) => {
                            if val.ne(&l.1) {
                                panic!("invalid key {}, expect={} got={}", l.0, l.1, val);
                            }
                        }
                        None => panic!("key {} doesn't exist", l.0),
                    }
                }
            }
            Err(e) => panic!("Load properties failed, {}", e.message()),
        }
    }
}
