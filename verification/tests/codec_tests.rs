use prometheus_radiator_exporter::codec::{
    decode_stats, extract_identifier, payload_of, read_stat, split_once_text, split_text, Stats,
};
use prometheus_radiator_exporter::openmetrics::Number;
use prometheus_radiator_exporter::text::{position, same_text, tuple_position_of, Position};

fn entries(stats: &Stats) -> Vec<(String, String)> {
    let mut out = Vec::new();
    for i in 0..stats.len() {
        out.push((stats.key_at(i).clone(), stats.value_at(i).to_string()));
    }
    out
}

fn pair(key: &str, value: &str) -> (String, String) {
    (key.to_string(), value.to_string())
}

#[test]
fn statistics_with_a_bad_item_and_a_key_given_twice() {
    let stats = decode_stats("STATS .\nk1:10\u{1}k2:3.5\u{1}bad\u{1}k1:11".as_bytes()).unwrap();
    assert_eq!(stats.len(), 2);
    assert!(matches!(stats.get("k1"), Some(Number::Integer(11))));
    match stats.get("k2") {
        Some(Number::Float(text)) => {
            assert_eq!(text, "3.5");
            assert_eq!(text.parse::<f64>().unwrap(), 3.5f64);
        }
        other => panic!("{:?}", other),
    }
    assert!(stats.get("bad").is_none());
    assert!(!stats.contains_key("bad"));
}

#[test]
fn statistics_need_a_line_feed() {
    assert!(decode_stats(b"STATS .").is_none());
    assert!(decode_stats(b"").is_none());
    assert!(decode_stats(b"k1:10").is_none());
}

#[test]
fn statistics_need_a_payload_in_utf8() {
    assert!(decode_stats(b"STATS .\nk1:10\x01k\xff:2").is_none());
    assert!(decode_stats(b"STATS .\n\xc3").is_none());
    assert!(decode_stats(b"STATS .\n\xed\xa0\x80:1").is_none());
}

#[test]
fn the_echoed_command_is_not_read_as_text() {
    let stats = decode_stats(b"STATS \xff.\nk:1").unwrap();
    assert_eq!(entries(&stats), vec![pair("k", "1")]);
}

#[test]
fn statistics_keep_text_beyond_ascii() {
    let stats = decode_stats("STATS .\nZähler:12\u{1}計数:-3\u{1}x:٣".as_bytes()).unwrap();
    assert_eq!(entries(&stats), vec![pair("Zähler", "12"), pair("計数", "-3")]);
}

#[test]
fn statistics_split_at_the_first_colon() {
    let stats = decode_stats(b"c\na:b:5\x01:7\x01x:\x01y:1:2\x01z:1e3").unwrap();
    assert_eq!(entries(&stats), vec![pair("", "7"), pair("z", "1e3")]);
}

#[test]
fn the_payload_starts_after_the_first_line_feed() {
    let stats = decode_stats(b"STATS .\na:1\nb:2\x01c:3").unwrap();
    assert_eq!(entries(&stats), vec![pair("c", "3")]);
    assert_eq!(payload_of(b"x\ny\nz"), Some("y\nz"));
    assert_eq!(payload_of(b"x\n"), Some(""));
    assert_eq!(payload_of(b"xyz"), None);
}

#[test]
fn empty_payload_holds_no_statistics() {
    let stats = decode_stats(b"STATS .\n").unwrap();
    assert_eq!(stats.len(), 0);
}

#[test]
fn frame_built_from_known_statistics_decodes_to_them() {
    let known: Vec<(&str, Number)> = vec![
        ("Total requests", Number::Integer(12345)),
        ("delta", Number::Integer(-5)),
        ("largest", Number::Integer(i64::MAX)),
        ("smallest", Number::Integer(i64::MIN)),
        ("rate", Number::Float("0.25".to_string())),
        ("ceiling", Number::Float("inf".to_string())),
    ];
    let mut frame = String::from("STATS .\n");
    for (i, (key, number)) in known.iter().enumerate() {
        if i > 0 {
            frame.push('\u{1}');
        }
        frame.push_str(key);
        frame.push(':');
        frame.push_str(&number.to_string());
    }
    let stats = decode_stats(frame.as_bytes()).unwrap();
    assert_eq!(stats.len(), known.len());
    for (key, number) in known {
        match (stats.get(key), number) {
            (Some(Number::Integer(a)), Number::Integer(b)) => assert_eq!(*a, b),
            (Some(Number::Float(a)), Number::Float(b)) => assert_eq!(*a, b),
            other => panic!("{:?}", other),
        }
    }
}

#[test]
fn identifier_of_an_object() {
    let frame = "DESCRIBE Port.0\nName:string:x\u{1}Identifier:int:5\u{1}Identifier:string:A:1\u{1}Identifier:string:B";
    assert_eq!(extract_identifier(frame.as_bytes()), Some("A:1".to_string()));
}

#[test]
fn object_without_identifier() {
    assert_eq!(extract_identifier(b"DESCRIBE Port.0\nName:string:x\x01bad\x01a:b"), None);
    assert_eq!(extract_identifier(b"DESCRIBE Port.0\nidentifier:string:x"), None);
    assert_eq!(extract_identifier(b"DESCRIBE Port.0\nIdentifier:String:x"), None);
    assert_eq!(extract_identifier(b"DESCRIBE Port.0"), None);
    assert_eq!(extract_identifier(b"DESCRIBE Port.0\nIdentifier:string:\xff"), None);
    assert_eq!(extract_identifier(b"NOSUCHOBJECT"), None);
}

#[test]
fn identifier_may_be_empty() {
    assert_eq!(
        extract_identifier(b"DESCRIBE Port.0\nIdentifier:string:"),
        Some(String::new())
    );
}

#[test]
fn items_of_a_text() {
    assert_eq!(split_text("a\u{1}b\u{1}\u{1}c", '\u{1}'), vec!["a", "b", "", "c"]);
    assert_eq!(split_text("", '\u{1}'), vec![""]);
    assert_eq!(split_text("\u{1}", '\u{1}'), vec!["", ""]);
    assert_eq!(split_text("abc", ','), vec!["abc"]);
    for text in ["", ",", "a,b", ",a,,b,", "é,ü", "no separator"] {
        let expected: Vec<String> = text.split(',').map(|s| s.to_string()).collect();
        assert_eq!(split_text(text, ','), expected);
    }
}

#[test]
fn parts_around_the_first_separator() {
    for text in ["", ":", "a:b", "a:b:c", ":a", "a:", "abc", "é:ü:"] {
        let expected = text.split_once(':').map(|(a, b)| (a.to_string(), b.to_string()));
        assert_eq!(split_once_text(text, ':'), expected);
    }
}

#[test]
fn one_statistic() {
    match read_stat("k:10") {
        Some((key, Number::Integer(10))) => assert_eq!(key, "k"),
        other => panic!("{:?}", other),
    }
    assert!(read_stat("k").is_none());
    assert!(read_stat("k:abc").is_none());
    assert!(read_stat("k:").is_none());
}

#[test]
fn texts_compare_as_strings_do() {
    let samples = ["", "a", "b", "ab", "aa", "A", "é", "e", "z", "~", "\u{10FFFF}", "\u{0}", "ab ", "日本"];
    for a in samples {
        for b in samples {
            let expected = match a.cmp(b) {
                std::cmp::Ordering::Less => Position::Before,
                std::cmp::Ordering::Equal => Position::Same,
                std::cmp::Ordering::Greater => Position::After,
            };
            assert_eq!(position(a, b), expected, "{:?} {:?}", a, b);
            assert_eq!(same_text(a, b), a == b);
        }
    }
}

#[test]
fn tuples_compare_as_vectors_do() {
    let samples: Vec<Vec<String>> = vec![
        vec![],
        vec!["a".to_string()],
        vec!["a".to_string(), "b".to_string()],
        vec!["a".to_string(), "".to_string()],
        vec!["ab".to_string()],
        vec!["b".to_string()],
        vec!["".to_string(), "z".to_string()],
    ];
    for a in &samples {
        for b in &samples {
            let expected = match a.cmp(b) {
                std::cmp::Ordering::Less => Position::Before,
                std::cmp::Ordering::Equal => Position::Same,
                std::cmp::Ordering::Greater => Position::After,
            };
            assert_eq!(tuple_position_of(a, b), expected, "{:?} {:?}", a, b);
        }
    }
}
