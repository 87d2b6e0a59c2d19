use skyway::readers::opl::unescape_str;
use skyway::writers::o5m::{
    convert_i64_as_unsigned, convert_string, convert_tag, convert_user, StringTable,
};
use skyway::elements::{Element, ElementType, Tags};
use skyway::filter::osmfilter::declared_version;
use skyway::writers::opl::{push_escaped_char, push_escaped_string, should_escape_char};

#[test]
fn test_unescape_str() {
    assert_eq!(unescape_str("%20%"), String::from(" "));
    assert_eq!(unescape_str("%2c%"), String::from(","));
    assert_eq!(unescape_str("%2c%%2c%"), String::from(",,"));
    assert_eq!(unescape_str("%1f631%"), String::from("😱"));
    assert_eq!(unescape_str("%12108%"), String::from("𒄈"));
}

#[test]
fn test_convert_string() {
    let input = "1inner";
    let expected = vec![0x00, 0x31, 0x69, 0x6e, 0x6e, 0x65, 0x72, 0x00];
    assert_eq!(convert_string(input), expected);
}

#[test]
fn test_convert_tag() {
    let input1 = ("oneway", "yes");
    let expected1 = vec![
        0x00, 0x6f, 0x6e, 0x65, 0x77, 0x61, 0x79, 0x00, 0x79, 0x65, 0x73, 0x00,
    ];
    assert_eq!(convert_tag(input1.0, input1.1), expected1);

    let input2 = ("atm", "no");
    let expected2 = vec![0x00, 0x61, 0x74, 0x6d, 0x00, 0x6e, 0x6f, 0x00];
    assert_eq!(convert_tag(input2.0, input2.1), expected2);
}

#[test]
fn test_convert_id() {
    let input1: i64 = 5;
    let expected1 = vec![0x05];
    assert_eq!(convert_i64_as_unsigned(input1), expected1);

    let input2: i64 = 127;
    let expected2 = vec![0x7f];
    assert_eq!(convert_i64_as_unsigned(input2), expected2);

    let input3: i64 = 323;
    let expected3 = vec![0xc3, 0x02];
    assert_eq!(convert_i64_as_unsigned(input3), expected3);

    let input4: i64 = 16384;
    let expected4 = vec![0x80, 0x80, 0x01];
    assert_eq!(convert_i64_as_unsigned(input4), expected4);
}

#[test]
fn test_convert_user() {
    let input1: (i32, String) = (1020, String::from("John"));
    let expected1 = vec![0x00, 0xfc, 0x07, 0x00, 0x4a, 0x6f, 0x68, 0x6e, 0x00];
    assert_eq!(convert_user(input1.0, input1.1), expected1);
}

#[test]
fn large_user_ids_take_five_groups() {
    let r = convert_user(0x1000_0000, String::from("x"));
    assert_eq!(r, vec![0x00, 0x80, 0x80, 0x80, 0x80, 0x01, 0x00, 0x78, 0x00]);
}

#[test]
fn test_string_table() {
    let mut string_table = StringTable::new();

    let vec1 = vec![
        0x00, 0x6f, 0x6e, 0x65, 0x77, 0x61, 0x79, 0x00, 0x79, 0x65, 0x73, 0x00,
    ];
    assert_eq!(string_table.hit_cache(vec1.clone()), vec1);

    let vec2 = vec![0x00, 0x61, 0x74, 0x6d, 0x00, 0x6e, 0x6f, 0x00];
    assert_eq!(string_table.hit_cache(vec2.clone()), vec2);

    assert_eq!(string_table.hit_cache(vec1.clone()), vec![0x02]);

    let vec3 = vec![0x00, 0xfc, 0x07, 0x00, 0x4a, 0x6f, 0x68, 0x6e, 0x00];
    assert_eq!(string_table.hit_cache(vec3.clone()), vec3);

    assert_eq!(string_table.hit_cache(vec2), vec![0x02]);

    assert_eq!(string_table.hit_cache(vec1), vec![0x03]);

    assert_eq!(string_table.hit_cache(vec3), vec![0x01]);
}

#[test]
fn test_push_escaped_char() {
    let mut string1 = String::new();
    push_escaped_char(&mut string1, ' ');
    assert_eq!(string1, "%20%");

    let mut string2 = String::new();
    push_escaped_char(&mut string2, ',');
    assert_eq!(string2, "%2c%");

    let mut string3 = String::new();
    push_escaped_char(&mut string3, '😱');
    assert_eq!(string3, "%1f631%");

    let mut string4 = String::new();
    push_escaped_char(&mut string4, '𒄈');
    assert_eq!(string4, "%12108%");
}

#[test]
fn test_should_escape_char() {
    let test_chars = vec![' ', '\n', ',', '=', '@', '%', '😱'];
    for c in test_chars {
        assert_eq!(should_escape_char(c), true);
    }
}

#[test]
fn test_push_escaped_string() {
    let mut string1 = String::new();
    push_escaped_string(&mut string1, "A,B");
    assert_eq!(string1, "A%2c%B");

    let mut string2 = String::new();
    push_escaped_string(&mut string2, "ohmy😱goodness");
    assert_eq!(string2, "ohmy%1f631%goodness");
}

#[test]
fn escape_then_unescape_returns_the_original() {
    let cases = vec![
        "plain",
        "with space and = and , signs",
        "unicode 😱 𒄈 mixed",
        "100% escaped%%",
        "",
    ];
    for case in cases {
        let mut escaped = String::new();
        push_escaped_string(&mut escaped, case);
        assert_eq!(unescape_str(&escaped), case);
    }
}

#[test]
fn unescape_skips_malformed_escapes() {
    // An empty escape body and an overflowing code point add nothing.
    assert_eq!(unescape_str("a%%b"), "ab");
    assert_eq!(unescape_str("a%fffffffff%b"), "ab");
    // An unterminated escape still converts what it gathered.
    assert_eq!(unescape_str("%20"), " ");
    // A surrogate code point is invalid and adds nothing.
    assert_eq!(unescape_str("x%d800%y"), "xy");
}

#[test]
fn opl_lines_decode_into_elements() {
    let e = skyway::readers::opl::convert_element(
        "n1 v3 dV c42 t2020-01-01T00:00:00Z i7 uada Thighway=residential x13.405 y52.52",
    )
    .expect("line decodes");
    assert_eq!(e.id, 1);
    assert_eq!(e.version, Some(3));
    assert_eq!(e.visible, Some(true));
    assert_eq!(e.changeset, Some(42));
    assert_eq!(e.uid, Some(7));
    assert_eq!(e.user.as_deref(), Some("ada"));
    assert_eq!(
        e.tags.get(&String::from("highway")).unwrap(),
        "residential"
    );
    assert!(matches!(
        e.element_type,
        skyway::elements::ElementType::Node { lat: 525_200_000, lon: 134_050_000 }
    ));

    let w = skyway::readers::opl::convert_element("w2 T Nn8,n9").expect("line decodes");
    assert_eq!(w.id, 2);
    match w.element_type {
        skyway::elements::ElementType::Way { nodes } => assert_eq!(nodes, vec![8, 9]),
        _ => panic!("expected a way"),
    }

    let r = skyway::readers::opl::convert_element("r3 T Mw2@outer%20%ring").expect("line decodes");
    match r.element_type {
        skyway::elements::ElementType::Relation { members } => {
            assert_eq!(members.len(), 1);
            assert_eq!(members[0].id, 2);
            assert_eq!(members[0].role.as_deref(), Some("outer ring"));
        }
        _ => panic!("expected a relation"),
    }
}

#[test]
fn malformed_opl_lines_are_refused() {
    // No identifier, tags or shape at all.
    assert!(skyway::readers::opl::convert_element("q1").is_none());
    // A longitude on a way.
    assert!(skyway::readers::opl::convert_element("w1 T Nn8 x1.5").is_none());
    // An unreadable number.
    assert!(skyway::readers::opl::convert_element("n1x T x1 y2").is_none());
    // A node without a latitude.
    assert!(skyway::readers::opl::convert_element("n1 T x1.5").is_none());
    // A member without an at sign.
    assert!(skyway::readers::opl::convert_element("r1 T Mw2").is_none());
}

#[test]
fn opl_round_trips_through_writer_and_reader() {
    // Encoding an element and decoding the line preserves its identifier,
    // its shape and its tag set.
    let mut tags = skyway::elements::Tags::new();
    tags.insert(String::from("name"), String::from("Main Street"));
    tags.insert(String::from("highway"), String::from("residential"));
    let original = skyway::elements::Element {
        changeset: Some(9),
        user: Some(String::from("a b")),
        version: Some(2),
        uid: Some(3),
        id: 77,
        timestamp: Some(String::from("2021-05-05T05:05:05Z")),
        visible: Some(true),
        tags,
        element_type: skyway::elements::ElementType::Node {
            lat: -10_500_000,
            lon: 1_234_567,
        },
    };
    let mut line = String::new();
    skyway::writers::opl::append_opl_element(&mut line, &original);
    let back = skyway::readers::opl::convert_element(line.trim_end()).expect("line decodes");
    assert_eq!(back.id, original.id);
    assert_eq!(back.user, original.user);
    assert_eq!(back.changeset, original.changeset);
    assert!(matches!(
        back.element_type,
        skyway::elements::ElementType::Node { lat: -10_500_000, lon: 1_234_567 }
    ));
    assert_eq!(back.tags.len(), original.tags.len());
    assert_eq!(
        back.tags.get(&String::from("name")).unwrap(),
        "Main Street"
    );
    assert_eq!(
        back.tags.get(&String::from("highway")).unwrap(),
        "residential"
    );
}

#[test]
fn coordinates_decode_with_sign_point_and_seven_places() {
    let decode = |s: &str| {
        let line = format!("n1 T x{s} y1");
        skyway::readers::opl::convert_element(&line).map(|e| match e.element_type {
            skyway::elements::ElementType::Node { lon, .. } => lon,
            _ => panic!("expected a node"),
        })
    };
    assert_eq!(decode("52.52"), Some(525_200_000));
    assert_eq!(decode("-0.0000001"), Some(-1));
    assert_eq!(decode("7"), Some(70_000_000));
    assert_eq!(decode("1.2345678"), Some(12_345_678));
    assert_eq!(decode("1.23456789"), None);
    assert_eq!(decode("1."), None);
    assert_eq!(decode("one"), None);
}

#[test]
fn waiting_elements_group_and_sort_for_o5m() {
    let make = |id: i64, way: bool| Element {
        changeset: None,
        user: None,
        version: None,
        uid: None,
        id,
        timestamp: None,
        visible: None,
        tags: Tags::new(),
        element_type: if way {
            ElementType::Way { nodes: vec![] }
        } else {
            ElementType::Node { lat: 0, lon: 0 }
        },
    };
    let mut waiting = skyway::writers::o5m::WaitingElements::from(vec![
        make(5, true),
        make(3, false),
        make(1, false),
        make(2, true),
    ]);
    waiting.sort();
    let out = waiting.into_elements();
    let ids: Vec<i64> = out.iter().map(|e| e.id).collect();
    assert_eq!(ids, vec![1, 3, 2, 5]);
    assert!(matches!(out[0].element_type, ElementType::Node { .. }));
    assert!(matches!(out[3].element_type, ElementType::Way { .. }));
}

#[test]
fn filter_texts_declare_their_version() {
    assert_eq!(
        declared_version("version 0.4.0 commit"),
        Some(String::from("0.4.0"))
    );
    assert_eq!(declared_version("commit"), None);
    assert_eq!(declared_version("version \"quoted"), None);
}
