use skyway::elements::{Element, ElementType, Member, Metadata, SimpleElementType, Tags};
use skyway::get_file_extension;
use skyway::readers::xml::{convert_element, convert_tags, XmlElement, XmlElementMeta, XmlNode, XmlTags};
use skyway::readers::{parse_input_format, InputFileFormat};
use skyway::writers::json::{append_serialized_element, create_header, serialize_chunk};
use skyway::writers::xml::{_convert_nodes, _convert_tags};
use skyway::writers::{parse_output_format, OutputFileFormat};
use skyway::SkywayError;

#[test]
fn input_formats_parse_without_regard_to_case() {
    assert!(matches!(InputFileFormat::from_str("json"), Ok(InputFileFormat::Json)));
    assert!(matches!(InputFileFormat::from_str("JSON"), Ok(InputFileFormat::Json)));
    assert!(matches!(InputFileFormat::from_str("Opl"), Ok(InputFileFormat::Opl)));
    assert!(matches!(InputFileFormat::from_str("osm"), Ok(InputFileFormat::Xml)));
    assert!(matches!(InputFileFormat::from_str("PBF"), Ok(InputFileFormat::Pbf)));
    assert!(matches!(InputFileFormat::from_str("xml"), Ok(InputFileFormat::Xml)));
    assert!(matches!(
        InputFileFormat::from_str("csv"),
        Err(SkywayError::UnknownInputFormat)
    ));
}

#[test]
fn output_formats_parse_without_regard_to_case() {
    assert!(matches!(OutputFileFormat::from_str("json"), Ok(OutputFileFormat::Json)));
    assert!(matches!(OutputFileFormat::from_str("OPL"), Ok(OutputFileFormat::Opl)));
    assert!(matches!(OutputFileFormat::from_str("osm"), Ok(OutputFileFormat::Xml)));
    assert!(matches!(
        OutputFileFormat::from_str("Overpass"),
        Ok(OutputFileFormat::Overpass)
    ));
    assert!(matches!(OutputFileFormat::from_str("xml"), Ok(OutputFileFormat::Xml)));
    assert!(matches!(
        OutputFileFormat::from_str("o5m"),
        Err(SkywayError::UnknownOutputFormat)
    ));
}

#[test]
fn file_extensions_come_from_the_last_component() {
    assert_eq!(get_file_extension(&Some(String::from("map.osm.pbf"))), Some("pbf"));
    assert_eq!(get_file_extension(&Some(String::from("dir/file.json"))), Some("json"));
    assert_eq!(get_file_extension(&Some(String::from("dir.d/file"))), None);
    assert_eq!(get_file_extension(&Some(String::from(".hidden"))), None);
    assert_eq!(get_file_extension(&None), None);
    // Trailing separators are dropped before the component is read.
    assert_eq!(get_file_extension(&Some(String::from("dir/map.osm/"))), Some("osm"));
    assert_eq!(get_file_extension(&Some(String::from("map.xml//"))), Some("xml"));
    // The parent directory names no file.
    assert_eq!(get_file_extension(&Some(String::from(".."))), None);
    assert_eq!(get_file_extension(&Some(String::from("a/.."))), None);
}

fn sample_node() -> Element {
    let mut tags = Tags::new();
    tags.insert(String::from("highway"), String::from("residential"));
    Element {
        changeset: Some(42),
        user: Some(String::from("ada")),
        version: Some(3),
        uid: Some(7),
        id: 1,
        timestamp: Some(String::from("2020-01-01T00:00:00Z")),
        visible: Some(true),
        tags,
        element_type: ElementType::Node { lat: 525_200_000, lon: 134_050_000 },
    }
}

#[test]
fn json_element_serialization_is_exact() {
    let mut out = String::new();
    append_serialized_element(&mut out, &sample_node());
    assert_eq!(
        out,
        "{\"type\":\"node\",\"lat\":52.52,\"lon\":13.405,\"id\":1,\"changeset\":42,\
         \"timestamp\":\"2020-01-01T00:00:00Z\",\"uid\":7,\"user\":\"ada\",\
         \"tags\":{\"highway\":\"residential\"}}"
    );
}

#[test]
fn json_way_and_relation_serialize() {
    let way = Element {
        changeset: None,
        user: None,
        version: None,
        uid: None,
        id: -3,
        timestamp: None,
        visible: Some(false),
        tags: Tags::new(),
        element_type: ElementType::Way { nodes: vec![1, 2, 3] },
    };
    let mut out = String::new();
    append_serialized_element(&mut out, &way);
    assert_eq!(out, "{\"type\":\"way\",\"nodes\":[1,2,3],\"id\":-3,\"visible\":false}");

    let rel = Element {
        changeset: None,
        user: None,
        version: None,
        uid: None,
        id: 9,
        timestamp: None,
        visible: None,
        tags: Tags::new(),
        element_type: ElementType::Relation {
            members: vec![
                Member { t: Some(SimpleElementType::Node), id: 4, role: Some(String::from("stop")) },
                Member { t: None, id: 5, role: None },
            ],
        },
    };
    let mut out = String::new();
    append_serialized_element(&mut out, &rel);
    assert_eq!(
        out,
        "{\"type\":\"relation\",\"members\":[{\"ref\":4,\"type\":\"node\",\"role\":\"stop\"},\
         {\"ref\":5,\"role\":\"\"}],\"id\":9}"
    );
}

#[test]
fn json_strings_escape_controls_and_quotes() {
    let mut tags = Tags::new();
    tags.insert(String::from("name"), String::from("a\"b\\c\nd\u{1}e"));
    let e = Element {
        changeset: None,
        user: None,
        version: None,
        uid: None,
        id: 1,
        timestamp: None,
        visible: None,
        tags,
        element_type: ElementType::Way { nodes: vec![] },
    };
    let mut out = String::new();
    append_serialized_element(&mut out, &e);
    assert_eq!(
        out,
        "{\"type\":\"way\",\"nodes\":[],\"id\":1,\"tags\":{\"name\":\"a\\\"b\\\\c\\nd\\u0001e\"}}"
    );
}

#[test]
fn json_header_carries_the_document_fields() {
    let m = Metadata {
        version: Some(String::from("0.6")),
        generator: Some(String::from("generator-name")),
        copyright: Some(String::from("somebody")),
        license: None,
        timestamp: None,
    };
    assert_eq!(
        create_header(m),
        "{\"copyright\":\"somebody\",\"generator\":\"generator-name\",\
         \"version\":\"0.6\",\"elements\":["
    );
    let empty = Metadata {
        version: None,
        generator: None,
        copyright: None,
        license: None,
        timestamp: None,
    };
    assert_eq!(create_header(empty), "{\"version\":\"0.6\",\"elements\":[");
}

#[test]
fn json_chunks_join_elements_with_commas() {
    let chunk = vec![sample_node(), sample_node()];
    let s = serialize_chunk(&chunk);
    assert_eq!(s.matches("\"type\":\"node\"").count(), 2);
    assert_eq!(s.matches("},{\"type\"").count(), 1);
}

#[test]
fn xml_tag_conversion_round_trips_and_dedups() {
    let xml_tags = vec![
        XmlTags { k: String::from("a"), v: String::from("1") },
        XmlTags { k: String::from("b"), v: String::from("2") },
        XmlTags { k: String::from("a"), v: String::from("3") },
    ];
    let tags = convert_tags(xml_tags);
    assert_eq!(tags.len(), 2);
    assert_eq!(tags.get(&String::from("a")).unwrap(), "3");
    assert_eq!(tags.get(&String::from("b")).unwrap(), "2");

    let back = _convert_tags(&tags);
    assert_eq!(back.len(), 2);

    let nd = _convert_nodes(&vec![5, 6]);
    assert_eq!(nd.len(), 2);
    assert_eq!(nd[0].nd_ref, 5);
    assert_eq!(nd[1].nd_ref, 6);
}

#[test]
fn xml_node_record_rebuilds_an_element() {
    let record = XmlElement::Node(XmlNode {
        lat: 10_000_000,
        lon: -20_000_000,
        meta: XmlElementMeta {
            id: 11,
            user: Some(String::from("ada")),
            uid: Some(1),
            visible: true,
            version: Some(2),
            changeset: Some(3),
            timestamp: None,
        },
        tags: vec![XmlTags { k: String::from("k"), v: String::from("v") }],
    });
    let e = convert_element(record);
    assert_eq!(e.id, 11);
    assert_eq!(e.visible, Some(true));
    assert_eq!(e.tags.get(&String::from("k")).unwrap(), "v");
    assert!(matches!(
        e.element_type,
        ElementType::Node { lat: 10_000_000, lon: -20_000_000 }
    ));
}

#[test]
fn opl_line_serialization_is_exact() {
    let mut out = String::new();
    skyway::writers::opl::append_opl_element(&mut out, &sample_node());
    assert_eq!(
        out,
        "n1 v3 dV c42 t2020-01-01T00:00:00Z i7 uada Thighway=residential x13.405 y52.52\n"
    );
}

#[test]
fn opl_way_and_relation_lines_serialize() {
    let way = Element {
        changeset: None,
        user: None,
        version: None,
        uid: None,
        id: 2,
        timestamp: None,
        visible: None,
        tags: Tags::new(),
        element_type: ElementType::Way { nodes: vec![8, 9] },
    };
    let rel = Element {
        changeset: None,
        user: None,
        version: None,
        uid: None,
        id: 3,
        timestamp: None,
        visible: None,
        tags: Tags::new(),
        element_type: ElementType::Relation {
            members: vec![Member {
                t: Some(SimpleElementType::Way),
                id: 2,
                role: Some(String::from("outer ring")),
            }],
        },
    };
    let chunk = vec![way, rel];
    let s = skyway::writers::opl::serialize_chunk(&chunk);
    assert_eq!(s, "w2 T Nn8,n9\nr3 T Mw2@outer%20%ring\n");
}

#[test]
fn xml_records_round_trip_through_the_model() {
    // An element split into its XML record and folded back keeps its
    // identifier, its shape and its tag set.
    let original = sample_node();
    let (nodes, ways, relations) =
        skyway::writers::xml::_split_and_convert_elements(&vec![original]);
    assert_eq!(ways.len(), 0);
    assert_eq!(relations.len(), 0);
    let record = nodes.into_iter().next().unwrap();
    let rebuilt = convert_element(XmlElement::Node(XmlNode {
        lat: record.lat,
        lon: record.lon,
        meta: XmlElementMeta {
            id: record.meta.id,
            user: record.meta.user,
            uid: record.meta.uid,
            visible: record.meta.visible,
            version: record.meta.version,
            changeset: record.meta.changeset,
            timestamp: record.meta.timestamp,
        },
        tags: record
            .tags
            .into_iter()
            .map(|t| XmlTags { k: t.k, v: t.v })
            .collect(),
    }));
    let reference = sample_node();
    assert_eq!(rebuilt.id, reference.id);
    assert!(matches!(
        rebuilt.element_type,
        ElementType::Node { lat: 525_200_000, lon: 134_050_000 }
    ));
    assert_eq!(rebuilt.tags.len(), reference.tags.len());
    assert_eq!(
        rebuilt.tags.get(&String::from("highway")).unwrap(),
        "residential"
    );
}

#[test]
fn format_selection_prefers_the_explicit_name() {
    assert!(matches!(
        parse_input_format(&Some(String::from("opl")), &Some(String::from("map.json"))),
        Ok(InputFileFormat::Opl)
    ));
    assert!(matches!(
        parse_input_format(&None, &Some(String::from("map.json"))),
        Ok(InputFileFormat::Json)
    ));
    assert!(matches!(
        parse_input_format(&None, &Some(String::from("map"))),
        Err(SkywayError::UnknownInputFormat)
    ));
    assert!(matches!(
        parse_output_format(&None, &None),
        Err(SkywayError::UnknownOutputFormat)
    ));
    assert!(matches!(
        parse_output_format(&None, &Some(String::from("out.OPL"))),
        Ok(OutputFileFormat::Opl)
    ));
}
