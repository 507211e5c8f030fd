use marker_fixer::error::MarkerFixerError;
use marker_fixer::xmp::{
    generate_xmp, marker_from_chapter, marker_has_text, marker_with_guid, merge_markers,
    parse_markers, scan_markers, Marker, XmlAttribute, XmlToken,
};

fn marker(frame: u64, name: Option<&str>, comment: Option<&str>, guid: &str) -> Marker {
    Marker {
        start_frame: frame,
        name: name.map(|s| s.to_string()),
        comment: comment.map(|s| s.to_string()),
        guid: guid.to_string(),
    }
}

fn is_uuid_text(s: &str) -> bool {
    s.len() == 36
        && s.char_indices().all(|(i, c)| {
            if i == 8 || i == 13 || i == 18 || i == 23 {
                c == '-'
            } else if i == 14 {
                c == '4'
            } else if i == 19 {
                "89ab".contains(c)
            } else {
                c.is_ascii_digit() || ('a'..='f').contains(&c)
            }
        })
}

#[test]
fn merge_prefers_marker_with_text_for_same_frame() {
    let existing = vec![Marker {
        start_frame: 100,
        name: None,
        comment: None,
        guid: "a".to_string(),
    }];
    let incoming = vec![Marker {
        start_frame: 100,
        name: Some("Text".to_string()),
        comment: None,
        guid: "b".to_string(),
    }];

    let merged = merge_markers(existing, incoming);
    assert_eq!(merged.len(), 1);
    assert_eq!(merged[0].name.as_deref(), Some("Text"));
    assert_eq!(merged[0].guid, "b");
}

#[test]
fn generated_xml_contains_marker_track() {
    let xml = generate_xmp(
        "f60",
        &[Marker {
            start_frame: 10,
            name: Some("GOAT".to_string()),
            comment: None,
            guid: "123".to_string(),
        }],
    );

    assert!(xml.contains("xmpDM:trackName=\"Markers\""));
    assert!(xml.contains("xmpDM:startTime=\"10\""));
    assert!(xml.contains("xmpDM:name=\"GOAT\""));
}

#[test]
fn merge_keeps_first_marker_when_none_has_text() {
    let merged = merge_markers(
        vec![marker(5, None, Some("  "), "first")],
        vec![marker(5, Some(" "), None, "second")],
    );
    assert_eq!(merged.len(), 1);
    assert_eq!(merged[0].guid, "first");
}

#[test]
fn merge_keeps_marker_that_already_has_text() {
    let merged = merge_markers(
        vec![marker(7, Some("kept"), None, "a")],
        vec![marker(7, Some("other"), None, "b")],
    );
    assert_eq!(merged.len(), 1);
    assert_eq!(merged[0].guid, "a");
}

#[test]
fn merge_sorts_by_frame_and_keeps_one_per_frame() {
    let merged = merge_markers(
        vec![marker(30, None, None, "c"), marker(10, None, None, "a")],
        vec![marker(20, None, None, "b"), marker(10, None, Some("note"), "d"), marker(30, None, None, "e")],
    );
    let frames: Vec<u64> = merged.iter().map(|m| m.start_frame).collect();
    assert_eq!(frames, vec![10, 20, 30]);
    let guids: Vec<&str> = merged.iter().map(|m| m.guid.as_str()).collect();
    assert_eq!(guids, vec!["d", "b", "c"]);
}

#[test]
fn remerging_the_same_frames_adds_no_marker() {
    let existing = vec![marker(1, Some("a"), None, "x"), marker(2, None, None, "y")];
    let incoming = vec![marker(2, Some("b"), None, "z"), marker(1, Some("c"), None, "w")];
    let merged = merge_markers(existing.clone(), incoming);
    assert_eq!(merged.len(), merge_markers(existing, vec![]).len());
    assert_eq!(merged[0].guid, "x");
    assert_eq!(merged[1].guid, "z");
}

#[test]
fn merging_the_same_incoming_markers_again_changes_nothing() {
    let existing = vec![marker(5, None, None, "p"), marker(1, Some("a"), None, "x")];
    let incoming = vec![marker(5, Some("t"), None, "q"), marker(9, None, None, "r"), marker(1, None, Some("c"), "w")];
    let merged = merge_markers(existing, incoming.clone());
    let again = merge_markers(merged.clone(), incoming);
    assert_eq!(again, merged);
    let guids: Vec<&str> = merged.iter().map(|m| m.guid.as_str()).collect();
    assert_eq!(guids, vec!["x", "q", "r"]);
}

#[test]
fn merge_of_nothing_is_empty() {
    assert!(merge_markers(vec![], vec![]).is_empty());
}

#[test]
fn marker_text_counts_name_or_comment() {
    assert!(!marker_has_text(&marker(1, None, None, "g")));
    assert!(!marker_has_text(&marker(1, Some(" \t"), Some("\n"), "g")));
    assert!(marker_has_text(&marker(1, Some(" x "), None, "g")));
    assert!(marker_has_text(&marker(1, None, Some("c"), "g")));
}

#[test]
fn escape_replaces_the_five_special_characters() {
    let xml = generate_xmp("a<b>&'\"c", &[]);
    assert!(xml.contains("xmpDM:frameRate=\"a&lt;b&gt;&amp;&apos;&quot;c\""));
    let plain = generate_xmp("plain text", &[]);
    assert!(plain.contains("xmpDM:frameRate=\"plain text\""));
}

#[test]
fn generated_xml_is_exact_for_one_marker() {
    let xml = generate_xmp("f30000/1001", &[marker(42, Some("A&B"), Some(" "), "g\"1")]);
    let expected = "<?xpacket begin=\"\u{feff}\" id=\"W5M0MpCehiHzreSzNTczkc9d\"?>\n\
<x:xmpmeta xmlns:x=\"adobe:ns:meta/\">\n \
<rdf:RDF xmlns:rdf=\"http://www.w3.org/1999/02/22-rdf-syntax-ns#\">\n  \
<rdf:Description rdf:about=\"\" xmlns:xmpDM=\"http://ns.adobe.com/xmp/1.0/DynamicMedia/\">\n   \
<xmpDM:Tracks>\n    <rdf:Bag>\n     <rdf:li>\n      \
<rdf:Description xmpDM:trackName=\"Markers\" xmpDM:frameRate=\"f30000/1001\">\n       \
<xmpDM:markers>\n        <rdf:Seq>\n         <rdf:li>\n          \
<rdf:Description xmpDM:startTime=\"42\" xmpDM:type=\"Comment\" xmpDM:guid=\"g&quot;1\" xmpDM:name=\"A&amp;B\"/>\n         \
</rdf:li>\n        </rdf:Seq>\n       </xmpDM:markers>\n      </rdf:Description>\n     \
</rdf:li>\n    </rdf:Bag>\n   </xmpDM:Tracks>\n  </rdf:Description>\n </rdf:RDF>\n\
</x:xmpmeta>\n<?xpacket end=\"w\"?>\n";
    assert_eq!(xml, expected);
}

#[test]
fn chapter_markers_trim_titles_and_drop_blank_ones() {
    let m = marker_with_guid(12, Some("  Intro  "), "id".to_string());
    assert_eq!(m, marker(12, Some("Intro"), None, "id"));
    let blank = marker_with_guid(3, Some("   "), "id2".to_string());
    assert_eq!(blank.name, None);
    let none = marker_with_guid(4, None, "id3".to_string());
    assert_eq!(none.name, None);
    let fresh = marker_from_chapter(9, Some("x"));
    assert_eq!(fresh.start_frame, 9);
    assert_eq!(fresh.name.as_deref(), Some("x"));
    assert!(is_uuid_text(&fresh.guid));
}

#[test]
fn fresh_guids_are_hyphenated_lowercase_uuids() {
    let a = marker_from_chapter(1, None).guid;
    let b = marker_from_chapter(1, None).guid;
    assert!(is_uuid_text(&a));
    assert!(is_uuid_text(&b));
    assert_ne!(a, b);
}

const PACKET: &str = "<x:xmpmeta xmlns:x=\"adobe:ns:meta/\"><rdf:RDF><rdf:Description \
xmpDM:trackName=\"Markers\" xmpDM:frameRate=\"f25\"><xmpDM:markers><rdf:Seq><rdf:li>\
<rdf:Description xmpDM:startTime=\"50\" xmpDM:name=\"Start &amp; go\" xmpDM:guid=\"g1\">\
</rdf:Description></rdf:li><rdf:li><rdf:Description xmpDM:startTime=\"75\" xmpDM:comment=\" \">\
</rdf:Description></rdf:li></rdf:Seq></xmpDM:markers></rdf:Description></rdf:RDF></x:xmpmeta>";

#[test]
fn parses_markers_inside_the_marker_track() {
    let parsed = parse_markers(PACKET).expect("packet should parse");
    assert_eq!(parsed.frame_rate.as_deref(), Some("f25"));
    assert_eq!(parsed.markers.len(), 2);
    assert_eq!(parsed.markers[0], marker(50, Some("Start & go"), None, "g1"));
    assert_eq!(parsed.markers[1].start_frame, 75);
    assert_eq!(parsed.markers[1].comment, None);
    assert!(is_uuid_text(&parsed.markers[1].guid));
}

#[test]
fn refuses_packet_without_xmpmeta_boundaries() {
    match parse_markers("<rdf:RDF></rdf:RDF>") {
        Err(MarkerFixerError::InvalidXmp(m)) => {
            assert_eq!(m, "XMP payload is missing required <x:xmpmeta> boundaries")
        }
        other => panic!("unexpected {:?}", other),
    }
}

#[test]
fn reports_a_bad_start_time() {
    let xml = PACKET.replace("startTime=\"50\"", "startTime=\"5x\"");
    match parse_markers(&xml) {
        Err(MarkerFixerError::InvalidXmp(m)) => {
            assert_eq!(m, "invalid marker startTime '5x': invalid digit found in string")
        }
        other => panic!("unexpected {:?}", other),
    }
}

#[test]
fn reports_malformed_xml() {
    let xml = PACKET.replace("</x:xmpmeta>", "</x:xmpmetX>") + "</x:xmpmeta>";
    match parse_markers(&xml) {
        Err(MarkerFixerError::InvalidXmp(m)) => assert!(m.starts_with("invalid xmp xml at position ")),
        other => panic!("unexpected {:?}", other),
    }
}

#[test]
fn scan_follows_the_track_state() {
    let desc = |attrs: &[(&str, &str)]| XmlToken::Start {
        name: "rdf:Description".to_string(),
        attributes: attrs
            .iter()
            .map(|(k, v)| XmlAttribute { key: k.to_string(), value: Ok(v.to_string()) })
            .collect(),
    };
    let tokens = vec![
        desc(&[("xmpDM:trackName", "Markers"), ("xmpDM:frameRate", "f60")]),
        XmlToken::Start { name: "xmpDM:markers".to_string(), attributes: vec![] },
        desc(&[("xmpDM:startTime", "1"), ("xmpDM:guid", "a"), ("xmpDM:guid", "b")]),
        XmlToken::End { name: "rdf:Description".to_string() },
        XmlToken::End { name: "xmpDM:markers".to_string() },
        desc(&[("xmpDM:startTime", "2"), ("xmpDM:guid", "c")]),
        XmlToken::Eof,
        desc(&[("xmpDM:startTime", "x")]),
    ];
    let parsed = scan_markers(&tokens).expect("scan should succeed");
    assert_eq!(parsed.frame_rate.as_deref(), Some("f60"));
    assert_eq!(parsed.markers, vec![marker(1, None, None, "b")]);

    let bad = vec![XmlToken::Start {
        name: "rdf:Description".to_string(),
        attributes: vec![XmlAttribute { key: "k".to_string(), value: Err("boom".to_string()) }],
    }];
    match scan_markers(&bad) {
        Err(MarkerFixerError::InvalidXmp(m)) => assert_eq!(m, "failed to decode xmp attribute: boom"),
        other => panic!("unexpected {:?}", other),
    }
    let invalid = vec![XmlToken::Invalid { position: 17, message: "oops".to_string() }];
    match scan_markers(&invalid) {
        Err(MarkerFixerError::InvalidXmp(m)) => assert_eq!(m, "invalid xmp xml at position 17: oops"),
        other => panic!("unexpected {:?}", other),
    }
}
