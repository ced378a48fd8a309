use undrift_gpx::{convert, gpx_transform, lookup_conversion, u64_to_string, Conversion, Error};
use undrift_gpx::depth::PathTracker;

/// A simplified view of a document: open/close/text events with names,
/// attribute lists in order, and whitespace-only text dropped.
#[derive(Debug, PartialEq, Clone)]
enum Ev {
    Open(String, Vec<(String, String)>),
    Empty(String, Vec<(String, String)>),
    Close(String),
    Text(String),
}

fn parse_events(doc: &[u8]) -> Vec<Ev> {
    let mut reader = quick_xml::Reader::from_reader(doc);
    let mut out = Vec::new();
    loop {
        match reader.read_event().expect("well-formed document") {
            quick_xml::events::Event::Eof => break,
            quick_xml::events::Event::Start(e) => {
                let name = e.name().as_ref().to_string();
                let mut attrs = Vec::new();
                for a in e.attributes() {
                    let a = a.expect("well-formed attribute");
                    attrs.push((a.key.as_ref().to_string(), a.value.into_owned()));
                }
                out.push(Ev::Open(name, attrs));
            }
            quick_xml::events::Event::Empty(e) => {
                let name = e.name().as_ref().to_string();
                let mut attrs = Vec::new();
                for a in e.attributes() {
                    let a = a.expect("well-formed attribute");
                    attrs.push((a.key.as_ref().to_string(), a.value.into_owned()));
                }
                out.push(Ev::Empty(name, attrs));
            }
            quick_xml::events::Event::End(e) => {
                out.push(Ev::Close(e.name().as_ref().to_string()));
            }
            quick_xml::events::Event::Text(t) => {
                let t = t.xml10_content().into_owned();
                if !t.trim().is_empty() {
                    out.push(Ev::Text(t));
                }
            }
            _ => {}
        }
    }
    out
}

#[test]
fn lookup_finds_all_six() {
    assert!(matches!(lookup_conversion("bd-gcj"), Some(Conversion::BdToGcj)));
    assert!(matches!(lookup_conversion("bd-wgs"), Some(Conversion::BdToWgs)));
    assert!(matches!(lookup_conversion("gcj-bd"), Some(Conversion::GcjToBd)));
    assert!(matches!(lookup_conversion("gcj-wgs"), Some(Conversion::GcjToWgs)));
    assert!(matches!(lookup_conversion("wgs-bd"), Some(Conversion::WgsToBd)));
    assert!(matches!(lookup_conversion("wgs-gcj"), Some(Conversion::WgsToGcj)));
    assert!(lookup_conversion("wgs-wgs").is_none());
    assert!(lookup_conversion("").is_none());
    assert!(lookup_conversion("BD-GCJ").is_none());
}

#[test]
fn conversion_ids_are_registered() {
    let ids = undrift_gpx::registry::conversion_ids();
    assert_eq!(
        ids,
        vec!["bd-gcj", "bd-wgs", "gcj-bd", "gcj-wgs", "wgs-bd", "wgs-gcj"]
    );
    for id in ids {
        assert!(lookup_conversion(id).is_some());
    }
}

#[test]
fn example_scenario_converts_trkpt() {
    let input = br#"<gpx><trk><trkseg><trkpt lat="31.23" lon="121.47" ele="10"><ele>10</ele></trkpt></trkseg></trk></gpx>"#;
    let out = gpx_transform(input, &Conversion::GcjToWgs).expect("pass succeeds");
    let evs = parse_events(&out);
    let (exp_lat, exp_lon) = undrift_gps::gcj_to_wgs(31.23, 121.47);
    let expected = vec![
        Ev::Open("gpx".into(), vec![]),
        Ev::Open("trk".into(), vec![]),
        Ev::Open("trkseg".into(), vec![]),
        Ev::Open(
            "trkpt".into(),
            vec![
                ("ele".into(), "10".into()),
                ("lat".into(), exp_lat.to_string()),
                ("lon".into(), exp_lon.to_string()),
            ],
        ),
        Ev::Open("ele".into(), vec![]),
        Ev::Text("10".into()),
        Ev::Close("ele".into()),
        Ev::Close("trkpt".into()),
        Ev::Close("trkseg".into()),
        Ev::Close("trk".into()),
        Ev::Close("gpx".into()),
    ];
    assert_eq!(evs, expected);
}

#[test]
fn path_exactness_wrong_chain_untouched() {
    // trkpt not reached through gpx/trk/trkseg: attributes must stay as they
    // are, in place.
    let input = br#"<gpx><trk><trkpt lat="31.23" lon="121.47"><sub>x</sub></trkpt></trk></gpx>"#;
    let out = gpx_transform(input, &Conversion::GcjToWgs).expect("pass succeeds");
    let evs = parse_events(&out);
    assert!(evs.contains(&Ev::Open(
        "trkpt".into(),
        vec![("lat".into(), "31.23".into()), ("lon".into(), "121.47".into())]
    )));
}

#[test]
fn path_exactness_decoy_names_untouched() {
    // The names overlap the path but the chain differs: nothing converts,
    // not even the self-closing trkpt.
    let input = br#"<trk><gpx><trkseg><trkpt lat="39.1" lon="116.1"/></trkseg></gpx></trk>"#;
    let out = gpx_transform(input, &Conversion::BdToGcj).expect("pass succeeds");
    let evs = parse_events(&out);
    assert!(evs.contains(&Ev::Empty(
        "trkpt".into(),
        vec![("lat".into(), "39.1".into()), ("lon".into(), "116.1".into())]
    )));
}

#[test]
fn self_closing_trkpt_at_path_converted() {
    // A self-closing element at the exact path is an element at the path:
    // it is dispatched and rewritten, and stays self-closing.
    let input = br#"<gpx><trk><trkseg><trkpt lat="39.0" lon="116.0" ele="7"/></trkseg></trk></gpx>"#;
    let out = gpx_transform(input, &Conversion::GcjToWgs).expect("pass succeeds");
    let (exp_lat, exp_lon) = undrift_gps::gcj_to_wgs(39.0, 116.0);
    let evs = parse_events(&out);
    assert!(evs.contains(&Ev::Empty(
        "trkpt".into(),
        vec![
            ("ele".into(), "7".into()),
            ("lat".into(), exp_lat.to_string()),
            ("lon".into(), exp_lon.to_string()),
        ]
    )));
    assert!(!evs.iter().any(|e| matches!(e, Ev::Open(n, _) if n == "trkpt")));
}

#[test]
fn self_closing_missing_lon_unchanged() {
    let input = br#"<gpx><trk><trkseg><trkpt lat="39.0"/></trkseg></trk></gpx>"#;
    let out = gpx_transform(input, &Conversion::GcjToWgs).expect("pass succeeds");
    let evs = parse_events(&out);
    assert!(evs.contains(&Ev::Empty(
        "trkpt".into(),
        vec![("lat".into(), "39.0".into())]
    )));
}

#[test]
fn self_closing_bad_value_fatal() {
    let input = br#"<gpx><trk><trkseg><trkpt lat="abc" lon="1"/></trkseg></trk></gpx>"#;
    assert!(matches!(
        gpx_transform(input, &Conversion::GcjToWgs),
        Err(Error::ValueError(_))
    ));
}

#[test]
fn self_closing_nested_in_matched_trkpt_untouched() {
    // A self-closing trkpt one level below the matched one is not at the
    // path and passes through whole.
    let input = br#"<gpx><trk><trkseg><trkpt lat="39.0" lon="116.0"><trkpt lat="1" lon="2"/></trkpt></trkseg></trk></gpx>"#;
    let out = gpx_transform(input, &Conversion::GcjToWgs).expect("pass succeeds");
    let evs = parse_events(&out);
    assert!(evs.contains(&Ev::Empty(
        "trkpt".into(),
        vec![("lat".into(), "1".into()), ("lon".into(), "2".into())]
    )));
}

#[test]
fn single_dispatch_nested_trkpt_not_rematched() {
    let input = br#"<gpx><trk><trkseg><trkpt lat="39.0" lon="116.0"><trkpt lat="39.0" lon="116.0"><a>b</a></trkpt></trkpt></trkseg></trk></gpx>"#;
    let out = gpx_transform(input, &Conversion::GcjToBd).expect("pass succeeds");
    let evs = parse_events(&out);
    let (exp_lat, exp_lon) = undrift_gps::gcj_to_bd(39.0, 116.0);
    let trkpts: Vec<&Ev> = evs
        .iter()
        .filter(|e| matches!(e, Ev::Open(n, _) if n == "trkpt"))
        .collect();
    assert_eq!(trkpts.len(), 2);
    // The outer trkpt, at the exact path, is converted.
    assert_eq!(
        trkpts[0],
        &Ev::Open(
            "trkpt".into(),
            vec![
                ("lat".into(), exp_lat.to_string()),
                ("lon".into(), exp_lon.to_string())
            ]
        )
    );
    // The inner trkpt, one level too deep, is untouched.
    assert_eq!(
        trkpts[1],
        &Ev::Open(
            "trkpt".into(),
            vec![("lat".into(), "39.0".into()), ("lon".into(), "116.0".into())]
        )
    );
}

#[test]
fn attribute_order_preserved() {
    let input = br#"<gpx><trk><trkseg><trkpt a="1" lat="39.0" b="2" lon="116.0" c="3">x</trkpt></trkseg></trk></gpx>"#;
    let out = gpx_transform(input, &Conversion::WgsToBd).expect("pass succeeds");
    let evs = parse_events(&out);
    let (exp_lat, exp_lon) = undrift_gps::wgs_to_bd(39.0, 116.0);
    let trkpt = evs
        .iter()
        .find(|e| matches!(e, Ev::Open(n, _) if n == "trkpt"))
        .unwrap();
    assert_eq!(
        trkpt,
        &Ev::Open(
            "trkpt".into(),
            vec![
                ("a".into(), "1".into()),
                ("b".into(), "2".into()),
                ("c".into(), "3".into()),
                ("lat".into(), exp_lat.to_string()),
                ("lon".into(), exp_lon.to_string()),
            ]
        )
    );
}

#[test]
fn pass_through_is_idempotent_outside_china() {
    // Outside the converted region wgs-gcj maps a pair to itself, so the
    // pass only re-renders: a second pass changes nothing of the structure.
    let input =
        br#"<gpx><trk><trkseg><trkpt lat="10" lon="20">p</trkpt></trkseg></trk></gpx>"#;
    let once = gpx_transform(input, &Conversion::WgsToGcj).expect("first pass succeeds");
    let twice = gpx_transform(&once, &Conversion::WgsToGcj).expect("second pass succeeds");
    assert_eq!(parse_events(&once), parse_events(&twice));
    let evs = parse_events(&once);
    let trkpt = evs
        .iter()
        .find(|e| matches!(e, Ev::Open(n, _) if n == "trkpt"))
        .unwrap();
    assert_eq!(
        trkpt,
        &Ev::Open(
            "trkpt".into(),
            vec![("lat".into(), "10".into()), ("lon".into(), "20".into())]
        )
    );
}

#[test]
fn round_trip_of_composition() {
    // A forward conversion followed by its documented inverse lands within
    // the inverse's own tolerance of the original pair.
    let input =
        br#"<gpx><trk><trkseg><trkpt lat="39.0" lon="116.0">p</trkpt></trkseg></trk></gpx>"#;
    let forward = gpx_transform(input, &Conversion::WgsToGcj).expect("forward pass succeeds");
    let back = gpx_transform(&forward, &Conversion::GcjToWgs).expect("inverse pass succeeds");
    let evs = parse_events(&back);
    let trkpt = evs
        .iter()
        .find(|e| matches!(e, Ev::Open(n, _) if n == "trkpt"))
        .unwrap();
    if let Ev::Open(_, attrs) = trkpt {
        let lat: f64 = attrs[0].1.parse().unwrap();
        let lon: f64 = attrs[1].1.parse().unwrap();
        assert!((lat - 39.0).abs() < 1e-6, "lat {} drifted", lat);
        assert!((lon - 116.0).abs() < 1e-6, "lon {} drifted", lon);
    } else {
        unreachable!();
    }
}

#[test]
fn missing_lon_tolerated_unchanged() {
    let input = br#"<gpx><trk><trkseg><trkpt lat="39.0" x="y">p</trkpt></trkseg></trk></gpx>"#;
    let out = gpx_transform(input, &Conversion::GcjToWgs).expect("pass succeeds");
    let evs = parse_events(&out);
    let trkpt = evs
        .iter()
        .find(|e| matches!(e, Ev::Open(n, _) if n == "trkpt"))
        .unwrap();
    assert_eq!(
        trkpt,
        &Ev::Open(
            "trkpt".into(),
            vec![("lat".into(), "39.0".into()), ("x".into(), "y".into())]
        )
    );
}

#[test]
fn missing_both_tolerated_unchanged() {
    let input = br#"<gpx><trk><trkseg><trkpt ele="5">p</trkpt></trkseg></trk></gpx>"#;
    let out = gpx_transform(input, &Conversion::GcjToWgs).expect("pass succeeds");
    let evs = parse_events(&out);
    assert!(evs.contains(&Ev::Open("trkpt".into(), vec![("ele".into(), "5".into())])));
}

#[test]
fn malformed_lat_is_fatal_value_error() {
    let input =
        br#"<gpx><trk><trkseg><trkpt lat="abc" lon="116.0">p</trkpt></trkseg></trk></gpx>"#;
    match gpx_transform(input, &Conversion::GcjToWgs) {
        Err(Error::ValueError(pos)) => assert!(pos > 0),
        other => panic!("expected a value error, got {:?}", other),
    }
}

#[test]
fn malformed_lat_without_lon_still_fatal() {
    let input = br#"<gpx><trk><trkseg><trkpt lat="abc">p</trkpt></trkseg></trk></gpx>"#;
    assert!(matches!(
        gpx_transform(input, &Conversion::GcjToWgs),
        Err(Error::ValueError(_))
    ));
}

#[test]
fn bad_value_outside_path_ignored() {
    let input = br#"<gpx><other lat="abc">p</other><trk><trkseg><trkpt lat="1" lon="2">p</trkpt></trkseg></trk></gpx>"#;
    assert!(gpx_transform(input, &Conversion::WgsToGcj).is_ok());
}

#[test]
fn truncated_document_passes_through() {
    // The reader reports no error for a document that simply ends early;
    // the pass emits what it saw.
    let input = br#"<gpx><trk>"#;
    let out = gpx_transform(input, &Conversion::GcjToWgs).expect("pass succeeds");
    assert_eq!(
        parse_events(&out),
        vec![Ev::Open("gpx".into(), vec![]), Ev::Open("trk".into(), vec![])]
    );
}

#[test]
fn mismatched_close_is_xml_error() {
    let input = br#"<gpx><trk></trkseg></trk></gpx>"#;
    assert!(matches!(
        gpx_transform(input, &Conversion::GcjToWgs),
        Err(Error::XMLError(_))
    ));
}

#[test]
fn escaped_coordinate_value_is_unescaped_before_parsing() {
    // "3&#48;.5" unescapes to "30.5"; the pass must unescape before parsing,
    // or this would abort with a value error.
    let input = br#"<gpx><trk><trkseg><trkpt lat="3&#48;.5" lon="20">p</trkpt></trkseg></trk></gpx>"#;
    let out = gpx_transform(input, &Conversion::WgsToGcj).expect("pass succeeds");
    let (exp_lat, exp_lon) = undrift_gps::wgs_to_gcj(30.5, 20.0);
    let evs = parse_events(&out);
    assert!(evs.contains(&Ev::Open(
        "trkpt".into(),
        vec![
            ("lat".into(), exp_lat.to_string()),
            ("lon".into(), exp_lon.to_string())
        ]
    )));
}

#[test]
fn non_coordinate_escapes_kept_raw() {
    // The kept attributes carry their raw values: the escape sequence must
    // come out exactly once, neither unescaped nor escaped twice.
    let input = br#"<gpx><trk><trkseg><trkpt name="a&amp;b" lat="10" lon="20">p</trkpt></trkseg></trk></gpx>"#;
    let out = gpx_transform(input, &Conversion::WgsToGcj).expect("pass succeeds");
    let text = String::from_utf8(out).unwrap();
    assert!(text.contains("a&amp;b"));
    assert!(!text.contains("a&amp;amp;b"));
}

#[test]
fn quoted_value_in_kept_attribute_survives() {
    // A single-quoted value may hold a double quote; the rebuilt tag escapes
    // it, so re-reading yields the same single attribute, not two.
    let input = br#"<gpx><trk><trkseg><trkpt a='1" x' lat="10" lon="20">p</trkpt></trkseg></trk></gpx>"#;
    let out = gpx_transform(input, &Conversion::WgsToGcj).expect("pass succeeds");
    let evs = parse_events(&out);
    let trkpt = evs
        .iter()
        .find(|e| matches!(e, Ev::Open(n, _) if n == "trkpt"))
        .unwrap();
    if let Ev::Open(_, attrs) = trkpt {
        assert_eq!(attrs.len(), 3);
        assert_eq!(attrs[0].0, "a");
        assert_eq!(attrs[0].1, "1&quot; x");
    } else {
        unreachable!();
    }
}

#[test]
fn malformed_escape_on_matched_element_is_fatal() {
    // A matched element's attributes are unescaped as a whole; a malformed
    // reference among them aborts the pass as a structural error.
    let input = br#"<gpx><trk><trkseg><trkpt note="&nope;" lat="1" lon="2">p</trkpt></trkseg></trk></gpx>"#;
    assert!(matches!(
        gpx_transform(input, &Conversion::WgsToGcj),
        Err(Error::XMLError(_))
    ));
}

#[test]
fn malformed_escape_outside_path_ignored() {
    let input = br#"<gpx><note a="&nope;">x</note><trk><trkseg><trkpt lat="1" lon="2">p</trkpt></trkseg></trk></gpx>"#;
    assert!(gpx_transform(input, &Conversion::WgsToGcj).is_ok());
}

#[test]
fn duplicate_coordinate_is_rejected() {
    let input = br#"<gpx><trk><trkseg><trkpt lat="1" lat="39.0" lon="116.0">p</trkpt></trkseg></trk></gpx>"#;
    // quick_xml checks duplicates while iterating attributes, so the pass
    // reports the element as malformed rather than converting it.
    assert!(matches!(
        gpx_transform(input, &Conversion::WgsToGcj),
        Err(Error::XMLError(_))
    ));
}

#[test]
fn convert_unknown_identifier() {
    let r = convert(b"<gpx></gpx>", "gcj-foo");
    assert_eq!(r.get_err(), "Unknown conversion of gcj-foo");
    assert!(r.get_data().is_empty());
}

#[test]
fn convert_known_identifier_round() {
    let input =
        br#"<gpx><trk><trkseg><trkpt lat="39.0" lon="116.0">p</trkpt></trkseg></trk></gpx>"#;
    let r = convert(input, "gcj-wgs");
    assert_eq!(r.get_err(), "");
    let direct = gpx_transform(input, &Conversion::GcjToWgs).unwrap();
    assert_eq!(r.get_data(), direct);
}

#[test]
fn convert_reports_pass_error_message() {
    let input = br#"<gpx><trk><trkseg><trkpt lat="abc" lon="1">p</trkpt></trkseg></trk></gpx>"#;
    let r = convert(input, "gcj-wgs");
    assert!(r.get_data().is_empty());
    assert!(r
        .get_err()
        .starts_with("failed to parse latitude or longitude at "));
}

#[test]
fn leading_equals_key_preserved() {
    // The attribute scanner takes the first key character unchecked, so a
    // key may begin with `=`; such an attribute is kept and survives the
    // rebuild of a matched element.
    let input = br#"<gpx><trk><trkseg><trkpt =x="5" lat="39.0" lon="116.0">p</trkpt></trkseg></trk></gpx>"#;
    let out = gpx_transform(input, &Conversion::GcjToWgs).expect("pass succeeds");
    let (exp_lat, exp_lon) = undrift_gps::gcj_to_wgs(39.0, 116.0);
    let evs = parse_events(&out);
    assert!(evs.contains(&Ev::Open(
        "trkpt".into(),
        vec![
            ("=x".into(), "5".into()),
            ("lat".into(), exp_lat.to_string()),
            ("lon".into(), exp_lon.to_string()),
        ]
    )));
}

#[test]
fn convert_reports_structural_message() {
    let input = br#"<gpx><trk></trkseg></trk></gpx>"#;
    let r = convert(input, "gcj-wgs");
    assert!(r.get_data().is_empty());
    assert!(r.get_err().starts_with("XML error: "));
}

#[test]
fn error_messages_render() {
    assert_eq!(
        Error::XMLError("boom".to_string()).message(),
        "XML error: boom"
    );
    assert_eq!(
        Error::ValueError(507).message(),
        "failed to parse latitude or longitude at 507 "
    );
}

#[test]
fn decimal_rendering() {
    assert_eq!(u64_to_string(0), "0");
    assert_eq!(u64_to_string(7), "7");
    assert_eq!(u64_to_string(10), "10");
    assert_eq!(u64_to_string(120034), "120034");
    assert_eq!(u64_to_string(u64::MAX), u64::MAX.to_string());
}

#[test]
fn tracker_follows_path_exactly() {
    let path = vec![
        "gpx".to_string(),
        "trk".to_string(),
        "trkseg".to_string(),
        "trkpt".to_string(),
    ];
    let mut t = PathTracker::new();
    assert!(!t.on_open(&"gpx".to_string(), &path));
    assert!(!t.on_open(&"trk".to_string(), &path));
    assert!(!t.on_open(&"trkseg".to_string(), &path));
    assert!(t.on_open(&"trkpt".to_string(), &path));
    // One level deeper: the same name no longer hits.
    assert!(!t.on_open(&"trkpt".to_string(), &path));
    t.on_close(&path);
    // Back at the right depth, a sibling trkpt hits again.
    t.on_close(&path);
    assert!(t.on_open(&"trkpt".to_string(), &path));
    t.on_close(&path);
    t.on_close(&path);
    t.on_close(&path);
    // A detour breaks the chain for the whole subtree.
    assert!(!t.on_open(&"detour".to_string(), &path));
    assert!(!t.on_open(&"trk".to_string(), &path));
    assert!(!t.on_open(&"trkseg".to_string(), &path));
    assert!(!t.on_open(&"trkpt".to_string(), &path));
}

#[test]
fn conversion_changes_values_inside_china() {
    // The converted text differs from the input text: the conversion really
    // ran (a pass that handed values back unchanged would fail here).
    let input =
        br#"<gpx><trk><trkseg><trkpt lat="39.0" lon="116.0">p</trkpt></trkseg></trk></gpx>"#;
    for (id, f) in [
        ("bd-gcj", undrift_gps::bd_to_gcj as fn(f64, f64) -> (f64, f64)),
        ("bd-wgs", undrift_gps::bd_to_wgs),
        ("gcj-bd", undrift_gps::gcj_to_bd),
        ("gcj-wgs", undrift_gps::gcj_to_wgs),
        ("wgs-bd", undrift_gps::wgs_to_bd),
        ("wgs-gcj", undrift_gps::wgs_to_gcj),
    ] {
        let r = convert(input, id);
        assert_eq!(r.get_err(), "", "conversion {} failed", id);
        let evs = parse_events(&r.get_data());
        let (exp_lat, exp_lon) = f(39.0, 116.0);
        assert!(
            evs.contains(&Ev::Open(
                "trkpt".into(),
                vec![
                    ("lat".into(), exp_lat.to_string()),
                    ("lon".into(), exp_lon.to_string())
                ]
            )),
            "conversion {} gave {:?}",
            id,
            evs
        );
        assert_ne!(exp_lat.to_string(), "39.0", "conversion {} was a no-op", id);
    }
}

#[test]
fn empty_document_passes() {
    let out = gpx_transform(b"", &Conversion::GcjToWgs).expect("empty pass succeeds");
    assert!(out.is_empty());
}
