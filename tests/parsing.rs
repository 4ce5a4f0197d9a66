use osm_git_replay::changesets::{
    changeset_from_attributes, find_changesets_in_cache, newest_changeset_archive, parse_changeset, Changeset,
};
use osm_git_replay::codec::{read_change_file, read_changeset_archive};
use osm_git_replay::objects::{
    object_from_attributes, parse_changes, read_object, Action, Delta, OSMObject, ObjectError, ObjectKind,
};
use osm_git_replay::xml::{Attr, XmlError, XmlEvent, XmlSource};
use std::io::Write;

fn gzip(text: &str) -> Vec<u8> {
    let mut enc = flate2::write::GzEncoder::new(Vec::new(), flate2::Compression::default());
    enc.write_all(text.as_bytes()).unwrap();
    enc.finish().unwrap()
}

fn zstd_bytes(text: &str) -> Vec<u8> {
    zstd::stream::encode_all(text.as_bytes(), 0).unwrap()
}

fn deltas_of(xml: &str) -> Result<Vec<Delta>, XmlError> {
    let mut src = XmlSource::new(quick_xml::Reader::from_reader(xml.as_bytes()));
    parse_changes(&mut src)
}

fn attrs(pairs: &[(&str, &str)]) -> Vec<Attr> {
    pairs
        .iter()
        .map(|(k, v)| Attr { key: k.to_string(), value: v.to_string() })
        .collect()
}

const ARCHIVE: &str = r#"<?xml version="1.0" encoding="UTF-8"?>
<osm version="0.6">
 <changeset id="50" created_at="2019-01-01T00:00:00Z" open="false" user="bob" uid="3"/>
 <changeset id="100" created_at="2020-01-01T00:00:00Z" open="false" user="alice" uid="7">
  <tag k="comment" v="first"/>
 </changeset>
 <changeset id="200" created_at="2020-02-01T00:00:00Z" closed_at="2020-02-01T01:00:00Z" open="false">
  <tag k="source" v="survey"/>
 </changeset>
</osm>
"#;

#[test]
fn single_create_node_is_read() {
    let xml = r#"<osmChange version="0.6"><create><node id="1" lat="10.0" lon="20.0" changeset="100" version="1"/></create></osmChange>"#;
    let deltas = read_change_file(&gzip(xml)).unwrap();
    assert_eq!(deltas.len(), 1);
    assert_eq!(deltas[0].action, Action::Create);
    match &deltas[0].object {
        OSMObject::Node(n) => {
            assert_eq!(n.id, 1);
            assert_eq!(n.changeset, 100);
            assert_eq!(n.lat, "10.0");
            assert_eq!(n.lon, "20.0");
            assert_eq!(n.file_version, "0.1.0");
            assert_eq!(n.legacy_object_version.as_deref(), Some("1"));
            assert_eq!(n.file_generator, None);
            assert!(n.tags.is_empty());
        }
        _ => panic!("expected a node"),
    }
}

#[test]
fn empty_change_file_has_no_deltas() {
    assert_eq!(read_change_file(&[]).unwrap().len(), 0);
    assert_eq!(read_change_file(&gzip("")).unwrap().len(), 0);
}

#[test]
fn corrupt_gzip_is_a_read_error() {
    let r = read_change_file(&[1, 2, 3, 4, 5, 6, 7, 8, 9, 10]);
    assert!(matches!(r, Err(XmlError::Read)));
}

#[test]
fn mismatched_end_tag_is_a_syntax_error() {
    let r = deltas_of(r#"<osmChange><create><node id="1" lat="1" lon="2" changeset="3"></way></create></osmChange>"#);
    assert!(matches!(r, Err(XmlError::Syntax)));
}

#[test]
fn way_keeps_node_order_and_repeats() {
    let xml = r#"<osmChange><create><way id="5" changeset="300" version="1"><nd ref="1"/><nd ref="2"/><nd ref="1"/><tag k="highway" v="path"/></way></create></osmChange>"#;
    let deltas = deltas_of(xml).unwrap();
    assert_eq!(deltas.len(), 1);
    match &deltas[0].object {
        OSMObject::Way(w) => {
            assert_eq!(w.id, 5);
            assert_eq!(w.changeset, 300);
            assert_eq!(w.nodes, vec![1, 2, 1]);
            assert_eq!(w.tags.get("highway").map(|s| s.as_str()), Some("path"));
        }
        _ => panic!("expected a way"),
    }
}

#[test]
fn relation_member_roles() {
    let xml = r#"<osmChange><modify><relation id="9" changeset="400"><member type="way" ref="5" role=""/><member type="node" ref="6" role="outer"/><member type="relation" ref="7"/></relation></modify></osmChange>"#;
    let deltas = deltas_of(xml).unwrap();
    assert_eq!(deltas[0].action, Action::Modify);
    match &deltas[0].object {
        OSMObject::Relation(r) => {
            assert_eq!(r.member.len(), 3);
            assert_eq!(r.member[0].member_type, "way");
            assert_eq!(r.member[0].ref_id, 5);
            assert_eq!(r.member[0].role, None);
            assert_eq!(r.member[1].role.as_deref(), Some("outer"));
            assert_eq!(r.member[2].member_type, "relation");
            assert_eq!(r.member[2].role, None);
        }
        _ => panic!("expected a relation"),
    }
}

#[test]
fn bad_object_is_skipped_and_siblings_kept() {
    let xml = r#"<osmChange><create><node id="1" lon="2" changeset="3"/><node id="x" lat="1" lon="2" changeset="3"/><node id="2" lat="1" lon="2" changeset="3"><tag k="a" v="b"/></node></create><delete><node id="4" changeset="3"/></delete></osmChange>"#;
    let deltas = deltas_of(xml).unwrap();
    assert_eq!(deltas.len(), 2);
    assert_eq!(deltas[0].object.id(), 2);
    assert_eq!(deltas[1].action, Action::Delete);
    assert_eq!(deltas[1].object.id(), 4);
}

#[test]
fn object_errors_by_attribute() {
    let missing_lat = attrs(&[("id", "1"), ("changeset", "2"), ("lon", "3")]);
    assert!(matches!(object_from_attributes(ObjectKind::Node, Action::Create, &missing_lat), Err(ObjectError::Missing)));
    match object_from_attributes(ObjectKind::Node, Action::Delete, &missing_lat) {
        Ok(OSMObject::Node(n)) => {
            assert_eq!(n.lat, "");
            assert_eq!(n.lon, "3");
        }
        _ => panic!("a deleted node needs no coordinates"),
    }
    let bad_id = attrs(&[("id", "abc"), ("changeset", "2")]);
    assert!(matches!(object_from_attributes(ObjectKind::Way, Action::Create, &bad_id), Err(ObjectError::Invalid)));
    let bad_lat = attrs(&[("id", "1"), ("changeset", "2"), ("lat", "12x"), ("lon", "3")]);
    assert!(matches!(object_from_attributes(ObjectKind::Node, Action::Create, &bad_lat), Err(ObjectError::Invalid)));
    let way = attrs(&[("id", "1"), ("changeset", "2"), ("generator", "g")]);
    match object_from_attributes(ObjectKind::Way, Action::Create, &way) {
        Ok(OSMObject::Way(w)) => assert_eq!(w.file_generator.as_deref(), Some("g")),
        _ => panic!("expected a way"),
    }
}

#[test]
fn attribute_values_are_unescaped() {
    let xml = r#"<osmChange><create><node id="1" lat="1" lon="2" changeset="3"><tag k="name" v="Fish &amp; Chips"/></node></create></osmChange>"#;
    let deltas = deltas_of(xml).unwrap();
    match &deltas[0].object {
        OSMObject::Node(n) => assert_eq!(n.tags.get("name").map(|s| s.as_str()), Some("Fish & Chips")),
        _ => panic!("expected a node"),
    }
}

#[test]
fn changeset_with_every_attribute() {
    let a = attrs(&[
        ("id", "42"),
        ("created_at", "2020-01-01T00:00:00Z"),
        ("closed_at", "2020-01-01T01:00:00Z"),
        ("open", "false"),
        ("user", "carol"),
        ("uid", "77"),
        ("min_lat", "-1.5"),
        ("max_lat", "2.5"),
        ("min_lon", "3.25"),
        ("max_lon", "4.0"),
    ]);
    let c = changeset_from_attributes(&a).unwrap();
    assert_eq!(c.id, 42);
    assert_eq!(c.created_at, "2020-01-01T00:00:00Z");
    assert_eq!(c.closed_at.as_deref(), Some("2020-01-01T01:00:00Z"));
    assert!(!c.open);
    assert_eq!(c.user, "carol");
    assert_eq!(c.uid, 77);
    assert_eq!(c.min_lat.as_deref(), Some("-1.5"));
    assert_eq!(c.max_lat.as_deref(), Some("2.5"));
    assert_eq!(c.min_lon.as_deref(), Some("3.25"));
    assert_eq!(c.max_lon.as_deref(), Some("4.0"));
}

#[test]
fn changeset_defaults_and_errors() {
    let c = changeset_from_attributes(&attrs(&[("id", "1"), ("created_at", "t"), ("open", "true")])).unwrap();
    assert_eq!(c.user, "Unknown");
    assert_eq!(c.uid, 0);
    assert!(c.open);
    assert!(matches!(
        changeset_from_attributes(&attrs(&[("id", "1"), ("open", "true")])),
        Err(ObjectError::Missing)
    ));
    assert!(matches!(
        changeset_from_attributes(&attrs(&[("id", "1"), ("created_at", "t"), ("open", "yes")])),
        Err(ObjectError::Invalid)
    ));
}

#[test]
fn archive_lookup_finds_wanted_changesets() {
    let found = read_changeset_archive(&zstd_bytes(ARCHIVE), &vec![200, 100]).unwrap();
    let ids: Vec<u64> = found.iter().map(|c| c.id).collect();
    assert_eq!(ids, vec![100, 200]);
    assert_eq!(found[0].user, "alice");
    assert_eq!(found[0].uid, 7);
    assert_eq!(found[0].tags.get("comment").map(|s| s.as_str()), Some("first"));
    assert_eq!(found[1].user, "Unknown");
    assert_eq!(found[1].tags.get("source").map(|s| s.as_str()), Some("survey"));
    assert_eq!(read_changeset_archive(&zstd_bytes(ARCHIVE), &vec![]).unwrap().len(), 0);
    assert_eq!(read_changeset_archive(&zstd_bytes(ARCHIVE), &vec![999]).unwrap().len(), 0);
}

#[test]
fn archive_reading_stops_once_all_are_found() {
    // the document breaks off after the wanted changeset: reading must not get there
    let text = r#"<osm><changeset id="50" created_at="t" open="false"/><changeset id="51" created_at="t" open="false"/><broken"#;
    let mut src = XmlSource::new(quick_xml::Reader::from_reader(text.as_bytes()));
    let found = parse_changeset(&mut src, &Some(vec![50])).unwrap();
    assert_eq!(found.len(), 1);
    let mut all = XmlSource::new(quick_xml::Reader::from_reader(ARCHIVE.as_bytes()));
    assert_eq!(parse_changeset(&mut all, &None).unwrap().len(), 3);
}

#[test]
fn first_changeset_of_an_id_is_found() {
    let found: Vec<Changeset> = read_changeset_archive(&zstd_bytes(ARCHIVE), &vec![50, 100]).unwrap();
    assert_eq!(find_changesets_in_cache(&found, 100).map(|c| c.user.clone()), Some("alice".to_string()));
    assert!(find_changesets_in_cache(&found, 999).is_none());
}

#[test]
fn newest_archive_is_chosen() {
    let names: Vec<String> = ["changesets-3.osm.zst", "notes.txt", "changesets-12.osm.zst", "changesets-12.osm.zst", "changesets-0.osm.zst"]
        .iter()
        .map(|s| s.to_string())
        .collect();
    assert_eq!(newest_changeset_archive(&names), Some(2));
    let none: Vec<String> = vec!["readme".to_string(), "changesets-0.osm.zst".to_string()];
    assert_eq!(newest_changeset_archive(&none), None);
}

#[test]
fn malformed_attributes_make_an_object_error() {
    let text = r#"<node id=1 lat="1" lon="2" changeset="3"/><node id="2" lat="1" lon="2" changeset="3"/>"#;
    let mut src = XmlSource::new(quick_xml::Reader::from_reader(text.as_bytes()));
    let first = match src.next() {
        Ok(XmlEvent::Start(e)) => e,
        _ => panic!("expected a start"),
    };
    assert!(matches!(first.attrs, Err(XmlError::Syntax)));
    let r = read_object(&mut src, &first, ObjectKind::Node, Action::Create);
    assert!(matches!(r, Ok(Err(ObjectError::Malformed))));
    let second = match src.next() {
        Ok(XmlEvent::Start(e)) => e,
        _ => panic!("expected a start"),
    };
    match read_object(&mut src, &second, ObjectKind::Node, Action::Create) {
        Ok(Ok(o)) => assert_eq!(o.id(), 2),
        _ => panic!("expected the second node"),
    }
    assert!(matches!(src.next(), Ok(XmlEvent::Eof)));
}

#[test]
fn unwanted_changeset_is_passed_over_whatever_its_attributes() {
    let text = r#"<osm><changeset id="50" open="false"><tag k="a" v="b"/></changeset><changeset id="51" created_at="t" open="true"><tag k="comment" v="x"/><tag k="comment" v="y"/></changeset></osm>"#;
    let mut src = XmlSource::new(quick_xml::Reader::from_reader(text.as_bytes()));
    let found = parse_changeset(&mut src, &Some(vec![51])).unwrap();
    assert_eq!(found.len(), 1);
    assert_eq!(found[0].id, 51);
    assert_eq!(found[0].tags.get("comment").map(|s| s.as_str()), Some("y"));
    let mut all = XmlSource::new(quick_xml::Reader::from_reader(text.as_bytes()));
    let every = parse_changeset(&mut all, &None).unwrap();
    assert_eq!(every.len(), 1);
}

#[test]
fn bad_child_ref_makes_the_object_an_error() {
    let xml = r#"<osmChange><create><way id="5" changeset="1"><nd ref="1"/><nd ref="x"/></way><relation id="6" changeset="1"><member type="node"/></relation><way id="7" changeset="1"><foo a="b"><x/></foo><nd ref="3"/></way></create></osmChange>"#;
    let deltas = deltas_of(xml).unwrap();
    assert_eq!(deltas.len(), 1);
    match &deltas[0].object {
        OSMObject::Way(w) => {
            assert_eq!(w.id, 7);
            assert_eq!(w.nodes, vec![3]);
        }
        _ => panic!("expected a way"),
    }
}
