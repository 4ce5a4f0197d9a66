use osm_git_replay::changesets::{changeset_from_attributes, Changeset};
use osm_git_replay::commit::{
    commit_message, decimal_text, note_text, object_file_name, plan_commit, plan_commit_at, plan_commits,
    readme_text, CommitPlan,
};
use osm_git_replay::objects::{parse_changes, Delta};
use osm_git_replay::replay::{changeset_ids, file_operations, group_by_changeset, ChangesetGroup, FileOp};
use osm_git_replay::sequence::{parse_position, SequencePosition};
use osm_git_replay::tags::Tags;
use osm_git_replay::text::{check_decimal, parse_u64, replace_all, trim};
use osm_git_replay::xml::{Attr, XmlSource};
use std::collections::HashSet;

fn deltas_of(xml: &str) -> Vec<Delta> {
    let mut src = XmlSource::new(quick_xml::Reader::from_reader(xml.as_bytes()));
    parse_changes(&mut src).unwrap()
}

fn changeset(pairs: &[(&str, &str)], tags: &[(&str, &str)]) -> Changeset {
    let attrs: Vec<Attr> = pairs
        .iter()
        .map(|(k, v)| Attr { key: k.to_string(), value: v.to_string() })
        .collect();
    let mut c = changeset_from_attributes(&attrs).unwrap();
    for (k, v) in tags {
        c.tags.insert(k.to_string(), v.to_string());
    }
    c
}

fn alice() -> Changeset {
    changeset(
        &[("id", "100"), ("user", "alice"), ("uid", "7"), ("created_at", "2020-01-01T00:00:00Z"), ("open", "false")],
        &[("comment", "first")],
    )
}

/// Applies the operations to a set of ids that have files.
fn apply(files: &mut HashSet<u64>, ops: &[FileOp]) {
    for op in ops {
        match op {
            FileOp::Write { id, .. } => {
                files.insert(*id);
            }
            FileOp::Remove { id } => {
                files.remove(id);
            }
        }
    }
}

fn one_commit(deltas: &Vec<Delta>, found: &Vec<Changeset>) -> Vec<CommitPlan> {
    let groups = group_by_changeset(deltas);
    plan_commits(&groups, found)
}

#[test]
fn single_create_commit() {
    let deltas = deltas_of(r#"<osmChange><create><node id="1" lat="10.0" lon="20.0" changeset="100" version="1"/></create></osmChange>"#);
    let ops = file_operations(&deltas);
    assert!(matches!(ops[..], [FileOp::Write { id: 1, delta: 0 }]));
    let mut files = HashSet::new();
    apply(&mut files, &ops);
    assert!(files.contains(&1));
    let plans = one_commit(&deltas, &vec![alice()]);
    assert_eq!(plans.len(), 1);
    let p = &plans[0];
    assert_eq!(p.changeset_id, 100);
    assert_eq!(p.author_name, "alice");
    assert_eq!(p.author_email, "alice@osm");
    assert_eq!(p.author_time, 1577836800);
    assert_eq!(p.message, "first");
    assert_eq!(p.note, "Legacy Changeset ID: 100\ncomment: first");
    assert_eq!(p.added_paths, vec!["1.yaml".to_string()]);
    assert!(p.removed_paths.is_empty());
}

#[test]
fn create_then_delete_in_one_file() {
    let deltas = deltas_of(r#"<osmChange><create><node id="1" lat="10.0" lon="20.0" changeset="100" version="1"/></create><delete><node id="1" changeset="100" version="2"/></delete></osmChange>"#);
    let ops = file_operations(&deltas);
    let mut files = HashSet::new();
    apply(&mut files, &ops);
    assert!(!files.contains(&1));
    let plans = one_commit(&deltas, &vec![alice()]);
    assert_eq!(plans.len(), 1);
    assert!(plans[0].added_paths.is_empty());
    assert_eq!(plans[0].removed_paths, vec!["1.yaml".to_string()]);
}

#[test]
fn modify_without_create_writes_the_file() {
    let deltas = deltas_of(r#"<osmChange><modify><node id="2" lat="1" lon="2" changeset="200" version="3"/></modify></osmChange>"#);
    let ops = file_operations(&deltas);
    assert!(matches!(ops[..], [FileOp::Write { id: 2, delta: 0 }]));
    let mut files = HashSet::new();
    apply(&mut files, &ops);
    assert!(files.contains(&2));
    let c = changeset(&[("id", "200"), ("created_at", "2020-01-01T00:00:00Z"), ("open", "true")], &[]);
    let plans = one_commit(&deltas, &vec![c]);
    assert_eq!(plans.len(), 1);
    assert_eq!(plans[0].changeset_id, 200);
    assert_eq!(plans[0].author_name, "Unknown");
    assert_eq!(plans[0].message, "");
    assert_eq!(plans[0].note, "Legacy Changeset ID: 200");
    assert_eq!(plans[0].added_paths, vec!["2.yaml".to_string()]);
}

#[test]
fn missing_changeset_gets_no_commit() {
    let deltas = deltas_of(r#"<osmChange><create><node id="3" lat="1" lon="2" changeset="999"/><node id="4" lat="1" lon="2" changeset="100"/></create></osmChange>"#);
    let ops = file_operations(&deltas);
    assert_eq!(ops.len(), 2);
    let plans = one_commit(&deltas, &vec![alice()]);
    assert_eq!(plans.len(), 1);
    assert_eq!(plans[0].changeset_id, 100);
}

#[test]
fn groups_are_in_ascending_changeset_order() {
    let deltas = deltas_of(r#"<osmChange><create><node id="1" lat="1" lon="2" changeset="30"/><node id="2" lat="1" lon="2" changeset="10"/><node id="3" lat="1" lon="2" changeset="30"/></create><delete><node id="9" changeset="20"/></delete></osmChange>"#);
    let groups: Vec<ChangesetGroup> = group_by_changeset(&deltas);
    assert_eq!(changeset_ids(&groups), vec![10, 20, 30]);
    assert_eq!(groups[0].added, vec![2]);
    assert_eq!(groups[1].removed, vec![9]);
    assert!(groups[1].added.is_empty());
    assert_eq!(groups[2].added, vec![1, 3]);
}

#[test]
fn delete_wins_over_every_create_of_its_changeset() {
    let deltas = deltas_of(r#"<osmChange><create><node id="1" lat="1" lon="2" changeset="5"/></create><modify><node id="1" lat="1" lon="2" changeset="5"/></modify><delete><node id="1" changeset="5"/></delete><create><node id="1" lat="3" lon="4" changeset="5"/><node id="2" lat="3" lon="4" changeset="5"/></create></osmChange>"#);
    let groups = group_by_changeset(&deltas);
    assert_eq!(groups.len(), 1);
    assert_eq!(groups[0].added, vec![2]);
    assert_eq!(groups[0].removed, vec![1]);
    let mut files = HashSet::new();
    apply(&mut files, &file_operations(&deltas));
    assert!(files.contains(&1));
    assert!(files.contains(&2));
}

#[test]
fn commit_count_over_two_files() {
    let first = deltas_of(r#"<osmChange><create><node id="1" lat="1" lon="2" changeset="100"/><node id="2" lat="1" lon="2" changeset="100"/><node id="3" lat="1" lon="2" changeset="999"/></create></osmChange>"#);
    let second = deltas_of(r#"<osmChange><modify><node id="1" lat="1" lon="2" changeset="100"/></modify></osmChange>"#);
    let found = vec![alice()];
    let total = 1 + one_commit(&first, &found).len() + one_commit(&second, &found).len();
    assert_eq!(total, 3);
}

#[test]
fn commit_time_prefers_closed_at_and_falls_back_to_epoch() {
    let group = ChangesetGroup { id: 7, added: vec![], removed: vec![] };
    let closed = changeset(
        &[("id", "7"), ("created_at", "2020-01-01T00:00:00Z"), ("closed_at", "2020-01-01T01:00:00Z"), ("open", "false")],
        &[],
    );
    assert_eq!(plan_commit(&group, &closed).author_time, 1577840400);
    let unreadable = changeset(&[("id", "7"), ("created_at", "yesterday"), ("open", "false")], &[]);
    assert_eq!(plan_commit(&group, &unreadable).author_time, 0);
    assert_eq!(plan_commit_at(&group, &unreadable, Some(12)).author_time, 12);
    assert_eq!(plan_commit_at(&group, &unreadable, None).author_time, 0);
}

#[test]
fn note_lists_tags_in_key_order_without_blank_keys() {
    let c = changeset(
        &[("id", "8"), ("created_at", "t"), ("open", "false")],
        &[("source", "survey"), ("  ", "blank"), ("comment", "  hello world \n"), ("created_by", "JOSM")],
    );
    assert_eq!(
        note_text(&c),
        "Legacy Changeset ID: 8\ncomment:   hello world \n\ncreated_by: JOSM\nsource: survey"
    );
    assert_eq!(commit_message(&c), "hello world");
}

#[test]
fn tags_keep_key_order_and_last_value() {
    let mut t = Tags::new();
    t.insert("b".to_string(), "1".to_string());
    t.insert("a".to_string(), "2".to_string());
    t.insert("b".to_string(), "3".to_string());
    t.insert("ab".to_string(), "4".to_string());
    let keys: Vec<(String, String)> = t.entries().clone();
    assert_eq!(
        keys,
        vec![
            ("a".to_string(), "2".to_string()),
            ("ab".to_string(), "4".to_string()),
            ("b".to_string(), "3".to_string())
        ]
    );
    assert_eq!(t.len(), 3);
    assert_eq!(t.get("c"), None);
}

#[test]
fn decimal_text_and_file_names() {
    assert_eq!(decimal_text(0), "0");
    assert_eq!(decimal_text(1577836800), "1577836800");
    assert_eq!(decimal_text(u64::MAX), "18446744073709551615");
    assert_eq!(object_file_name(42), "42.yaml");
}

#[test]
fn numbers_and_coordinates() {
    assert_eq!(parse_u64("18446744073709551615"), Some(u64::MAX));
    assert_eq!(parse_u64("18446744073709551616"), None);
    assert_eq!(parse_u64("+5"), Some(5));
    assert_eq!(parse_u64(""), None);
    assert_eq!(parse_u64("+"), None);
    assert_eq!(parse_u64("-1"), None);
    assert_eq!(parse_u64("12a"), None);
    assert!(check_decimal("10.0"));
    assert!(check_decimal("-0.5"));
    assert!(check_decimal(".25"));
    assert!(check_decimal("7"));
    assert!(!check_decimal("1.2.3"));
    assert!(!check_decimal("-"));
    assert!(!check_decimal("."));
    assert!(check_decimal("1e5"));
    assert!(check_decimal("1e-7"));
    assert!(check_decimal("-1.5E+3"));
    assert!(!check_decimal("1e"));
    assert!(!check_decimal("e5"));
    assert!(!check_decimal("1e5.0"));
}

#[test]
fn trimming_and_replacing() {
    assert_eq!(trim("  first \t"), "first");
    assert_eq!(trim(" \u{3000} "), "");
    assert_eq!(replace_all("a$x$xb", "$x", "yz"), "ayzyzb");
    assert_eq!(
        readme_text("Data from $server_url, made by version $version.", "https://example.org", "0.1.0"),
        "Data from https://example.org, made by version 0.1.0."
    );
}

#[test]
fn sequence_positions() {
    let p = parse_position("001/999/999").unwrap();
    assert_eq!(p, SequencePosition { top: 1, middle: 999, bottom: 999 });
    assert_eq!(p.next(), Some(SequencePosition { top: 2, middle: 0, bottom: 0 }));
    let q = parse_position("000/000/041").unwrap();
    assert_eq!(q.next(), Some(SequencePosition { top: 0, middle: 0, bottom: 42 }));
    assert_eq!(parse_position("999/999/999").unwrap().next(), None);
    assert_eq!(parse_position("000/000/00"), None);
    assert_eq!(parse_position("000-000-000"), None);
    assert_eq!(parse_position("0a0/000/000"), None);
}
