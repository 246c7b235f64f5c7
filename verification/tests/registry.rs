use npaf::error::ParseError;
use npaf::record::{distinct, find_content, records, same_text, Record};
use npaf::registry::{descends_from, is_capital_char, link, parse_xref, relative, Link, Role};
use npaf::tag::Tag;

fn person(id: u64, name: &str, father: Option<&str>, mother: Option<&str>) -> Record {
    let mut tags = vec![Tag::new("NAME", Some(name))];
    if let Some(token) = father {
        tags.push(Tag::new("FATH", Some(token)));
    }
    if let Some(token) = mother {
        tags.push(Tag::new("MOTH", Some(token)));
    }
    Record {
        rtype: "I".to_string(),
        id,
        name: name.to_string(),
        father: None,
        mother: None,
        children: Vec::new(),
        tags,
    }
}

#[test]
fn reference_tokens_name_an_identifier() {
    assert_eq!(parse_xref("@I1@"), Some(1));
    assert_eq!(parse_xref("@FAM12@"), Some(12));
    assert_eq!(parse_xref("@I007@"), Some(7));
    assert_eq!(parse_xref("@I18446744073709551615@"), Some(u64::MAX));
}

#[test]
fn other_texts_name_no_identifier() {
    assert_eq!(parse_xref(""), None);
    assert_eq!(parse_xref("@"), None);
    assert_eq!(parse_xref("@@"), None);
    assert_eq!(parse_xref("@I@"), None);
    assert_eq!(parse_xref("@1@"), None);
    assert_eq!(parse_xref("@i1@"), None);
    assert_eq!(parse_xref("I1"), None);
    assert_eq!(parse_xref("@I1"), None);
    assert_eq!(parse_xref("I1@"), None);
    assert_eq!(parse_xref("@I1@ "), None);
    assert_eq!(parse_xref(" @I1@"), None);
    assert_eq!(parse_xref("@I1A@"), None);
    assert_eq!(parse_xref("@I18446744073709551616@"), None);
}

#[test]
fn capital_letters() {
    assert!(is_capital_char('A'));
    assert!(is_capital_char('Z'));
    assert!(!is_capital_char('a'));
    assert!(!is_capital_char('@'));
    assert!(!is_capital_char('['));
    assert!(!is_capital_char('\u{c9}'));
}

#[test]
fn texts_are_compared_as_a_whole() {
    assert!(same_text("NAME", "NAME"));
    assert!(same_text("", ""));
    assert!(!same_text("NAME", "NAM"));
    assert!(!same_text("NAME", "name"));
}

#[test]
fn the_first_unit_of_a_name_gives_the_content() {
    let tags = vec![
        Tag::new("SEX", Some("M")),
        Tag::new("NAME", Some("first")),
        Tag::new("NAME", Some("second")),
        Tag::new("NOTE", None),
    ];
    assert_eq!(find_content(&tags, "NAME"), Some(&"first".to_string()));
    assert_eq!(find_content(&tags, "SEX"), Some(&"M".to_string()));
    assert_eq!(find_content(&tags, "NOTE"), None);
    assert_eq!(find_content(&tags, "BIRT"), None);
    let tags = vec![Tag::new("NAME", None), Tag::new("NAME", Some("second"))];
    assert_eq!(find_content(&tags, "NAME"), None);
}

#[test]
fn a_record_names_its_relatives() {
    let record = person(3, "Child", Some("@I1@"), Some("@I2@"));
    assert_eq!(relative(&record, Role::Father), Some(1));
    assert_eq!(relative(&record, Role::Mother), Some(2));
    let record = person(3, "Child", None, Some("unknown"));
    assert_eq!(relative(&record, Role::Father), None);
    assert_eq!(relative(&record, Role::Mother), None);
}

#[test]
fn blocks_of_reference_lines_become_records() {
    let mut block = Tag::new("I5", Some("INDI")).nest(Tag::new("NAME", Some("John"))).nest(Tag::new("SEX", Some("M")));
    block.id = Some(5);
    let made = records(vec![Tag::new("HEAD", None), block, Tag::new("TRLR", None)]);
    assert_eq!(made.len(), 1);
    assert_eq!(made[0].rtype, "I");
    assert_eq!(made[0].id, 5);
    assert_eq!(made[0].name, "John");
    assert_eq!(made[0].tags.len(), 2);
    assert_eq!(Record::from_unit(Tag::new("HEAD", None)), None);
}

#[test]
fn a_record_without_a_name_unit_has_an_empty_name() {
    let mut block = Tag::new("FAM12", Some("FAM"));
    block.id = Some(12);
    let record = Record::from_unit(block).unwrap();
    assert_eq!(record.rtype, "FAM");
    assert_eq!(record.id, 12);
    assert_eq!(record.name, "");
    assert!(record.tags.is_empty());
}

#[test]
fn a_reference_to_an_earlier_record_is_resolved() {
    let (registry, dangling) =
        link(vec![person(1, "Father", None, None), person(2, "Child", Some("@I1@"), None)]).unwrap();
    assert!(dangling.is_empty());
    assert_eq!(registry.len(), 2);
    assert_eq!(registry[&2].father, Some(1));
    assert_eq!(registry[&2].mother, None);
    assert_eq!(registry[&1].children, vec![2]);
    assert!(registry[&2].children.is_empty());
}

#[test]
fn a_reference_to_a_later_record_is_resolved_after_the_pass() {
    let (registry, dangling) =
        link(vec![person(2, "Child", Some("@I1@"), Some("@I3@")), person(1, "Father", None, None), person(3, "Mother", None, None)])
            .unwrap();
    assert!(dangling.is_empty());
    assert_eq!(registry[&2].father, Some(1));
    assert_eq!(registry[&2].mother, Some(3));
    assert_eq!(registry[&1].children, vec![2]);
    assert_eq!(registry[&3].children, vec![2]);
}

#[test]
fn a_reference_to_no_record_dangles() {
    let (registry, dangling) =
        link(vec![person(1, "Child", Some("@I8@"), Some("@I9@")), person(2, "Other", None, Some("@I1@"))]).unwrap();
    assert_eq!(
        dangling,
        vec![Link { from: 1, role: Role::Father, to: 8 }, Link { from: 1, role: Role::Mother, to: 9 }]
    );
    assert_eq!(registry.len(), 2);
    assert_eq!(registry[&1].father, None);
    assert_eq!(registry[&1].mother, None);
    assert_eq!(registry[&2].mother, Some(1));
    assert_eq!(registry[&1].children, vec![2]);
}

#[test]
fn children_resolved_at_once_come_before_those_resolved_later() {
    // 5 names 9 before 9 stands in the registry, 10 and 11 name it after
    let (registry, _) = link(vec![
        person(5, "Early", Some("@I9@"), None),
        person(9, "Parent", None, None),
        person(10, "Late", Some("@I9@"), None),
        person(11, "Later", None, Some("@I9@")),
    ])
    .unwrap();
    assert_eq!(registry[&9].children, vec![10, 11, 5]);
}

#[test]
fn the_records_keep_what_they_held() {
    let (registry, _) = link(vec![person(1, "Father", None, None), person(2, "Child", Some("@I1@"), None)]).unwrap();
    assert_eq!(registry[&1].name, "Father");
    assert_eq!(registry[&1].rtype, "I");
    assert_eq!(registry[&1].id, 1);
    assert_eq!(registry[&2].tags, vec![Tag::new("NAME", Some("Child")), Tag::new("FATH", Some("@I1@"))]);
}

#[test]
fn two_records_with_one_identifier_are_refused() {
    let result = link(vec![person(1, "One", None, None), person(2, "Two", None, None), person(1, "Again", None, None)]);
    match result {
        Err(ParseError::Runtime(message)) => assert_eq!(message, "duplicate identifier"),
        _ => panic!("a structural failure was expected"),
    }
}

#[test]
fn no_records_give_an_empty_registry() {
    let (registry, dangling) = link(Vec::new()).unwrap();
    assert!(registry.is_empty());
    assert!(dangling.is_empty());
}

#[test]
fn records_with_different_identifiers_are_distinct() {
    assert!(distinct(&Vec::new()));
    assert!(distinct(&vec![person(1, "One", None, None), person(2, "Two", None, None)]));
    assert!(!distinct(&vec![person(1, "One", None, None), person(2, "Two", None, None), person(1, "Again", None, None)]));
}

#[test]
fn a_record_does_not_become_its_own_father() {
    let (registry, unresolved) = link(vec![person(1, "Self", Some("@I1@"), None)]).unwrap();
    assert_eq!(registry[&1].father, None);
    assert!(registry[&1].children.is_empty());
    assert_eq!(unresolved, vec![Link { from: 1, role: Role::Father, to: 1 }]);
}

#[test]
fn two_records_do_not_become_each_others_father() {
    let (registry, unresolved) =
        link(vec![person(1, "One", Some("@I2@"), None), person(2, "Two", Some("@I1@"), None)]).unwrap();
    assert_eq!(registry[&2].father, Some(1));
    assert_eq!(registry[&1].children, vec![2]);
    assert_eq!(registry[&1].father, None);
    assert!(registry[&2].children.is_empty());
    assert_eq!(unresolved, vec![Link { from: 1, role: Role::Father, to: 2 }]);
}

#[test]
fn a_reference_that_closes_a_longer_circle_is_left_unresolved() {
    // 1 names 3, 2 names 1, 3 names 2: the last attempt would close the circle
    let (registry, unresolved) = link(vec![
        person(1, "One", None, Some("@I3@")),
        person(2, "Two", Some("@I1@"), None),
        person(3, "Three", Some("@I2@"), None),
    ])
    .unwrap();
    assert_eq!(registry[&2].father, Some(1));
    assert_eq!(registry[&3].father, Some(2));
    assert_eq!(registry[&1].mother, None);
    assert_eq!(unresolved, vec![Link { from: 1, role: Role::Mother, to: 3 }]);
}

#[test]
fn references_to_later_records_are_resolved_along_a_line_of_descent() {
    let (registry, unresolved) = link(vec![
        person(3, "Child", Some("@I2@"), None),
        person(2, "Father", Some("@I1@"), Some("@I4@")),
        person(1, "Grandfather", None, None),
        person(4, "Grandmother", None, None),
        person(5, "Sibling", Some("@I2@"), None),
    ])
    .unwrap();
    assert!(unresolved.is_empty());
    assert_eq!(registry[&3].father, Some(2));
    assert_eq!(registry[&2].father, Some(1));
    assert_eq!(registry[&2].mother, Some(4));
    assert_eq!(registry[&5].father, Some(2));
    assert_eq!(registry[&2].children, vec![5, 3]);
    assert_eq!(registry[&1].children, vec![2]);
}

#[test]
fn ancestors_are_found_over_fathers_and_mothers() {
    let (registry, _) = link(vec![
        person(1, "Grandfather", None, None),
        person(2, "Mother", Some("@I1@"), None),
        person(3, "Child", Some("@I9@"), Some("@I2@")),
        person(4, "Other", None, None),
    ])
    .unwrap();
    assert!(descends_from(&registry, 3, 3));
    assert!(descends_from(&registry, 3, 2));
    assert!(descends_from(&registry, 3, 1));
    assert!(!descends_from(&registry, 1, 3));
    assert!(!descends_from(&registry, 3, 4));
    assert!(!descends_from(&registry, 3, 9));
    assert!(descends_from(&registry, 77, 77));
    assert!(!descends_from(&registry, 77, 1));
}
