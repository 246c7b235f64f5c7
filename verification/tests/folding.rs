use npaf::tag::{fold_stack, fold_stack_lvl, Tag};

fn unit(name: &str) -> Tag {
    Tag::new(name, None)
}

#[test]
fn a_new_unit_is_bare() {
    let tag = Tag::new("NAME", Some("John"));
    assert_eq!(tag.name, "NAME");
    assert_eq!(tag.content, Some("John".to_string()));
    assert!(tag.nested.is_empty());
    assert_eq!(tag.id, None);
    let tag = Tag::new("HEAD", None);
    assert_eq!(tag.content, None);
}

#[test]
fn nesting_appends_the_child_last() {
    let tag = unit("INDI").nest(unit("NAME")).nest(unit("SEX"));
    assert_eq!(tag.name, "INDI");
    assert_eq!(tag.nested.len(), 2);
    assert_eq!(tag.nested[0].name, "NAME");
    assert_eq!(tag.nested[1].name, "SEX");
}

#[test]
fn an_empty_stack_folds_into_nothing() {
    assert_eq!(fold_stack(Vec::new()), None);
}

#[test]
fn a_stack_of_one_folds_into_its_unit() {
    assert_eq!(fold_stack(vec![unit("HEAD")]), Some(unit("HEAD")));
}

#[test]
fn a_stack_folds_from_the_innermost_unit() {
    let folded = fold_stack(vec![unit("A").nest(unit("X")), unit("B"), unit("C")]).unwrap();
    let expected = unit("A").nest(unit("X")).nest(unit("B").nest(unit("C")));
    assert_eq!(folded, expected);
}

#[test]
fn folding_from_a_position_keeps_what_is_below() {
    let mut stack = vec![unit("A"), unit("B"), unit("C"), unit("D")];
    fold_stack_lvl(&mut stack, 1);
    assert_eq!(stack, vec![unit("A"), unit("B").nest(unit("C").nest(unit("D")))]);
}

#[test]
fn folding_from_the_top_changes_nothing() {
    let mut stack = vec![unit("A"), unit("B")];
    fold_stack_lvl(&mut stack, 1);
    assert_eq!(stack, vec![unit("A"), unit("B")]);
    fold_stack_lvl(&mut stack, 2);
    assert_eq!(stack, vec![unit("A"), unit("B")]);
    fold_stack_lvl(&mut stack, 7);
    assert_eq!(stack, vec![unit("A"), unit("B")]);
}

#[test]
fn folding_from_the_bottom_leaves_one_unit() {
    let mut stack = vec![unit("A"), unit("B"), unit("C")];
    fold_stack_lvl(&mut stack, 0);
    assert_eq!(stack, vec![unit("A").nest(unit("B").nest(unit("C")))]);
    let mut empty: Vec<Tag> = Vec::new();
    fold_stack_lvl(&mut empty, 0);
    assert!(empty.is_empty());
}
