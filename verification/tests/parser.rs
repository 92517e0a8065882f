use ledger::parser::{parse_state, parse_tags, parse_vtags, State};
use ledger::symbol::Tag;

#[test]
fn test_basic_tags() {
    let text = "This is a test :foo: and :bar:.";
    let tags = parse_tags(text).unwrap();
    assert_eq!(tags, vec![Tag::new("foo"), Tag::new("bar")]);

    let text = "No tags here!";
    let tags = parse_tags(text).unwrap();
    assert!(tags.is_empty());
}

#[test]
fn test_adjacent_tags() {
    let text = "This :a:b:c: is a test.";
    let tags = parse_tags(text).unwrap();
    assert_eq!(tags, vec![Tag::new("a"), Tag::new("b"), Tag::new("c")]);

    let text = "This :a::b:c: is a test.";
    let tags = parse_tags(text).unwrap();
    assert_eq!(tags, vec![Tag::new("a"), Tag::new("b"), Tag::new("c")]);

    let text = "This :a:b::c: is a test.";
    let tags = parse_tags(text).unwrap();
    assert_eq!(tags, vec![Tag::new("a"), Tag::new("b"), Tag::new("c")]);

    let text = "This :a::b::c: is a test.";
    let tags = parse_tags(text).unwrap();
    assert_eq!(tags, vec![Tag::new("a"), Tag::new("b"), Tag::new("c")]);

    let text = "This :a:b:c: is a and a TagValue: Some values";
    let tags = parse_tags(text).unwrap();
    let vtag = parse_vtags(text).unwrap();
    assert_eq!(tags, vec![Tag::new("a"), Tag::new("b"), Tag::new("c")]);
    assert_eq!(
        vtag,
        Some((Tag::new("TagValue"), String::from("Some values")))
    );

    let text = "This :a::b:c: is a and a TagValue: Some values";
    let tags = parse_tags(text).unwrap();
    let vtag = parse_vtags(text).unwrap();
    assert_eq!(tags, vec![Tag::new("a"), Tag::new("b"), Tag::new("c")]);
    assert_eq!(
        vtag,
        Some((Tag::new("TagValue"), String::from("Some values")))
    );

    let text = "This :a:b::c: is a and a TagValue: Some values";
    let tags = parse_tags(text).unwrap();
    let vtag = parse_vtags(text).unwrap();
    assert_eq!(tags, vec![Tag::new("a"), Tag::new("b"), Tag::new("c")]);
    assert_eq!(
        vtag,
        Some((Tag::new("TagValue"), String::from("Some values")))
    );

    let text = "This :a::b::c: is a and a TagValue: Some values";
    let tags = parse_tags(text).unwrap();
    let vtag = parse_vtags(text).unwrap();
    assert_eq!(tags, vec![Tag::new("a"), Tag::new("b"), Tag::new("c")]);
    assert_eq!(
        vtag,
        Some((Tag::new("TagValue"), String::from("Some values")))
    );
}

#[test]
fn test_empty_tag() {
    let text = "Text with empty tag";
    let tags = parse_tags(text).unwrap();
    assert!(tags.is_empty());

    let text = "Text with empty tag :";
    let tags = parse_tags(text).unwrap();
    assert!(tags.is_empty());

    let text = "Text with empty tag ::";
    let tags = parse_tags(text).unwrap();
    assert!(tags.is_empty());
}

#[test]
fn test_basic_vtags() {
    let text = "test  foo: and bar";
    let vtag = parse_vtags(text).unwrap();
    assert_eq!(vtag, Some((Tag::new("foo"), String::from("and bar"))));

    let text = "xy :loo: and bar";
    let vtag = parse_vtags(text).unwrap();
    assert_eq!(vtag, None);

    let text = "A tets :tag:  foo: and bar";
    let vtag = parse_vtags(text).unwrap();
    assert_eq!(vtag, Some((Tag::new("foo"), String::from("and bar"))));

    let text = "A tets :tag:  foo: and bar :xyz:";
    let vtag = parse_vtags(text).unwrap();
    assert_eq!(vtag, Some((Tag::new("foo"), String::from("and bar :xyz:"))));

    let text = "No tags here!";
    let vtag = parse_vtags(text).unwrap();
    assert_eq!(vtag, None);
}

#[test]
fn tags_with_whitespace_inside_are_skipped() {
    let tags = parse_tags(":a b:c:").unwrap();
    assert_eq!(tags, vec![Tag::new("c")]);
    let tags = parse_tags("no colon").unwrap();
    assert!(tags.is_empty());
}

#[test]
fn vtags_at_start_and_trimmed() {
    assert_eq!(
        parse_vtags("  memo: latte  ").unwrap(),
        Some((Tag::new("memo"), String::from("latte")))
    );
    assert_eq!(parse_vtags("memo:latte").unwrap(), None);
    assert_eq!(parse_vtags("memo:").unwrap(), None);
}

#[test]
fn state_marks() {
    assert_eq!(parse_state("!"), State::Pending);
    assert_eq!(parse_state("*"), State::Cleared);
}
