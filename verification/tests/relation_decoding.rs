use gliner::relation::{Relation, RelationErrorKind, RelationFormatError};
use gliner::span::Span;

#[test]
fn composite_label_round_trip() {
    let (subject, class) = Relation::decode("person <> works_for").unwrap();
    assert_eq!(subject, "person");
    assert_eq!(class, "works_for");
}

#[test]
fn label_without_separator_is_a_format_error() {
    let err = Relation::decode("person").unwrap_err();
    assert_eq!(err.kind, RelationErrorKind::InvalidRelationLabel);
    assert_eq!(err.label, "person");
}

#[test]
fn label_with_two_separators_is_a_format_error() {
    let err = Relation::decode("a <> b <> c").unwrap_err();
    assert_eq!(err.kind, RelationErrorKind::InvalidRelationLabel);
    assert_eq!(err.label, "a <> b <> c");
}

#[test]
fn relation_from_span_carries_fields_through() {
    let span = Span::new(
        2,
        10,
        14,
        "person <> works_for".to_string(),
        750000,
        "Acme".to_string(),
    );
    let rel = Relation::from(span).unwrap();
    assert_eq!(rel.subject(), "person");
    assert_eq!(rel.class(), "works_for");
    assert_eq!(rel.object(), "Acme");
    assert_eq!(rel.sequence(), 2);
    assert_eq!(rel.offsets(), (10, 14));
    assert_eq!(rel.probability(), 750000);
}

#[test]
fn relation_from_span_with_plain_label_fails() {
    let span = Span::new(0, 0, 4, "person".to_string(), 900000, "Anna".to_string());
    let err = Relation::from(span).unwrap_err();
    assert_eq!(err.kind, RelationErrorKind::InvalidRelationLabel);
    assert_eq!(err.label, "person");
}

#[test]
fn error_messages_name_the_offending_label() {
    let invalid = RelationFormatError::invalid_relation_label("oops");
    assert_eq!(invalid.message(), "invalid relation label format: oops");
    let unexpected = RelationFormatError::unexpected_relation_label("works_for");
    assert_eq!(unexpected.message(), "unexpected relation label: works_for");
}

#[test]
fn err_wraps_the_error() {
    let e = RelationFormatError::invalid_relation_label("x");
    let r: Result<u32, RelationFormatError> = e.err();
    assert_eq!(r.unwrap_err().kind, RelationErrorKind::InvalidRelationLabel);
}
