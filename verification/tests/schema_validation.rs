use gliner::context::{EntityContext, RelationContext};
use gliner::decoded::SpanOutput;
use gliner::relation::{RelationErrorKind, SpanOutputToRelationOutput};
use gliner::schema::RelationSchema;
use gliner::span::Span;

fn relation_span(text: &str) -> Span {
    Span::new(0, 10, 14, "person <> works_for".to_string(), 900000, text.to_string())
}

fn works_for_schema() -> RelationSchema {
    let mut schema = RelationSchema::new();
    schema.add("works_for".to_string(), vec!["organization".to_string()]);
    schema
}

fn output_of(span: Span) -> SpanOutput {
    SpanOutput::new(vec!["some text".to_string()], vec!["person".to_string()], vec![vec![span]])
}

#[test]
fn object_with_wrong_label_is_excluded() {
    let schema = works_for_schema();
    let mut ctx = EntityContext::new();
    ctx.add("Acme".to_string(), "location".to_string());
    let stage = SpanOutputToRelationOutput::new(&schema);
    let out = stage.apply(output_of(relation_span("Acme")), &RelationContext::new(ctx)).unwrap();
    assert_eq!(out.relations.len(), 1);
    assert!(out.relations[0].is_empty());
}

#[test]
fn object_with_one_permitted_label_is_included() {
    let schema = works_for_schema();
    let mut ctx = EntityContext::new();
    ctx.add("Acme".to_string(), "organization".to_string());
    ctx.add("Acme".to_string(), "location".to_string());
    let stage = SpanOutputToRelationOutput::new(&schema);
    let out = stage.apply(output_of(relation_span("Acme")), &RelationContext::new(ctx)).unwrap();
    assert_eq!(out.relations.len(), 1);
    assert_eq!(out.relations[0].len(), 1);
    let rel = &out.relations[0][0];
    assert_eq!(rel.subject(), "person");
    assert_eq!(rel.class(), "works_for");
    assert_eq!(rel.object(), "Acme");
}

#[test]
fn ungrounded_object_is_dropped_silently() {
    let schema = works_for_schema();
    let ctx = EntityContext::new();
    let stage = SpanOutputToRelationOutput::new(&schema);
    let out = stage.apply(output_of(relation_span("Acme")), &RelationContext::new(ctx)).unwrap();
    assert!(out.relations[0].is_empty());
}

#[test]
fn undeclared_relation_type_is_a_hard_error() {
    let schema = RelationSchema::new();
    let mut ctx = EntityContext::new();
    ctx.add("Acme".to_string(), "organization".to_string());
    let stage = SpanOutputToRelationOutput::new(&schema);
    let err = stage
        .apply(output_of(relation_span("Acme")), &RelationContext::new(ctx))
        .unwrap_err();
    assert_eq!(err.kind, RelationErrorKind::UnexpectedRelationLabel);
    assert_eq!(err.label, "works_for");
}

#[test]
fn malformed_label_aborts_the_call() {
    let schema = works_for_schema();
    let mut ctx = EntityContext::new();
    ctx.add("Acme".to_string(), "organization".to_string());
    let span = Span::new(0, 0, 4, "noseparator".to_string(), 800000, "Acme".to_string());
    let stage = SpanOutputToRelationOutput::new(&schema);
    let err = stage.apply(output_of(span), &RelationContext::new(ctx)).unwrap_err();
    assert_eq!(err.kind, RelationErrorKind::InvalidRelationLabel);
    assert_eq!(err.label, "noseparator");
}

#[test]
fn texts_and_entities_are_carried_through() {
    let schema = works_for_schema();
    let mut ctx = EntityContext::new();
    ctx.add("Acme".to_string(), "organization".to_string());
    let stage = SpanOutputToRelationOutput::new(&schema);
    let out = stage.apply(output_of(relation_span("Acme")), &RelationContext::new(ctx)).unwrap();
    assert_eq!(out.texts, vec!["some text".to_string()]);
    assert_eq!(out.entities, vec!["person".to_string()]);
}

#[test]
fn rendered_table_lists_each_relation() {
    let schema = works_for_schema();
    let mut ctx = EntityContext::new();
    ctx.add("Acme".to_string(), "organization".to_string());
    let stage = SpanOutputToRelationOutput::new(&schema);
    let out = stage.apply(output_of(relation_span("Acme")), &RelationContext::new(ctx)).unwrap();
    assert_eq!(out.render(), "0 | person | works_for | Acme | 90.0%\n");
}

#[test]
fn entity_context_collects_all_labels_of_a_text() {
    let mut ctx = EntityContext::new();
    ctx.add("Acme".to_string(), "organization".to_string());
    ctx.add("Anna".to_string(), "person".to_string());
    ctx.add("Acme".to_string(), "location".to_string());
    let labels = ctx.get(&"Acme".to_string()).unwrap();
    assert_eq!(labels, vec!["organization".to_string(), "location".to_string()]);
    assert!(ctx.get(&"Nobody".to_string()).is_none());
}
