use gliner::compose::{compose, Stage};
use gliner::context::{EntityContext, RelationContext};
use gliner::relation::SpanOutputToRelationOutput;
use gliner::schema::RelationSchema;
use gliner::decoded::{CellScore, ScoreInput, ScoresToDecoded};
use gliner::greedy::GreedySearch;

fn cell(sequence: usize, start_token: usize, end_token: usize, label: usize, score: u32) -> CellScore {
    CellScore { sequence, start_token, end_token, label, score }
}

fn input_one_sequence(cells: Vec<CellScore>) -> ScoreInput {
    ScoreInput {
        texts: vec!["Alice works".to_string()],
        entities: vec!["person".to_string(), "activity".to_string()],
        offsets: vec![vec![(0, 5), (6, 11)]],
        cells,
    }
}

#[test]
fn threshold_filters_cells_and_offsets_are_resolved() {
    let extractor = ScoresToDecoded::new(500000);
    let input = input_one_sequence(vec![
        cell(0, 0, 0, 0, 900000),
        cell(0, 0, 1, 1, 400000),
        cell(0, 1, 1, 1, 500000),
    ]);
    let out = extractor.apply(&input).unwrap();
    assert_eq!(out.spans.len(), 1);
    let spans = &out.spans[0];
    assert_eq!(spans.len(), 2);
    assert_eq!((spans[0].start, spans[0].end), (0, 5));
    assert_eq!(spans[0].class, "person");
    assert_eq!(spans[0].text, "Alice");
    assert_eq!(spans[0].probability, 900000);
    assert_eq!((spans[1].start, spans[1].end), (6, 11));
    assert_eq!(spans[1].class, "activity");
    assert_eq!(spans[1].text, "works");
}

#[test]
fn out_of_range_token_aborts_extraction() {
    let extractor = ScoresToDecoded::new(500000);
    let input = input_one_sequence(vec![cell(0, 0, 7, 0, 900000)]);
    let err = extractor.apply(&input).unwrap_err();
    assert_eq!(err.cell, 0);
}

#[test]
fn out_of_range_cell_below_threshold_is_ignored() {
    let extractor = ScoresToDecoded::new(500000);
    let input = input_one_sequence(vec![cell(0, 0, 7, 0, 100000), cell(0, 0, 0, 0, 600000)]);
    let out = extractor.apply(&input).unwrap();
    assert_eq!(out.spans[0].len(), 1);
    assert_eq!(out.spans[0][0].text, "Alice");
}

#[test]
fn unknown_sequence_index_aborts_extraction() {
    let extractor = ScoresToDecoded::new(500000);
    let input = input_one_sequence(vec![cell(0, 0, 0, 0, 600000), cell(3, 0, 0, 0, 700000)]);
    let err = extractor.apply(&input).unwrap_err();
    assert_eq!(err.cell, 1);
}

#[test]
fn unknown_label_index_aborts_extraction() {
    let extractor = ScoresToDecoded::new(500000);
    let input = input_one_sequence(vec![cell(0, 0, 0, 9, 700000)]);
    let err = extractor.apply(&input).unwrap_err();
    assert_eq!(err.cell, 0);
}

#[test]
fn composed_pipeline_extracts_then_resolves_overlaps() {
    // Two overlapping candidates above threshold: extraction keeps both,
    // the greedy stage keeps only the better one in flat mode.
    let pipeline = compose(ScoresToDecoded::new(500000), GreedySearch::new(true, false));
    let input = input_one_sequence(vec![cell(0, 0, 1, 0, 800000), cell(0, 0, 0, 0, 900000)]);
    let out = pipeline.apply(input, &()).unwrap();
    assert_eq!(out.spans.len(), 1);
    assert_eq!(out.spans[0].len(), 1);
    assert_eq!(out.spans[0][0].text, "Alice");
    assert_eq!(out.spans[0][0].probability, 900000);
}

#[test]
fn end_to_end_entities_then_relations() {
    // Entity pass: extract "Anna" (person) and "Acme" (organization).
    let entity_pipeline = compose(ScoresToDecoded::new(500000), GreedySearch::new(true, false));
    let entity_input = ScoreInput {
        texts: vec!["Anna at Acme".to_string()],
        entities: vec!["person".to_string(), "organization".to_string()],
        offsets: vec![vec![(0, 4), (5, 7), (8, 12)]],
        cells: vec![cell(0, 0, 0, 0, 900000), cell(0, 2, 2, 1, 800000)],
    };
    let entity_output = entity_pipeline.apply(entity_input, &()).unwrap();
    let context = RelationContext::new(EntityContext::of_output(&entity_output));

    // Relation pass: one candidate relating "Anna" to "Acme".
    let relation_pipeline = compose(ScoresToDecoded::new(500000), GreedySearch::new(true, false));
    let relation_input = ScoreInput {
        texts: vec!["Anna at Acme".to_string()],
        entities: vec!["person <> works_for".to_string()],
        offsets: vec![vec![(0, 4), (5, 7), (8, 12)]],
        cells: vec![cell(0, 2, 2, 0, 700000)],
    };
    let relation_spans = relation_pipeline.apply(relation_input, &()).unwrap();

    let mut schema = RelationSchema::new();
    schema.add("works_for".to_string(), vec!["organization".to_string()]);
    let stage = SpanOutputToRelationOutput::new(&schema);
    let out = stage.apply(relation_spans, &context).unwrap();
    assert_eq!(out.relations.len(), 1);
    assert_eq!(out.relations[0].len(), 1);
    let rel = &out.relations[0][0];
    assert_eq!(rel.subject(), "person");
    assert_eq!(rel.class(), "works_for");
    assert_eq!(rel.object(), "Acme");
    assert_eq!(rel.offsets(), (8, 12));
    assert_eq!(rel.probability(), 700000);
    assert_eq!(out.render(), "0 | person | works_for | Acme | 70.0%\n");
}

#[test]
fn composed_pipeline_short_circuits_on_the_first_failure() {
    let pipeline = compose(ScoresToDecoded::new(500000), GreedySearch::new(true, false));
    let input = input_one_sequence(vec![cell(0, 3, 0, 0, 800000)]);
    let err = pipeline.apply(input, &()).unwrap_err();
    assert_eq!(err.cell, 0);
}
