use gliner::greedy::GreedySearch;
use gliner::span::Span;

fn cand(start: usize, end: usize, class: &str, prob_millionths: u32) -> Span {
    Span::new(0, start, end, class.to_string(), prob_millionths, String::new())
}

#[test]
fn empty_input_yields_empty_accepted_set() {
    let search = GreedySearch::new(true, false);
    let out = search.search(Vec::new());
    assert!(out.is_empty());
}

#[test]
fn example_end_to_end_flat_single_label() {
    // Highest-scored span wins; the crossing span and the duplicate-offset
    // span are both rejected.
    let cands = vec![
        cand(0, 5, "person", 900000),
        cand(2, 8, "person", 850000),
        cand(0, 5, "location", 600000),
    ];
    let search = GreedySearch::new(true, false);
    let out = search.search(cands);
    assert_eq!(out.len(), 1);
    assert_eq!(out[0].start, 0);
    assert_eq!(out[0].end, 5);
    assert_eq!(out[0].class, "person");
    assert_eq!(out[0].probability, 900000);
}

#[test]
fn flat_multi_label_keeps_exact_duplicates() {
    let cands = vec![
        cand(0, 5, "person", 900000),
        cand(2, 8, "person", 850000),
        cand(0, 5, "location", 600000),
    ];
    let search = GreedySearch::new(true, true);
    let out = search.search(cands);
    assert_eq!(out.len(), 2);
    assert_eq!((out[0].start, out[0].end, out[0].class.as_str()), (0, 5, "person"));
    assert_eq!((out[1].start, out[1].end, out[1].class.as_str()), (0, 5, "location"));
}

#[test]
fn nested_mode_allows_containment_rejects_crossing() {
    let cands = vec![
        cand(0, 10, "a", 900000),
        cand(2, 5, "b", 800000),
        cand(8, 12, "c", 700000),
    ];
    let search = GreedySearch::new(false, false);
    let out = search.search(cands);
    assert_eq!(out.len(), 2);
    // ascending offset order
    assert_eq!((out[0].start, out[0].end), (0, 10));
    assert_eq!((out[1].start, out[1].end), (2, 5));
}

#[test]
fn equal_probability_shorter_span_wins() {
    let cands = vec![cand(0, 5, "b", 500000), cand(0, 3, "a", 500000)];
    let search = GreedySearch::new(true, false);
    let out = search.search(cands);
    assert_eq!(out.len(), 1);
    assert_eq!((out[0].start, out[0].end, out[0].class.as_str()), (0, 3, "a"));
}

#[test]
fn equal_probability_and_length_lower_start_wins() {
    let cands = vec![cand(4, 7, "b", 500000), cand(0, 3, "a", 500000)];
    let search = GreedySearch::new(false, false);
    let out = search.search(cands);
    assert_eq!(out.len(), 2);
    assert_eq!((out[0].start, out[0].class.as_str()), (0, "a"));
    assert_eq!((out[1].start, out[1].class.as_str()), (4, "b"));
}

#[test]
fn identical_runs_return_identical_results() {
    let mk = || {
        vec![
            cand(0, 5, "person", 900000),
            cand(2, 8, "person", 850000),
            cand(6, 9, "location", 850000),
            cand(0, 5, "location", 600000),
        ]
    };
    let search = GreedySearch::new(false, true);
    let out1 = search.search(mk());
    let out2 = search.search(mk());
    assert_eq!(out1.len(), out2.len());
    for (a, b) in out1.iter().zip(out2.iter()) {
        assert_eq!(a.start, b.start);
        assert_eq!(a.end, b.end);
        assert_eq!(a.class, b.class);
        assert_eq!(a.probability, b.probability);
    }
}

#[test]
fn removing_uncontested_top_candidate_only_loses_its_probability() {
    // The top candidate touches nothing else: dropping it keeps the rest of
    // the accepted set unchanged.
    let full = vec![cand(0, 3, "a", 900000), cand(5, 8, "b", 700000), cand(6, 9, "c", 600000)];
    let rest = vec![cand(5, 8, "b", 700000), cand(6, 9, "c", 600000)];
    let search = GreedySearch::new(true, false);
    let out_full = search.search(full);
    let out_rest = search.search(rest);
    let sum = |v: &Vec<Span>| v.iter().map(|s| s.probability as u64).sum::<u64>();
    assert_eq!(sum(&out_full), 1600000);
    assert_eq!(sum(&out_rest), 700000);
    assert!(sum(&out_rest) <= sum(&out_full));
}

#[test]
fn single_token_span_is_a_valid_candidate() {
    let cands = vec![cand(3, 4, "x", 500000)];
    let search = GreedySearch::new(true, false);
    let out = search.search(cands);
    assert_eq!(out.len(), 1);
    assert_eq!((out[0].start, out[0].end), (3, 4));
}
