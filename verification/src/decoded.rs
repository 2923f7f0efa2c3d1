//! Decoded span output: the entity-extraction result, grouped per sequence.

use vstd::prelude::*;
use crate::span::Span;

verus! {

/// The final output of the span-decoding steps: one list of spans per input
/// sequence, together with the input texts and the entity-label vocabulary,
/// so downstream consumers need no separate lookup.
#[derive(Debug)]
pub struct SpanOutput {
    /// The original input texts, one per sequence.
    pub texts: Vec<String>,
    /// The declared entity-label vocabulary.
    pub entities: Vec<String>,
    /// Decoded spans, one list per input sequence.
    pub spans: Vec<Vec<Span>>,
}

impl SpanOutput {
    pub fn new(texts: Vec<String>, entities: Vec<String>, spans: Vec<Vec<Span>>) -> (r: SpanOutput)
        ensures
            r.texts == texts,
            r.entities == entities,
            r.spans == spans,
    {
        SpanOutput { texts, entities, spans }
    }
}

/// One cell of the score surface: the post-activation probability (in
/// millionths) that the token range `start_token ..= end_token` of sequence
/// `sequence` is an entity of the label with index `label`.
#[derive(Debug, Clone, Copy)]
pub struct CellScore {
    pub sequence: usize,
    pub start_token: usize,
    pub end_token: usize,
    pub label: usize,
    pub score: u32,
}

/// The materialized input of the candidate extractor: the original texts,
/// the entity-label vocabulary, the per-sequence token-to-character offset
/// table, and the score surface cells.
#[derive(Debug)]
pub struct ScoreInput {
    /// The original input texts, one per sequence.
    pub texts: Vec<String>,
    /// The declared entity-label vocabulary.
    pub entities: Vec<String>,
    /// For each sequence, for each token index, the half-open character
    /// offsets of the token in the sequence's text.
    pub offsets: Vec<Vec<(usize, usize)>>,
    /// The score surface, one cell per scored (sequence, token range, label).
    pub cells: Vec<CellScore>,
}

/// Every lookup the cell requires is consistent with the texts, the offset
/// table and the label vocabulary, and it denotes a non-empty range.
pub open spec fn cell_valid(
    cell: CellScore,
    texts: Seq<String>,
    entities: Seq<String>,
    offsets: Seq<Vec<(usize, usize)>>,
) -> bool {
    &&& cell.sequence < texts.len()
    &&& cell.sequence < offsets.len()
    &&& cell.start_token < offsets[cell.sequence as int]@.len()
    &&& cell.end_token < offsets[cell.sequence as int]@.len()
    &&& cell.label < entities.len()
    &&& cell.score <= crate::span::PROB_ONE
    &&& ({
        let a = offsets[cell.sequence as int]@[cell.start_token as int].0;
        let b = offsets[cell.sequence as int]@[cell.end_token as int].1;
        a < b && b <= texts[cell.sequence as int]@.len()
    })
}

/// `span` is the candidate that `cell` denotes.
pub open spec fn span_of_cell(
    span: Span,
    cell: CellScore,
    texts: Seq<String>,
    entities: Seq<String>,
    offsets: Seq<Vec<(usize, usize)>>,
) -> bool {
    let a = offsets[cell.sequence as int]@[cell.start_token as int].0;
    let b = offsets[cell.sequence as int]@[cell.end_token as int].1;
    &&& span.sequence == cell.sequence
    &&& span.start == a
    &&& span.end == b
    &&& span.class@ == entities[cell.label as int]@
    &&& span.probability == cell.score
    &&& span.text@ == texts[cell.sequence as int]@.subrange(a as int, b as int)
}

/// The cells of sequence `s` whose score reaches the threshold, in surface
/// order.
pub open spec fn cells_of_seq(cells: Seq<CellScore>, s: int, threshold: u32) -> Seq<CellScore>
    decreases cells.len(),
{
    if cells.len() == 0 {
        Seq::empty()
    } else {
        (if cells[0].sequence == s && cells[0].score >= threshold {
            seq![cells[0]]
        } else {
            Seq::empty()
        }) + cells_of_seq(cells.drop_first(), s, threshold)
    }
}

/// `spans` are exactly the candidates of the given cells, in order.
pub open spec fn spans_of_cells(
    spans: Seq<Span>,
    cells: Seq<CellScore>,
    texts: Seq<String>,
    entities: Seq<String>,
    offsets: Seq<Vec<(usize, usize)>>,
) -> bool {
    spans.len() == cells.len() && forall|k: int|
        0 <= k < spans.len() ==> span_of_cell(spans[k], cells[k], texts, entities, offsets)
}

proof fn lemma_cells_of_seq_app(a: Seq<CellScore>, b: Seq<CellScore>, s: int, threshold: u32)
    ensures
        cells_of_seq(a + b, s, threshold) == cells_of_seq(a, s, threshold) + cells_of_seq(
            b,
            s,
            threshold,
        ),
    decreases a.len(),
{
    if a.len() == 0 {
        assert(a + b =~= b);
        assert(cells_of_seq(a, s, threshold) + cells_of_seq(b, s, threshold) =~= cells_of_seq(
            b,
            s,
            threshold,
        ));
    } else {
        let c = a + b;
        assert(c[0] == a[0]);
        assert(c.drop_first() =~= a.drop_first() + b);
        lemma_cells_of_seq_app(a.drop_first(), b, s, threshold);
        let head = if a[0].sequence == s && a[0].score >= threshold {
            seq![a[0]]
        } else {
            Seq::<CellScore>::empty()
        };
        assert(head + (cells_of_seq(a.drop_first(), s, threshold) + cells_of_seq(b, s, threshold))
            =~= (head + cells_of_seq(a.drop_first(), s, threshold)) + cells_of_seq(
            b,
            s,
            threshold,
        ));
    }
}

/// Signals a contract violation between the score surface and the offset
/// table or the label vocabulary: a cell above the decoding threshold whose
/// lookups cannot be resolved. The decode call is aborted rather than
/// producing corrupted spans.
#[derive(Debug, Clone, Copy, PartialEq, Eq, Structural)]
pub struct OffsetError {
    /// Index of the offending cell in the score surface.
    pub cell: usize,
}

/// Candidate extractor: applies the decoding threshold to the score surface
/// and materializes one candidate span per surviving cell, grouped per
/// sequence.
pub struct ScoresToDecoded {
    /// Decoding threshold, in millionths.
    pub threshold: u32,
}

impl ScoresToDecoded {
    pub fn new(threshold: u32) -> (r: ScoresToDecoded)
        ensures
            r.threshold == threshold,
    {
        ScoresToDecoded { threshold }
    }

    /// Extract the candidate spans of every sequence. Cells below the
    /// threshold are dropped without being resolved; a surviving cell that
    /// cannot be resolved aborts the call.
    #[verifier::loop_isolation(false)]
    pub fn apply(&self, input: &ScoreInput) -> (r: Result<SpanOutput, OffsetError>)
        ensures
            r matches Ok(out) ==> ({
                &&& out.texts@ == input.texts@
                &&& out.entities@ == input.entities@
                &&& out.spans@.len() == input.texts@.len()
                &&& forall|s: int|
                    0 <= s < out.spans@.len() ==> spans_of_cells(
                        out.spans@[s]@,
                        cells_of_seq(input.cells@, s, self.threshold),
                        input.texts@,
                        input.entities@,
                        input.offsets@,
                    )
                &&& forall|k: int|
                    0 <= k < input.cells@.len() && input.cells@[k].score >= self.threshold
                        ==> cell_valid(
                        input.cells@[k],
                        input.texts@,
                        input.entities@,
                        input.offsets@,
                    )
            }),
            r matches Err(e) ==> e.cell < input.cells@.len() && input.cells@[e.cell as int].score
                >= self.threshold && !cell_valid(
                input.cells@[e.cell as int],
                input.texts@,
                input.entities@,
                input.offsets@,
            ),
    {
        let mut k: usize = 0;
        while k < input.cells.len()
            invariant
                0 <= k <= input.cells@.len(),
                forall|m: int|
                    0 <= m < k && input.cells@[m].score >= self.threshold ==> input.cells@[m].sequence
                        < input.texts@.len(),
            decreases input.cells@.len() - k,
        {
            let cell = input.cells[k];
            if cell.score >= self.threshold && cell.sequence >= input.texts.len() {
                return Err(OffsetError { cell: k });
            }
            k += 1;
        }
        let mut spans: Vec<Vec<Span>> = Vec::new();
        let mut s: usize = 0;
        while s < input.texts.len()
            invariant
                0 <= s <= input.texts@.len(),
                spans@.len() == s,
                forall|q: int|
                    0 <= q < s ==> spans_of_cells(
                        spans@[q]@,
                        cells_of_seq(input.cells@, q, self.threshold),
                        input.texts@,
                        input.entities@,
                        input.offsets@,
                    ),
                forall|k: int|
                    0 <= k < input.cells@.len() && input.cells@[k].score >= self.threshold
                        && input.cells@[k].sequence < s ==> cell_valid(
                        input.cells@[k],
                        input.texts@,
                        input.entities@,
                        input.offsets@,
                    ),
            decreases input.texts@.len() - s,
        {
            let mut seq_spans: Vec<Span> = Vec::new();
            let mut k: usize = 0;
            proof {
                assert(input.cells@.take(0) =~= Seq::<CellScore>::empty());
            }
            while k < input.cells.len()
                invariant
                    0 <= k <= input.cells@.len(),
                    s < input.texts@.len(),
                    spans@.len() == s,
                    spans_of_cells(
                        seq_spans@,
                        cells_of_seq(input.cells@.take(k as int), s as int, self.threshold),
                        input.texts@,
                        input.entities@,
                        input.offsets@,
                    ),
                    forall|m: int|
                        0 <= m < k && input.cells@[m].score >= self.threshold
                            && input.cells@[m].sequence == s ==> cell_valid(
                            input.cells@[m],
                            input.texts@,
                            input.entities@,
                            input.offsets@,
                        ),
                decreases input.cells@.len() - k,
            {
                let ghost pre = input.cells@.take(k as int);
                let cell = input.cells[k];
                proof {
                    assert(input.cells@.take(k as int + 1) =~= pre + seq![cell]);
                    lemma_cells_of_seq_app(pre, seq![cell], s as int, self.threshold);
                    assert(seq![cell][0] == cell);
                    assert(seq![cell].drop_first() =~= Seq::<CellScore>::empty());
                    assert(cells_of_seq(Seq::<CellScore>::empty(), s as int, self.threshold)
                        == Seq::<CellScore>::empty());
                    if cell.score >= self.threshold && cell.sequence == s {
                        assert(cells_of_seq(seq![cell], s as int, self.threshold) == seq![cell]
                            + Seq::<CellScore>::empty());
                        assert(seq![cell] + Seq::<CellScore>::empty() =~= seq![cell]);
                    } else {
                        assert(cells_of_seq(seq![cell], s as int, self.threshold) == Seq::<
                            CellScore,
                        >::empty() + Seq::<CellScore>::empty());
                        assert(Seq::<CellScore>::empty() + Seq::<CellScore>::empty() =~= Seq::<
                            CellScore,
                        >::empty());
                    }
                }
                if cell.score >= self.threshold && cell.sequence == s {
                    if cell.sequence >= input.offsets.len() || cell.start_token
                        >= input.offsets[cell.sequence].len() || cell.end_token
                        >= input.offsets[cell.sequence].len() || cell.label
                        >= input.entities.len() {
                        return Err(OffsetError { cell: k });
                    }
                    let a = input.offsets[cell.sequence][cell.start_token].0;
                    let b = input.offsets[cell.sequence][cell.end_token].1;
                    let text = &input.texts[cell.sequence];
                    if a >= b || b > text.as_str().unicode_len() || cell.score
                        > crate::span::PROB_ONE {
                        return Err(OffsetError { cell: k });
                    }
                    let class = clone_string(&input.entities[cell.label]);
                    let piece = text.as_str().substring_char(a, b).to_owned();
                    let span = Span {
                        sequence: cell.sequence,
                        start: a,
                        end: b,
                        class,
                        probability: cell.score,
                        text: piece,
                    };
                    let ghost q0 = seq_spans@;
                    seq_spans.push(span);
                    proof {
                        let kept = cells_of_seq(
                            input.cells@.take(k as int + 1),
                            s as int,
                            self.threshold,
                        );
                        let kept_old = cells_of_seq(pre, s as int, self.threshold);
                        assert(kept == kept_old + seq![cell]);
                        assert forall|m: int| 0 <= m < seq_spans@.len() implies span_of_cell(
                            seq_spans@[m],
                            kept[m],
                            input.texts@,
                            input.entities@,
                            input.offsets@,
                        ) by {
                            if m < q0.len() {
                                assert(seq_spans@[m] == q0[m]);
                                assert(kept[m] == kept_old[m]);
                            } else {
                                assert(seq_spans@[m] == span);
                                assert(kept[m] == cell);
                            }
                        }
                    }
                } else {
                    proof {
                        assert(cells_of_seq(input.cells@.take(k as int + 1), s as int,
                            self.threshold) == cells_of_seq(pre, s as int, self.threshold) + Seq::<
                            CellScore,
                        >::empty());
                        assert(cells_of_seq(pre, s as int, self.threshold) + Seq::<
                            CellScore,
                        >::empty() =~= cells_of_seq(pre, s as int, self.threshold));
                    }
                }
                k += 1;
            }
            proof {
                assert(input.cells@.take(input.cells@.len() as int) =~= input.cells@);
            }
            spans.push(seq_spans);
            s += 1;
        }
        Ok(SpanOutput { texts: clone_strings(&input.texts), entities: clone_strings(&input.entities), spans })
    }
}

/// A content-preserving copy of one string.
fn clone_string(s: &String) -> (r: String)
    ensures
        r == s,
{
    s.clone()
}

/// Copy a vector of strings, preserving its contents.
fn clone_strings(v: &Vec<String>) -> (r: Vec<String>)
    ensures
        r@ == v@,
{
    let mut out: Vec<String> = Vec::new();
    let mut i: usize = 0;
    while i < v.len()
        invariant
            0 <= i <= v@.len(),
            out@ =~= v@.take(i as int),
        decreases v@.len() - i,
    {
        out.push(v[i].clone());
        proof {
            assert(v@.take(i as int).push(v@[i as int]) =~= v@.take(i + 1));
        }
        i += 1;
    }
    proof {
        assert(v@.take(v@.len() as int) =~= v@);
    }
    out
}

} // verus!
