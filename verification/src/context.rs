//! Entity context: which labels each extracted entity text was tagged with.

use vstd::prelude::*;
use crate::span::Span;
use crate::decoded::SpanOutput;

verus! {

/// The `(text, label)` records of a span list, in order.
pub open spec fn pairs_of_spans(spans: Seq<Span>) -> Seq<(String, String)>
    decreases spans.len(),
{
    if spans.len() == 0 {
        Seq::empty()
    } else {
        seq![(spans[0].text, spans[0].class)] + pairs_of_spans(spans.drop_first())
    }
}

/// The `(text, label)` records of every sequence's spans, in order.
pub open spec fn pairs_of_output(spanss: Seq<Vec<Span>>) -> Seq<(String, String)>
    decreases spanss.len(),
{
    if spanss.len() == 0 {
        Seq::empty()
    } else {
        pairs_of_spans(spanss[0]@) + pairs_of_output(spanss.drop_first())
    }
}

proof fn lemma_pairs_of_spans_app(a: Seq<Span>, b: Seq<Span>)
    ensures
        pairs_of_spans(a + b) == pairs_of_spans(a) + pairs_of_spans(b),
    decreases a.len(),
{
    if a.len() == 0 {
        assert(a + b =~= b);
        assert(pairs_of_spans(a) + pairs_of_spans(b) =~= pairs_of_spans(b));
    } else {
        let c = a + b;
        assert(c[0] == a[0]);
        assert(c.drop_first() =~= a.drop_first() + b);
        lemma_pairs_of_spans_app(a.drop_first(), b);
        assert(seq![(a[0].text, a[0].class)] + (pairs_of_spans(a.drop_first()) + pairs_of_spans(b))
            =~= (seq![(a[0].text, a[0].class)] + pairs_of_spans(a.drop_first())) + pairs_of_spans(
            b,
        ));
    }
}

proof fn lemma_pairs_of_output_app(a: Seq<Vec<Span>>, b: Seq<Vec<Span>>)
    ensures
        pairs_of_output(a + b) == pairs_of_output(a) + pairs_of_output(b),
    decreases a.len(),
{
    if a.len() == 0 {
        assert(a + b =~= b);
        assert(pairs_of_output(a) + pairs_of_output(b) =~= pairs_of_output(b));
    } else {
        let c = a + b;
        assert(c[0] == a[0]);
        assert(c.drop_first() =~= a.drop_first() + b);
        lemma_pairs_of_output_app(a.drop_first(), b);
        assert(pairs_of_spans(a[0]@) + (pairs_of_output(a.drop_first()) + pairs_of_output(b)) =~= (
        pairs_of_spans(a[0]@) + pairs_of_output(a.drop_first())) + pairs_of_output(b));
    }
}

/// The labels recorded for `key` in `entries`, in recording order.
pub open spec fn labels_of_from(entries: Seq<(String, String)>, key: Seq<char>, i: int) -> Seq<
    String,
>
    decreases entries.len() - i,
{
    if i < 0 || i >= entries.len() {
        Seq::empty()
    } else if entries[i].0@ == key {
        seq![entries[i].1] + labels_of_from(entries, key, i + 1)
    } else {
        labels_of_from(entries, key, i + 1)
    }
}

/// The labels recorded for `key` in `entries`.
pub open spec fn labels_of(entries: Seq<(String, String)>, key: Seq<char>) -> Seq<String> {
    labels_of_from(entries, key, 0)
}

/// Mapping from entity text to the labels under which that text was
/// extracted (several labels are possible for one surface text).
///
/// Stored as a flat list of `(text, label)` records; the labels of a text
/// are all the records that carry it, in recording order.
pub struct EntityContext {
    pub entries: Vec<(String, String)>,
}

impl EntityContext {
    /// An empty context: no text has any label.
    pub fn new() -> (r: EntityContext)
        ensures
            r.entries@.len() == 0,
    {
        EntityContext { entries: Vec::new() }
    }

    /// Build the context of an entity-extraction output: one record per
    /// accepted span, mapping the span's text to its class label.
    #[verifier::loop_isolation(false)]
    pub fn of_output(output: &SpanOutput) -> (r: EntityContext)
        ensures
            r.entries@ == pairs_of_output(output.spans@),
    {
        let spanss = &output.spans;
        let mut ctx = EntityContext::new();
        let mut s: usize = 0;
        proof {
            assert(spanss@.take(0) =~= Seq::<Vec<Span>>::empty());
        }
        while s < spanss.len()
            invariant
                0 <= s <= spanss@.len(),
                ctx.entries@ == pairs_of_output(spanss@.take(s as int)),
            decreases spanss@.len() - s,
        {
            let spans = &spanss[s];
            let mut k: usize = 0;
            proof {
                assert(spans@.take(0) =~= Seq::<Span>::empty());
            }
            while k < spans.len()
                invariant
                    0 <= k <= spans@.len(),
                    s < spanss@.len(),
                    spans@ == spanss@[s as int]@,
                    ctx.entries@ == pairs_of_output(spanss@.take(s as int)) + pairs_of_spans(
                        spans@.take(k as int),
                    ),
                decreases spans@.len() - k,
            {
                let span = &spans[k];
                ctx.add(span.text.clone(), span.class.clone());
                proof {
                    assert(spans@.take(k as int + 1) =~= spans@.take(k as int) + seq![
                        spans@[k as int],
                    ]);
                    lemma_pairs_of_spans_app(spans@.take(k as int), seq![spans@[k as int]]);
                    assert(seq![spans@[k as int]].drop_first() =~= Seq::<Span>::empty());
                    assert(pairs_of_spans(seq![spans@[k as int]]) == seq![
                        (spans@[k as int].text, spans@[k as int].class),
                    ] + pairs_of_spans(Seq::<Span>::empty()));
                    assert(seq![(spans@[k as int].text, spans@[k as int].class)] + Seq::<(
                        String,
                        String,
                    )>::empty() =~= seq![(spans@[k as int].text, spans@[k as int].class)]);
                }
                k += 1;
            }
            proof {
                assert(spans@.take(spans@.len() as int) =~= spans@);
                assert(spanss@.take(s as int + 1) =~= spanss@.take(s as int) + seq![
                    spanss@[s as int],
                ]);
                lemma_pairs_of_output_app(spanss@.take(s as int), seq![spanss@[s as int]]);
                assert(seq![spanss@[s as int]].drop_first() =~= Seq::<Vec<Span>>::empty());
                assert(pairs_of_output(seq![spanss@[s as int]]) == pairs_of_spans(
                    spanss@[s as int]@,
                ) + pairs_of_output(Seq::<Vec<Span>>::empty()));
                assert(pairs_of_spans(spanss@[s as int]@) + Seq::<(String, String)>::empty()
                    =~= pairs_of_spans(spanss@[s as int]@));
            }
            s += 1;
        }
        proof {
            assert(spanss@.take(spanss@.len() as int) =~= spanss@);
        }
        ctx
    }

    /// Record that `text` was extracted under `label`.
    pub fn add(&mut self, text: String, label: String)
        ensures
            final(self).entries@ == old(self).entries@.push((text, label)),
    {
        self.entries.push((text, label));
    }

    /// All labels recorded for `text`, or `None` if the text was never
    /// extracted as an entity.
    pub fn get(&self, text: &String) -> (r: Option<Vec<String>>)
        ensures
            match r {
                Some(v) => v@ == labels_of(self.entries@, text@) && v@.len() > 0,
                None => labels_of(self.entries@, text@).len() == 0,
            },
    {
        let ghost s = self.entries@;
        let mut out: Vec<String> = Vec::new();
        let mut i: usize = 0;
        proof {
            assert(Seq::<String>::empty() + labels_of_from(s, text@, 0) =~= labels_of_from(
                s,
                text@,
                0,
            ));
        }
        while i < self.entries.len()
            invariant
                0 <= i <= self.entries@.len(),
                s == self.entries@,
                labels_of(s, text@) == out@ + labels_of_from(s, text@, i as int),
            decreases self.entries@.len() - i,
        {
            let ghost o0 = out@;
            let e = &self.entries[i];
            if e.0 == *text {
                out.push(e.1.clone());
                proof {
                    assert(labels_of_from(s, text@, i as int) == seq![s[i as int].1]
                        + labels_of_from(s, text@, i + 1));
                    assert(o0 + (seq![s[i as int].1] + labels_of_from(s, text@, i + 1)) =~= out@
                        + labels_of_from(s, text@, i + 1));
                }
            } else {
                proof {
                    assert(labels_of_from(s, text@, i as int) == labels_of_from(s, text@, i + 1));
                }
            }
            i += 1;
        }
        proof {
            assert(out@ + labels_of_from(s, text@, i as int) =~= out@);
        }
        if out.len() == 0 {
            None
        } else {
            Some(out)
        }
    }
}

/// The context threaded through the relation-extraction pipeline: the
/// entity labels discovered by the entity stage.
pub struct RelationContext {
    pub entity_labels: EntityContext,
}

impl RelationContext {
    pub fn new(entity_labels: EntityContext) -> (r: RelationContext)
        ensures
            r.entity_labels == entity_labels,
    {
        RelationContext { entity_labels }
    }
}

} // verus!
