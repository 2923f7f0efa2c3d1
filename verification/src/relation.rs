//! Relation decoding and schema validation.
//!
//! Accepted spans whose class label is a composite `"<subject> <> <type>"`
//! are decoded into relation triples, then filtered against a declarative
//! schema: a relation survives only if its object text was extracted as an
//! entity and carries at least one label the schema permits for that
//! relation type.

use vstd::prelude::*;
use crate::span::Span;
use crate::decoded::SpanOutput;
use crate::context::{RelationContext, labels_of};
use crate::schema::{RelationSchema, lookup, spec_allows, allows_one_of_objects};

verus! {

/// The four-character separator `" <> "` occurs in `s` at position `i`.
pub open spec fn sep_at(s: Seq<char>, i: int) -> bool {
    &&& 0 <= i
    &&& i + 4 <= s.len()
    &&& s[i] == ' '
    &&& s[i + 1] == '<'
    &&& s[i + 2] == '>'
    &&& s[i + 3] == ' '
}

/// Position of the first separator occurrence at or after `i`, if any.
pub open spec fn first_sep_from(s: Seq<char>, i: int) -> Option<int>
    decreases s.len() - i,
{
    if i < 0 || i + 4 > s.len() {
        None
    } else if sep_at(s, i) {
        Some(i)
    } else {
        first_sep_from(s, i + 1)
    }
}

/// Decoding a composite relation label: succeeds with the subject label and
/// the relation type if and only if the label contains exactly one
/// (non-overlapping, leftmost-first) occurrence of `" <> "`.
pub open spec fn decode_spec(s: Seq<char>) -> Option<(Seq<char>, Seq<char>)> {
    match first_sep_from(s, 0) {
        None => None,
        Some(i) => if first_sep_from(s, i + 4) is Some {
            None
        } else {
            Some((s.take(i), s.skip(i + 4)))
        },
    }
}

proof fn lemma_first_sep_found(s: Seq<char>, a: int, i: int)
    requires
        0 <= a <= i,
        sep_at(s, i),
        forall|k: int| a <= k < i ==> !sep_at(s, k),
    ensures
        first_sep_from(s, a) == Some(i),
    decreases i - a,
{
    if a < i {
        assert(!sep_at(s, a));
        lemma_first_sep_found(s, a + 1, i);
    }
}

proof fn lemma_first_sep_none(s: Seq<char>, a: int)
    requires
        0 <= a,
        forall|k: int| a <= k ==> !sep_at(s, k),
    ensures
        first_sep_from(s, a) is None,
    decreases s.len() - a,
{
    if a + 4 <= s.len() {
        assert(!sep_at(s, a));
        lemma_first_sep_none(s, a + 1);
    }
}

/// Scan for the first `" <> "` at or after `from`.
fn find_sep(s: &str, from: usize) -> (r: Option<usize>)
    ensures
        match r {
            Some(i) => first_sep_from(s@, from as int) == Some(i as int) && from <= i && i + 4
                <= s@.len(),
            None => first_sep_from(s@, from as int) is None,
        },
{
    let n = s.unicode_len();
    let mut i: usize = from;
    while n >= 4 && i <= n - 4
        invariant
            n == s@.len(),
            from <= i,
            forall|k: int| from <= k < i ==> !sep_at(s@, k),
        decreases n - i,
    {
        if s.get_char(i) == ' ' && s.get_char(i + 1) == '<' && s.get_char(i + 2) == '>'
            && s.get_char(i + 3) == ' ' {
            proof {
                lemma_first_sep_found(s@, from as int, i as int);
            }
            return Some(i);
        }
        proof {
            assert(!sep_at(s@, i as int));
        }
        i += 1;
    }
    proof {
        assert forall|k: int| from as int <= k implies !sep_at(s@, k) by {
            if k >= i {
                assert(k + 4 > s@.len());
            }
        }
        lemma_first_sep_none(s@, from as int);
    }
    None
}

/// Discriminates the two label-level failures of relation decoding.
#[derive(Clone, Copy, Debug, PartialEq, Eq, Structural)]
pub enum RelationErrorKind {
    /// The composite class label does not contain exactly one `" <> "`.
    InvalidRelationLabel,
    /// The decoded relation type is not declared in the schema.
    UnexpectedRelationLabel,
}

/// An error caused by a malformed or unexpected span label obtained from
/// the relation extraction pipeline. This is likely to be an internal
/// error, unless the pipeline was not used correctly.
#[derive(Debug, Clone)]
pub struct RelationFormatError {
    /// Which failure occurred.
    pub kind: RelationErrorKind,
    /// The offending label, for diagnostics.
    pub label: String,
}

impl RelationFormatError {
    pub fn invalid_relation_label(label: &str) -> (r: Self)
        ensures
            r.kind == RelationErrorKind::InvalidRelationLabel,
            r.label@ == label@,
    {
        RelationFormatError { kind: RelationErrorKind::InvalidRelationLabel, label: label.to_owned() }
    }

    pub fn unexpected_relation_label(label: &str) -> (r: Self)
        ensures
            r.kind == RelationErrorKind::UnexpectedRelationLabel,
            r.label@ == label@,
    {
        RelationFormatError {
            kind: RelationErrorKind::UnexpectedRelationLabel,
            label: label.to_owned(),
        }
    }

    /// Wrap this error as the `Err` case of a result.
    pub fn err<T>(self) -> (r: Result<T, RelationFormatError>)
        ensures
            r == Err::<T, RelationFormatError>(self),
    {
        Err(self)
    }

    /// Human-readable description of the error.
    pub fn message(&self) -> (r: String)
        ensures
            self.kind == RelationErrorKind::InvalidRelationLabel ==> r@
                == "invalid relation label format: "@ + self.label@,
            self.kind == RelationErrorKind::UnexpectedRelationLabel ==> r@
                == "unexpected relation label: "@ + self.label@,
    {
        let prefix = match self.kind {
            RelationErrorKind::InvalidRelationLabel => "invalid relation label format: ",
            RelationErrorKind::UnexpectedRelationLabel => "unexpected relation label: ",
        };
        String::from_str(prefix).concat(self.label.as_str())
    }
}

/// An individual relation triple.
#[derive(Debug)]
pub struct Relation {
    /// Relation label (the type decoded from the composite class label).
    pub class: String,
    /// Label of the subject (decoded from the composite class label).
    pub subject: String,
    /// Text of the object.
    pub object: String,
    /// Input index in the batch.
    pub sequence: usize,
    /// Start offset.
    pub start: usize,
    /// End offset.
    pub end: usize,
    /// Probability, in millionths.
    pub probability: u32,
}

/// `rel` is the decoded form of `span`.
pub open spec fn rel_matches(rel: Relation, span: Span) -> bool {
    match decode_spec(span.class@) {
        None => false,
        Some(p) => rel.subject@ == p.0 && rel.class@ == p.1 && rel.object@ == span.text@
            && rel.sequence == span.sequence && rel.start == span.start && rel.end == span.end
            && rel.probability == span.probability,
    }
}

impl Relation {
    /// Split a composite relation class label on the literal `" <> "`:
    /// exactly one occurrence is required. The left part is the subject
    /// label, the right part the relation type.
    pub fn decode(rel_class: &str) -> (r: Result<(String, String), RelationFormatError>)
        ensures
            match decode_spec(rel_class@) {
                Some(p) => r matches Ok(q) && q.0@ == p.0 && q.1@ == p.1,
                None => r matches Err(e) && e.kind == RelationErrorKind::InvalidRelationLabel
                    && e.label@ == rel_class@,
            },
    {
        let n = rel_class.unicode_len();
        match find_sep(rel_class, 0) {
            None => RelationFormatError::invalid_relation_label(rel_class).err(),
            Some(i) => {
                match find_sep(rel_class, i + 4) {
                    Some(_) => RelationFormatError::invalid_relation_label(rel_class).err(),
                    None => {
                        let subject = rel_class.substring_char(0, i).to_owned();
                        let class = rel_class.substring_char(i + 4, n).to_owned();
                        proof {
                            assert(rel_class@.subrange(0, i as int) =~= rel_class@.take(i as int));
                            assert(rel_class@.subrange(i + 4, n as int) =~= rel_class@.skip(
                                i + 4,
                            ));
                        }
                        Ok((subject, class))
                    },
                }
            },
        }
    }

    /// Decode a span whose class is a composite relation label into a
    /// relation triple; the span's own text becomes the object text.
    pub fn from(span: Span) -> (r: Result<Self, RelationFormatError>)
        ensures
            decode_spec(span.class@) is Some ==> (r matches Ok(rel) && rel_matches(rel, span)),
            decode_spec(span.class@) is None ==> (r matches Err(e) && e.kind
                == RelationErrorKind::InvalidRelationLabel && e.label@ == span.class@),
    {
        let Span { sequence, start, end, class: span_class, probability, text } = span;
        match Self::decode(span_class.as_str()) {
            Ok((subject, class)) => Ok(
                Relation { class, subject, object: text, sequence, start, end, probability },
            ),
            Err(e) => Err(e),
        }
    }

    pub fn class(&self) -> (r: &str)
        ensures
            r@ == self.class@,
    {
        self.class.as_str()
    }

    pub fn subject(&self) -> (r: &str)
        ensures
            r@ == self.subject@,
    {
        self.subject.as_str()
    }

    pub fn object(&self) -> (r: &str)
        ensures
            r@ == self.object@,
    {
        self.object.as_str()
    }

    pub fn sequence(&self) -> (r: usize)
        ensures
            r == self.sequence,
    {
        self.sequence
    }

    pub fn offsets(&self) -> (r: (usize, usize))
        ensures
            r.0 == self.start,
            r.1 == self.end,
    {
        (self.start, self.end)
    }

    pub fn probability(&self) -> (r: u32)
        ensures
            r == self.probability,
    {
        self.probability
    }
}

/// The final output of the relation extraction pipeline.
#[derive(Debug)]
pub struct RelationOutput {
    pub texts: Vec<String>,
    pub entities: Vec<String>,
    pub relations: Vec<Vec<Relation>>,
}

/// The decimal digit `d` as a character.
pub open spec fn digit_char(d: int) -> char {
    if d == 0 {
        '0'
    } else if d == 1 {
        '1'
    } else if d == 2 {
        '2'
    } else if d == 3 {
        '3'
    } else if d == 4 {
        '4'
    } else if d == 5 {
        '5'
    } else if d == 6 {
        '6'
    } else if d == 7 {
        '7'
    } else if d == 8 {
        '8'
    } else {
        '9'
    }
}

/// The decimal digits of `n`, most significant first.
pub open spec fn dec_digits(n: int) -> Seq<char>
    decreases n,
{
    if n < 10 {
        seq![digit_char(n)]
    } else {
        dec_digits(n / 10).push(digit_char(n % 10))
    }
}

fn digit_str(d: usize) -> (r: &'static str)
    requires
        d < 10,
    ensures
        r@ == seq![digit_char(d as int)],
{
    proof {
        reveal_strlit("0");
        reveal_strlit("1");
        reveal_strlit("2");
        reveal_strlit("3");
        reveal_strlit("4");
        reveal_strlit("5");
        reveal_strlit("6");
        reveal_strlit("7");
        reveal_strlit("8");
        reveal_strlit("9");
    }
    match d {
        0 => "0",
        1 => "1",
        2 => "2",
        3 => "3",
        4 => "4",
        5 => "5",
        6 => "6",
        7 => "7",
        8 => "8",
        _ => "9",
    }
}

/// Render `n` in decimal.
fn format_usize(n: usize) -> (r: String)
    ensures
        r@ == dec_digits(n as int),
    decreases n,
{
    if n < 10 {
        let mut s = String::new();
        s.append(digit_str(n));
        proof {
            assert(Seq::<char>::empty() + seq![digit_char(n as int)] =~= seq![
                digit_char(n as int),
            ]);
        }
        s
    } else {
        let mut s = format_usize(n / 10);
        s.append(digit_str(n % 10));
        proof {
            assert(dec_digits(n as int / 10) + seq![digit_char(n as int % 10)] =~= dec_digits(
                n as int / 10,
            ).push(digit_char(n as int % 10)));
        }
        s
    }
}

/// One rendered table row: sequence, subject, relation type, object, and
/// the probability as a percentage with one decimal place.
pub open spec fn render_line(rel: Relation) -> Seq<char> {
    dec_digits(rel.sequence as int) + " | "@ + rel.subject@ + " | "@ + rel.class@ + " | "@
        + rel.object@ + " | "@ + dec_digits(rel.probability as int / 10000) + "."@ + seq![
        digit_char(rel.probability as int / 1000 % 10),
    ] + "%\n"@
}

/// The rendered rows of one sequence's relations, in order.
pub open spec fn render_rels(rels: Seq<Relation>) -> Seq<char>
    decreases rels.len(),
{
    if rels.len() == 0 {
        Seq::empty()
    } else {
        render_line(rels[0]) + render_rels(rels.drop_first())
    }
}

/// The rendered rows of every sequence, in order.
pub open spec fn render_output(relss: Seq<Vec<Relation>>) -> Seq<char>
    decreases relss.len(),
{
    if relss.len() == 0 {
        Seq::empty()
    } else {
        render_rels(relss[0]@) + render_output(relss.drop_first())
    }
}

fn render_one(rel: &Relation) -> (r: String)
    ensures
        r@ == render_line(*rel),
{
    proof {
        reveal_strlit(" | ");
        reveal_strlit(".");
        reveal_strlit("%\n");
    }
    let tenths = rel.probability / 1000;
    let mut s = format_usize(rel.sequence);
    s.append(" | ");
    s.append(rel.subject.as_str());
    s.append(" | ");
    s.append(rel.class.as_str());
    s.append(" | ");
    s.append(rel.object.as_str());
    s.append(" | ");
    let ip = format_usize((tenths / 10) as usize);
    s.append(ip.as_str());
    s.append(".");
    s.append(digit_str((tenths % 10) as usize));
    s.append("%\n");
    proof {
        assert(tenths / 10 == rel.probability as int / 10000);
        assert(tenths % 10 == rel.probability as int / 1000 % 10);
    }
    s
}

proof fn lemma_render_rels_app(a: Seq<Relation>, b: Seq<Relation>)
    ensures
        render_rels(a + b) == render_rels(a) + render_rels(b),
    decreases a.len(),
{
    if a.len() == 0 {
        assert(a + b =~= b);
        assert(render_rels(a) + render_rels(b) =~= render_rels(b));
    } else {
        let c = a + b;
        assert(c[0] == a[0]);
        assert(c.drop_first() =~= a.drop_first() + b);
        lemma_render_rels_app(a.drop_first(), b);
        assert(render_line(a[0]) + (render_rels(a.drop_first()) + render_rels(b)) =~= (render_line(
            a[0],
        ) + render_rels(a.drop_first())) + render_rels(b));
    }
}

proof fn lemma_render_output_app(a: Seq<Vec<Relation>>, b: Seq<Vec<Relation>>)
    ensures
        render_output(a + b) == render_output(a) + render_output(b),
    decreases a.len(),
{
    if a.len() == 0 {
        assert(a + b =~= b);
        assert(render_output(a) + render_output(b) =~= render_output(b));
    } else {
        let c = a + b;
        assert(c[0] == a[0]);
        assert(c.drop_first() =~= a.drop_first() + b);
        lemma_render_output_app(a.drop_first(), b);
        assert(render_rels(a[0]@) + (render_output(a.drop_first()) + render_output(b)) =~= (
        render_rels(a[0]@) + render_output(a.drop_first())) + render_output(b));
    }
}

impl RelationOutput {
    /// Human-readable tabular rendering of the relations, one row per
    /// relation: sequence index, subject, relation type, object, and the
    /// probability as a percentage with one decimal place.
    #[verifier::loop_isolation(false)]
    pub fn render(&self) -> (r: String)
        ensures
            r@ == render_output(self.relations@),
    {
        let relss = &self.relations;
        let mut out = String::new();
        let mut s: usize = 0;
        proof {
            assert(relss@.take(0) =~= Seq::<Vec<Relation>>::empty());
        }
        while s < relss.len()
            invariant
                0 <= s <= relss@.len(),
                out@ == render_output(relss@.take(s as int)),
            decreases relss@.len() - s,
        {
            let rels = &relss[s];
            let mut k: usize = 0;
            proof {
                assert(rels@.take(0) =~= Seq::<Relation>::empty());
            }
            while k < rels.len()
                invariant
                    0 <= k <= rels@.len(),
                    rels@ == relss@[s as int]@,
                    s < relss@.len(),
                    out@ == render_output(relss@.take(s as int)) + render_rels(
                        rels@.take(k as int),
                    ),
                decreases rels@.len() - k,
            {
                let line = render_one(&rels[k]);
                out.append(line.as_str());
                proof {
                    assert(rels@.take(k as int + 1) =~= rels@.take(k as int) + seq![
                        rels@[k as int],
                    ]);
                    lemma_render_rels_app(rels@.take(k as int), seq![rels@[k as int]]);
                    assert(seq![rels@[k as int]].drop_first() =~= Seq::<Relation>::empty());
                    assert(render_rels(seq![rels@[k as int]]) == render_line(rels@[k as int])
                        + render_rels(Seq::<Relation>::empty()));
                    assert(render_line(rels@[k as int]) + Seq::<char>::empty() =~= render_line(
                        rels@[k as int],
                    ));
                }
                k += 1;
            }
            proof {
                assert(rels@.take(rels@.len() as int) =~= rels@);
                assert(relss@.take(s as int + 1) =~= relss@.take(s as int) + seq![
                    relss@[s as int],
                ]);
                lemma_render_output_app(relss@.take(s as int), seq![relss@[s as int]]);
                assert(seq![relss@[s as int]].drop_first() =~= Seq::<Vec<Relation>>::empty());
                assert(render_output(seq![relss@[s as int]]) == render_rels(relss@[s as int]@)
                    + render_output(Seq::<Vec<Relation>>::empty()));
                assert(render_rels(relss@[s as int]@) + Seq::<char>::empty() =~= render_rels(
                    relss@[s as int]@,
                ));
            }
            s += 1;
        }
        proof {
            assert(relss@.take(relss@.len() as int) =~= relss@);
        }
        out
    }
}

/// The span decodes, and if its object is grounded the schema declares its
/// relation type: processing this span cannot fail.
pub open spec fn span_ok(
    span: Span,
    schema: Seq<(String, Vec<String>)>,
    ctx: Seq<(String, String)>,
) -> bool {
    match decode_spec(span.class@) {
        None => false,
        Some(p) => labels_of(ctx, span.text@).len() == 0 || lookup(schema, p.1) is Some,
    }
}

/// The span decodes into a relation that survives validation: its object
/// text is grounded among the extracted entities and carries at least one
/// label the schema permits for the relation type.
pub open spec fn span_kept(
    span: Span,
    schema: Seq<(String, Vec<String>)>,
    ctx: Seq<(String, String)>,
) -> bool {
    match decode_spec(span.class@) {
        None => false,
        Some(p) => {
            let potential = labels_of(ctx, span.text@);
            potential.len() > 0 && match lookup(schema, p.1) {
                Some(allowed) => spec_allows(allowed@, potential),
                None => false,
            }
        },
    }
}

/// `e` is the error that processing `span` produces.
pub open spec fn span_err(
    span: Span,
    schema: Seq<(String, Vec<String>)>,
    ctx: Seq<(String, String)>,
    e: RelationFormatError,
) -> bool {
    match decode_spec(span.class@) {
        None => e.kind == RelationErrorKind::InvalidRelationLabel && e.label@ == span.class@,
        Some(p) => labels_of(ctx, span.text@).len() > 0 && lookup(schema, p.1) is None && e.kind
            == RelationErrorKind::UnexpectedRelationLabel && e.label@ == p.1,
    }
}

/// The subsequence of `spans` that survives validation.
pub open spec fn kept_spans(
    spans: Seq<Span>,
    schema: Seq<(String, Vec<String>)>,
    ctx: Seq<(String, String)>,
) -> Seq<Span>
    decreases spans.len(),
{
    if spans.len() == 0 {
        Seq::empty()
    } else {
        (if span_kept(spans[0], schema, ctx) {
            seq![spans[0]]
        } else {
            Seq::empty()
        }) + kept_spans(spans.drop_first(), schema, ctx)
    }
}

/// `rels` are exactly the decodings of `spans`, in order.
pub open spec fn rels_match(rels: Seq<Relation>, spans: Seq<Span>) -> bool {
    rels.len() == spans.len() && forall|k: int| 0 <= k < rels.len() ==> rel_matches(rels[k], spans[k])
}

proof fn lemma_kept_app(
    a: Seq<Span>,
    b: Seq<Span>,
    schema: Seq<(String, Vec<String>)>,
    ctx: Seq<(String, String)>,
)
    ensures
        kept_spans(a + b, schema, ctx) == kept_spans(a, schema, ctx) + kept_spans(b, schema, ctx),
    decreases a.len(),
{
    if a.len() == 0 {
        assert(a + b =~= b);
        assert(kept_spans(a, schema, ctx) + kept_spans(b, schema, ctx) =~= kept_spans(
            b,
            schema,
            ctx,
        ));
    } else {
        let c = a + b;
        assert(c[0] == a[0]);
        assert(c.drop_first() =~= a.drop_first() + b);
        lemma_kept_app(a.drop_first(), b, schema, ctx);
        let head = if span_kept(a[0], schema, ctx) {
            seq![a[0]]
        } else {
            Seq::<Span>::empty()
        };
        assert(head + (kept_spans(a.drop_first(), schema, ctx) + kept_spans(b, schema, ctx)) =~= (
        head + kept_spans(a.drop_first(), schema, ctx)) + kept_spans(b, schema, ctx));
    }
}

/// `out` is the validated relation output of `input` under the schema and
/// the entity context: texts and entities are carried through, and each
/// sequence's relations are exactly the decodings of its surviving spans.
/// Moreover every span decodes without error.
pub open spec fn relation_output_matches(
    schema: Seq<(String, Vec<String>)>,
    ctx: Seq<(String, String)>,
    input: SpanOutput,
    out: RelationOutput,
) -> bool {
    &&& out.texts == input.texts
    &&& out.entities == input.entities
    &&& out.relations@.len() == input.spans@.len()
    &&& forall|s: int|
        0 <= s < input.spans@.len() ==> rels_match(
            out.relations@[s]@,
            kept_spans(input.spans@[s]@, schema, ctx),
        )
    &&& forall|s: int, k: int|
        0 <= s < input.spans@.len() && 0 <= k < input.spans@[s]@.len() ==> span_ok(
            input.spans@[s]@[k],
            schema,
            ctx,
        )
}

/// `e` is the failure of some span of `input` under the schema and the
/// entity context.
pub open spec fn relation_output_err(
    schema: Seq<(String, Vec<String>)>,
    ctx: Seq<(String, String)>,
    input: SpanOutput,
    e: RelationFormatError,
) -> bool {
    exists|s: int, k: int|
        0 <= s < input.spans@.len() && 0 <= k < input.spans@[s]@.len() && span_err(
            input.spans@[s]@[k],
            schema,
            ctx,
            e,
        )
}

/// Transformation from the entity-extraction output to the validated
/// relation output, filtering against `schema`.
pub struct SpanOutputToRelationOutput<'a> {
    pub schema: &'a RelationSchema,
}

impl<'a> SpanOutputToRelationOutput<'a> {
    pub fn new(schema: &'a RelationSchema) -> (r: Self)
        ensures
            r.schema == schema,
    {
        Self { schema }
    }

    /// Is the relation valid under the schema and the extracted entities?
    ///
    /// An object text never extracted as an entity makes the relation
    /// invalid (not an error); a relation type missing from the schema is a
    /// hard error.
    fn is_valid(&self, relation: &Relation, context: &RelationContext) -> (r: Result<
        bool,
        RelationFormatError,
    >)
        ensures
            ({
                let potential = labels_of(context.entity_labels.entries@, relation.object@);
                &&& (potential.len() == 0 ==> r == Ok::<bool, RelationFormatError>(false))
                &&& potential.len() > 0 ==> match lookup(self.schema.entries@, relation.class@) {
                    Some(allowed) => r == Ok::<bool, RelationFormatError>(
                        spec_allows(allowed@, potential),
                    ),
                    None => r matches Err(e) && e.kind == RelationErrorKind::UnexpectedRelationLabel
                        && e.label@ == relation.class@,
                }
            }),
    {
        match context.entity_labels.get(&relation.object) {
            Some(potential_labels) => {
                match self.schema.get(&relation.class) {
                    Some(spec_objects) => Ok(allows_one_of_objects(spec_objects, &potential_labels)),
                    None => RelationFormatError::unexpected_relation_label(
                        relation.class.as_str(),
                    ).err(),
                }
            },
            None => Ok(false),
        }
    }

    /// Decode every accepted span into a relation and keep the valid ones,
    /// per sequence. The first malformed label or undeclared relation type
    /// aborts the call with its error.
    #[verifier::loop_isolation(false)]
    pub fn apply(&self, input: SpanOutput, context: &RelationContext) -> (r: Result<
        RelationOutput,
        RelationFormatError,
    >)
        ensures
            r matches Ok(out) ==> relation_output_matches(
                self.schema.entries@,
                context.entity_labels.entries@,
                input,
                out,
            ),
            r matches Err(e) ==> relation_output_err(
                self.schema.entries@,
                context.entity_labels.entries@,
                input,
                e,
            ),
    {
        let ghost schema_entries = self.schema.entries@;
        let ghost ctx_entries = context.entity_labels.entries@;
        let SpanOutput { texts, entities, spans } = input;
        let ghost all = spans@;
        let mut seqs = spans;
        let mut result: Vec<Vec<Relation>> = Vec::new();
        proof {
            assert(all.skip(0) =~= all);
        }
        while seqs.len() > 0
            invariant
                schema_entries == self.schema.entries@,
                ctx_entries == context.entity_labels.entries@,
                result@.len() + seqs@.len() == all.len(),
                seqs@ == all.skip(result@.len() as int),
                forall|s: int|
                    0 <= s < result@.len() ==> rels_match(
                        result@[s]@,
                        kept_spans(all[s]@, schema_entries, ctx_entries),
                    ),
                forall|s: int, k: int|
                    0 <= s < result@.len() && 0 <= k < all[s]@.len() ==> span_ok(
                        all[s]@[k],
                        schema_entries,
                        ctx_entries,
                    ),
            decreases seqs.len(),
        {
            let ghost snum = result@.len() as int;
            let seq_spans = seqs.remove(0);
            proof {
                assert(all.skip(snum)[0] == all[snum]);
                assert(seq_spans == all[snum]);
                assert(seqs@ =~= all.skip(snum + 1));
            }
            let ghost sall = seq_spans@;
            let mut rest = seq_spans;
            let mut rels: Vec<Relation> = Vec::new();
            proof {
                assert(sall.take(0) =~= Seq::<Span>::empty());
                assert(rels_match(rels@, kept_spans(sall.take(0), schema_entries, ctx_entries)));
            }
            while rest.len() > 0
                invariant
                    schema_entries == self.schema.entries@,
                    ctx_entries == context.entity_labels.entries@,
                    rest@.len() <= sall.len(),
                    rest@ == sall.skip(sall.len() - rest@.len()),
                    rels_match(
                        rels@,
                        kept_spans(
                            sall.take(sall.len() - rest@.len()),
                            schema_entries,
                            ctx_entries,
                        ),
                    ),
                    forall|k: int|
                        0 <= k < sall.len() - rest@.len() ==> span_ok(
                            sall[k],
                            schema_entries,
                            ctx_entries,
                        ),
                    snum == result@.len() as int,
                    0 <= snum < all.len(),
                    sall == all[snum]@,
                decreases rest.len(),
            {
                let ghost j = sall.len() as int - rest@.len() as int;
                let span = rest.remove(0);
                proof {
                    assert(sall.skip(j)[0] == sall[j]);
                    assert(span == sall[j]);
                    assert(rest@ =~= sall.skip(j + 1));
                }
                match Relation::from(span) {
                    Ok(rel) => {
                        match self.is_valid(&rel, context) {
                            Ok(valid) => {
                                let ghost r0 = rels@;
                                if valid {
                                    rels.push(rel);
                                }
                                proof {
                                    assert(decode_spec(sall[j].class@) is Some);
                                    assert(rel_matches(rel, sall[j]));
                                    assert(rel.object@ == sall[j].text@);
                                    assert(span_kept(sall[j], schema_entries, ctx_entries)
                                        == valid);
                                    assert(span_ok(sall[j], schema_entries, ctx_entries));
                                    assert(sall.take(j + 1) =~= sall.take(j) + seq![sall[j]]);
                                    lemma_kept_app(
                                        sall.take(j),
                                        seq![sall[j]],
                                        schema_entries,
                                        ctx_entries,
                                    );
                                    let tailk = kept_spans(
                                        seq![sall[j]],
                                        schema_entries,
                                        ctx_entries,
                                    );
                                    assert(seq![sall[j]][0] == sall[j]);
                                    assert(seq![sall[j]].drop_first() =~= Seq::<Span>::empty());
                                    assert(kept_spans(
                                        Seq::<Span>::empty(),
                                        schema_entries,
                                        ctx_entries,
                                    ) == Seq::<Span>::empty());
                                    if valid {
                                        assert(tailk == seq![sall[j]] + Seq::<Span>::empty());
                                        assert(seq![sall[j]] + Seq::<Span>::empty() =~= seq![
                                            sall[j],
                                        ]);
                                    } else {
                                        assert(tailk == Seq::<Span>::empty() + Seq::<
                                            Span,
                                        >::empty());
                                        assert(Seq::<Span>::empty() + Seq::<Span>::empty() =~= Seq::<
                                            Span,
                                        >::empty());
                                    }
                                    let kept_new = kept_spans(
                                        sall.take(j + 1),
                                        schema_entries,
                                        ctx_entries,
                                    );
                                    let kept_old = kept_spans(
                                        sall.take(j),
                                        schema_entries,
                                        ctx_entries,
                                    );
                                    assert(kept_new == kept_old + tailk);
                                    assert forall|k: int| 0 <= k < rels@.len() implies rel_matches(
                                        rels@[k],
                                        kept_new[k],
                                    ) by {
                                        if k < r0.len() {
                                            assert(rels@[k] == r0[k]);
                                            assert(kept_new[k] == kept_old[k]);
                                        } else {
                                            assert(rels@[k] == rel);
                                            assert(kept_new[k] == sall[j]);
                                        }
                                    }
                                }
                            },
                            Err(e) => {
                                proof {
                                    assert(span_err(sall[j], schema_entries, ctx_entries, e));
                                    assert(all[snum]@[j] == sall[j]);
                                }
                                return Err(e);
                            },
                        }
                    },
                    Err(e) => {
                        proof {
                            assert(span_err(sall[j], schema_entries, ctx_entries, e));
                            assert(all[snum]@[j] == sall[j]);
                        }
                        return Err(e);
                    },
                }
            }
            proof {
                assert(sall.take(sall.len() as int) =~= sall);
            }
            let ghost res0 = result@;
            result.push(rels);
            proof {
                assert forall|s: int| 0 <= s < result@.len() implies rels_match(
                    result@[s]@,
                    kept_spans(all[s]@, schema_entries, ctx_entries),
                ) by {
                    if s < res0.len() {
                        assert(result@[s] == res0[s]);
                    } else {
                        assert(result@[s] == rels);
                    }
                }
            }
        }
        proof {
            assert(result@.len() == all.len());
        }
        Ok(RelationOutput { texts, entities, relations: result })
    }
}

} // verus!
