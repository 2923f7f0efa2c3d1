//! Generic sequential composition of pipeline stages.
//!
//! A stage fallibly transforms an input into an output, reading a shared
//! context value. Chaining a stage that produces `M` with a stage that
//! consumes `M` yields a single stage: the context is threaded through
//! unchanged, and the first failure short-circuits the remaining stages.

use vstd::prelude::*;
use crate::span::Span;
use crate::decoded::{SpanOutput, ScoreInput, ScoresToDecoded, OffsetError};
use crate::decoded::{cells_of_seq, spans_of_cells, cell_valid};
use crate::greedy::{GreedySearch, greedy_spec};
use crate::context::RelationContext;
use crate::relation::{
    SpanOutputToRelationOutput,
    RelationOutput,
    RelationFormatError,
    relation_output_matches,
    relation_output_err,
};

verus! {

/// A fallible transformation from `I` to `O` under a read-only context `C`.
///
/// `stage_pre` is what the stage demands of its input; `stage_post` relates
/// input and output on success; `stage_err` says which errors the stage can
/// produce, and on which inputs.
pub trait Stage<I, C, E> {
    /// What the stage produces on success.
    type Output;

    spec fn stage_pre(&self, input: I, context: C) -> bool;

    spec fn stage_post(&self, input: I, context: C, output: Self::Output) -> bool;

    spec fn stage_err(&self, input: I, context: C, err: E) -> bool;

    fn apply(&self, input: I, context: &C) -> (r: Result<Self::Output, E>)
        requires
            self.stage_pre(input, *context),
        ensures
            r matches Ok(o) ==> self.stage_post(input, *context, o),
            r matches Err(e) ==> self.stage_err(input, *context, e),
    ;
}

/// Sequential composition of two stages sharing one context and one error
/// type.
pub struct Chain<S1, S2> {
    pub first: S1,
    pub second: S2,
}

impl<I, C, E, S1, S2> Stage<I, C, E> for Chain<S1, S2> where
    S1: Stage<I, C, E>,
    S2: Stage<<S1 as Stage<I, C, E>>::Output, C, E>,
 {
    type Output = <S2 as Stage<<S1 as Stage<I, C, E>>::Output, C, E>>::Output;

    open spec fn stage_pre(&self, input: I, context: C) -> bool {
        self.first.stage_pre(input, context) && forall|m: <S1 as Stage<I, C, E>>::Output|
            self.first.stage_post(input, context, m) ==> self.second.stage_pre(m, context)
    }

    open spec fn stage_post(&self, input: I, context: C, output: Self::Output) -> bool {
        exists|m: <S1 as Stage<I, C, E>>::Output|
            self.first.stage_post(input, context, m) && self.second.stage_post(m, context, output)
    }

    open spec fn stage_err(&self, input: I, context: C, err: E) -> bool {
        self.first.stage_err(input, context, err) || exists|m: <S1 as Stage<I, C, E>>::Output|
            self.first.stage_post(input, context, m) && self.second.stage_err(m, context, err)
    }

    fn apply(&self, input: I, context: &C) -> (r: Result<Self::Output, E>) {
        match self.first.apply(input, context) {
            Ok(mid) => {
                let ghost gm = mid;
                let r = self.second.apply(mid, context);
                proof {
                    if r is Ok {
                        assert(self.first.stage_post(input, *context, gm)
                            && self.second.stage_post(mid, *context, r->Ok_0));
                    }
                    if r is Err {
                        assert(self.first.stage_post(input, *context, gm)
                            && self.second.stage_err(mid, *context, r->Err_0));
                    }
                }
                r
            },
            Err(e) => Err(e),
        }
    }
}

/// Compose two stages into their sequential chain.
pub fn compose<S1, S2>(first: S1, second: S2) -> (r: Chain<S1, S2>)
    ensures
        r.first == first,
        r.second == second,
{
    Chain { first, second }
}

impl<C> Stage<ScoreInput, C, OffsetError> for ScoresToDecoded {
    type Output = SpanOutput;

    open spec fn stage_pre(&self, input: ScoreInput, context: C) -> bool {
        true
    }

    open spec fn stage_post(&self, input: ScoreInput, context: C, out: SpanOutput) -> bool {
        &&& out.texts@ == input.texts@
        &&& out.entities@ == input.entities@
        &&& out.spans@.len() == input.texts@.len()
        &&& forall|s: int|
            0 <= s < out.spans@.len() ==> spans_of_cells(
                out.spans@[s]@,
                cells_of_seq(input.cells@, s, self.threshold),
                input.texts@,
                input.entities@,
                input.offsets@,
            )
    }

    open spec fn stage_err(&self, input: ScoreInput, context: C, e: OffsetError) -> bool {
        e.cell < input.cells@.len() && input.cells@[e.cell as int].score >= self.threshold
            && !cell_valid(
            input.cells@[e.cell as int],
            input.texts@,
            input.entities@,
            input.offsets@,
        )
    }

    fn apply(&self, input: ScoreInput, context: &C) -> (r: Result<SpanOutput, OffsetError>) {
        ScoresToDecoded::apply(self, &input)
    }
}

impl<C, E> Stage<SpanOutput, C, E> for GreedySearch {
    type Output = SpanOutput;

    open spec fn stage_pre(&self, input: SpanOutput, context: C) -> bool {
        true
    }

    open spec fn stage_post(&self, input: SpanOutput, context: C, out: SpanOutput) -> bool {
        &&& out.texts == input.texts
        &&& out.entities == input.entities
        &&& out.spans@.len() == input.spans@.len()
        &&& forall|s: int|
            0 <= s < input.spans@.len() ==> out.spans@[s]@ == greedy_spec(
                input.spans@[s]@,
                self.flat,
                self.multi_label,
            )
    }

    open spec fn stage_err(&self, input: SpanOutput, context: C, e: E) -> bool {
        false
    }

    #[verifier::loop_isolation(false)]
    fn apply(&self, input: SpanOutput, context: &C) -> (r: Result<SpanOutput, E>) {
        let SpanOutput { texts, entities, spans } = input;
        let ghost all = spans@;
        let mut seqs = spans;
        let mut out: Vec<Vec<Span>> = Vec::new();
        while seqs.len() > 0
            invariant
                out@.len() + seqs@.len() == all.len(),
                seqs@ == all.skip(out@.len() as int),
                forall|s: int|
                    0 <= s < out@.len() ==> out@[s]@ == greedy_spec(
                        all[s]@,
                        self.flat,
                        self.multi_label,
                    ),
            decreases seqs.len(),
        {
            let ghost i = out@.len() as int;
            let cands = seqs.remove(0);
            proof {
                assert(all.skip(i)[0] == all[i]);
                assert(cands == all[i]);
                assert(seqs@ =~= all.skip(i + 1));
            }
            let picked = self.search(cands);
            out.push(picked);
        }
        Ok(SpanOutput { texts, entities, spans: out })
    }
}

impl<'a> Stage<SpanOutput, RelationContext, RelationFormatError> for SpanOutputToRelationOutput<'a> {
    type Output = RelationOutput;

    open spec fn stage_pre(&self, input: SpanOutput, context: RelationContext) -> bool {
        true
    }

    open spec fn stage_post(
        &self,
        input: SpanOutput,
        context: RelationContext,
        out: RelationOutput,
    ) -> bool {
        relation_output_matches(self.schema.entries@, context.entity_labels.entries@, input, out)
    }

    open spec fn stage_err(
        &self,
        input: SpanOutput,
        context: RelationContext,
        e: RelationFormatError,
    ) -> bool {
        relation_output_err(self.schema.entries@, context.entity_labels.entries@, input, e)
    }

    fn apply(&self, input: SpanOutput, context: &RelationContext) -> (r: Result<
        RelationOutput,
        RelationFormatError,
    >) {
        SpanOutputToRelationOutput::apply(self, input, context)
    }
}

} // verus!
