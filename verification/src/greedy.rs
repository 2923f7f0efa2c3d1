//! Greedy overlap resolution over scored span candidates.
//!
//! Candidates are ranked by probability (descending, ties broken by shorter
//! range, then lower start offset, then input order), then walked greedily:
//! a candidate is accepted unless it conflicts with an already accepted span
//! under the active policy flags. The accepted set is returned in ascending
//! offset order.

use vstd::prelude::*;
use crate::span::{Span, intersects, same_offsets, crossing, contains};

verus! {

/// Length of a span's range.
pub open spec fn span_len(a: Span) -> int {
    a.end - a.start
}

/// Strict ranking: `a` must come before `b` in the greedy walk.
/// Higher probability first; ties broken by shorter range, then lower start.
pub open spec fn prio_lt(a: Span, b: Span) -> bool {
    ||| a.probability > b.probability
    ||| (a.probability == b.probability && span_len(a) < span_len(b))
    ||| (a.probability == b.probability && span_len(a) == span_len(b) && a.start < b.start)
}

/// Insert `x` into `s` before the first element that does not strictly
/// outrank it (so equal-ranked elements already present stay in front of
/// nothing: `x` goes before its ties, which entered later).
pub open spec fn insert_ranked(x: Span, s: Seq<Span>) -> Seq<Span>
    decreases s.len(),
{
    if s.len() == 0 {
        seq![x]
    } else if prio_lt(s[0], x) {
        seq![s[0]] + insert_ranked(x, s.drop_first())
    } else {
        seq![x] + s
    }
}

/// Stable insertion sort by `prio_lt`, descending rank first.
pub open spec fn rank_sorted(s: Seq<Span>) -> Seq<Span>
    decreases s.len(),
{
    if s.len() == 0 {
        Seq::empty()
    } else {
        insert_ranked(s[0], rank_sorted(s.drop_first()))
    }
}

/// The pair `(a, b)` is admissible in one accepted set under the policy flags.
pub open spec fn ok_pair(a: Span, b: Span, flat: bool, multi: bool) -> bool {
    &&& (!multi ==> !same_offsets(a, b))
    &&& (flat ==> (!intersects(a, b) || (multi && same_offsets(a, b))))
    &&& (!flat ==> !crossing(a, b))
}

/// The candidate `c` conflicts with at least one accepted span in `acc`.
pub open spec fn rejects(acc: Seq<Span>, c: Span, flat: bool, multi: bool) -> bool {
    exists|i: int| 0 <= i < acc.len() && !ok_pair(acc[i], c, flat, multi)
}

/// Greedy walk over the ranked candidates `s`, with `acc` already accepted:
/// the newly accepted candidates, in walk order.
pub open spec fn select_rec(s: Seq<Span>, acc: Seq<Span>, flat: bool, multi: bool) -> Seq<Span>
    decreases s.len(),
{
    if s.len() == 0 {
        Seq::empty()
    } else if rejects(acc, s[0], flat, multi) {
        select_rec(s.drop_first(), acc, flat, multi)
    } else {
        seq![s[0]] + select_rec(s.drop_first(), acc.push(s[0]), flat, multi)
    }
}

/// Ascending output order: lower start first, ties broken by lower end.
pub open spec fn offset_lt(a: Span, b: Span) -> bool {
    ||| a.start < b.start
    ||| (a.start == b.start && a.end < b.end)
}

/// Insert `x` into `s` before the first element it does not strictly follow.
pub open spec fn insert_by_offset(x: Span, s: Seq<Span>) -> Seq<Span>
    decreases s.len(),
{
    if s.len() == 0 {
        seq![x]
    } else if offset_lt(s[0], x) {
        seq![s[0]] + insert_by_offset(x, s.drop_first())
    } else {
        seq![x] + s
    }
}

/// Stable insertion sort by ascending offsets.
pub open spec fn offset_sorted(s: Seq<Span>) -> Seq<Span>
    decreases s.len(),
{
    if s.len() == 0 {
        Seq::empty()
    } else {
        insert_by_offset(s[0], offset_sorted(s.drop_first()))
    }
}

/// The whole selector: rank the candidates, walk them greedily, and order
/// the accepted set by ascending offsets.
pub open spec fn greedy_spec(cands: Seq<Span>, flat: bool, multi: bool) -> Seq<Span> {
    offset_sorted(select_rec(rank_sorted(cands), Seq::empty(), flat, multi))
}

/// Exec counterpart of `prio_lt`. Lengths are compared by cross-addition in a
/// wide type, so no bound on the offsets is needed.
fn rank_before(a: &Span, b: &Span) -> (r: bool)
    ensures
        r == prio_lt(*a, *b),
{
    if a.probability > b.probability {
        true
    } else if a.probability == b.probability {
        let alen_cross = a.end as u128 + b.start as u128;
        let blen_cross = b.end as u128 + a.start as u128;
        if alen_cross < blen_cross {
            true
        } else if alen_cross == blen_cross {
            a.start < b.start
        } else {
            false
        }
    } else {
        false
    }
}

proof fn lemma_insert_ranked_at(x: Span, s: Seq<Span>, j: int)
    requires
        0 <= j <= s.len(),
        forall|k: int| 0 <= k < j ==> prio_lt(s[k], x),
        j < s.len() ==> !prio_lt(s[j], x),
    ensures
        insert_ranked(x, s) == s.take(j) + seq![x] + s.skip(j),
    decreases j,
{
    if j == 0 {
        assert(insert_ranked(x, s) == s.take(0) + seq![x] + s.skip(0)) by {
            assert(s.take(0) + seq![x] + s.skip(0) =~= seq![x] + s);
            if s.len() == 0 {
                assert(seq![x] + s =~= seq![x]);
            }
        }
    } else {
        let t = s.drop_first();
        lemma_insert_ranked_at(x, t, j - 1);
        assert(insert_ranked(x, s) == seq![s[0]] + insert_ranked(x, t));
        assert(seq![s[0]] + (t.take(j - 1) + seq![x] + t.skip(j - 1)) =~= s.take(j) + seq![x]
            + s.skip(j));
    }
}

/// Insert `x` into the rank-ordered vector `out` at its proper place.
fn insert_ranked_exec(out: &mut Vec<Span>, x: Span)
    ensures
        final(out)@ == insert_ranked(x, old(out)@),
{
    let ghost s = out@;
    let mut j: usize = 0;
    while j < out.len() && rank_before(&out[j], &x)
        invariant
            0 <= j <= out.len(),
            out@ == s,
            forall|k: int| 0 <= k < j ==> prio_lt(s[k], x),
        decreases out.len() - j,
    {
        j += 1;
    }
    proof {
        lemma_insert_ranked_at(x, s, j as int);
    }
    out.insert(j, x);
    assert(out@ =~= s.take(j as int) + seq![x] + s.skip(j as int));
}

/// Sort the candidates by descending rank, stably.
fn sort_by_rank(cands: Vec<Span>) -> (r: Vec<Span>)
    ensures
        r@ == rank_sorted(cands@),
{
    let ghost s0 = cands@;
    let mut rest = cands;
    let mut out: Vec<Span> = Vec::new();
    proof {
        assert(s0.take(s0.len() as int) =~= s0);
        assert(s0.skip(s0.len() as int) =~= Seq::<Span>::empty());
    }
    while rest.len() > 0
        invariant
            rest@.len() <= s0.len(),
            rest@ == s0.take(rest@.len() as int),
            out@ == rank_sorted(s0.skip(rest@.len() as int)),
        decreases rest.len(),
    {
        let ghost r0 = rest@;
        let ghost i: int = r0.len() as int - 1;
        let x = rest.pop().unwrap();
        proof {
            assert(r0 == s0.take(i + 1));
            assert(x == r0[i]);
            assert(s0.take(i + 1)[i] == s0[i]);
            assert(rest@ =~= s0.take(i));
        }
        insert_ranked_exec(&mut out, x);
        proof {
            let u = s0.skip(i);
            assert(u[0] == s0[i]);
            assert(u.drop_first() =~= s0.skip(i + 1));
            assert(out@ == rank_sorted(u));
        }
    }
    proof {
        assert(s0.skip(0) =~= s0);
    }
    out
}

/// Exec counterpart of `!ok_pair`: the two spans cannot share one accepted
/// set under the policy flags.
fn pair_conflict(a: &Span, b: &Span, flat: bool, multi: bool) -> (r: bool)
    ensures
        r == !ok_pair(*a, *b, flat, multi),
{
    let same = a.start == b.start && a.end == b.end;
    let inter = a.start < b.end && b.start < a.end;
    let a_in_b = b.start <= a.start && a.end <= b.end;
    let b_in_a = a.start <= b.start && b.end <= a.end;
    if !multi && same {
        true
    } else if flat {
        inter && !(multi && same)
    } else {
        inter && !a_in_b && !b_in_a
    }
}

/// Does `c` conflict with any span already accepted in `acc`?
fn conflicts_any(acc: &Vec<Span>, c: &Span, flat: bool, multi: bool) -> (r: bool)
    ensures
        r == rejects(acc@, *c, flat, multi),
{
    let mut i: usize = 0;
    while i < acc.len()
        invariant
            0 <= i <= acc@.len(),
            forall|k: int| 0 <= k < i ==> ok_pair(acc@[k], *c, flat, multi),
        decreases acc.len() - i,
    {
        if pair_conflict(&acc[i], c, flat, multi) {
            assert(!ok_pair(acc@[i as int], *c, flat, multi));
            return true;
        }
        i += 1;
    }
    false
}

/// Walk the ranked candidates in order, keeping each one that does not
/// conflict with the spans accepted before it.
fn select_spans(sorted: Vec<Span>, flat: bool, multi: bool) -> (r: Vec<Span>)
    ensures
        r@ == select_rec(sorted@, Seq::empty(), flat, multi),
{
    let ghost s0 = sorted@;
    let mut rest = sorted;
    let mut acc: Vec<Span> = Vec::new();
    proof {
        assert(Seq::<Span>::empty() + select_rec(s0, Seq::empty(), flat, multi) =~= select_rec(
            s0,
            Seq::empty(),
            flat,
            multi,
        ));
    }
    while rest.len() > 0
        invariant
            select_rec(s0, Seq::empty(), flat, multi) == acc@ + select_rec(
                rest@,
                acc@,
                flat,
                multi,
            ),
        decreases rest.len(),
    {
        let ghost r0 = rest@;
        let ghost a0 = acc@;
        let c = rest.remove(0);
        proof {
            assert(c == r0[0]);
            assert(rest@ =~= r0.drop_first());
        }
        if conflicts_any(&acc, &c, flat, multi) {
            proof {
                assert(select_rec(r0, a0, flat, multi) == select_rec(
                    r0.drop_first(),
                    a0,
                    flat,
                    multi,
                ));
            }
        } else {
            acc.push(c);
            proof {
                assert(select_rec(r0, a0, flat, multi) == seq![c] + select_rec(
                    r0.drop_first(),
                    a0.push(c),
                    flat,
                    multi,
                ));
                assert(a0 + (seq![c] + select_rec(r0.drop_first(), a0.push(c), flat, multi))
                    =~= acc@ + select_rec(rest@, acc@, flat, multi));
            }
        }
    }
    proof {
        assert(acc@ + select_rec(rest@, acc@, flat, multi) =~= acc@);
    }
    acc
}

/// Exec counterpart of `offset_lt`.
fn offset_before(a: &Span, b: &Span) -> (r: bool)
    ensures
        r == offset_lt(*a, *b),
{
    a.start < b.start || (a.start == b.start && a.end < b.end)
}

proof fn lemma_insert_by_offset_at(x: Span, s: Seq<Span>, j: int)
    requires
        0 <= j <= s.len(),
        forall|k: int| 0 <= k < j ==> offset_lt(s[k], x),
        j < s.len() ==> !offset_lt(s[j], x),
    ensures
        insert_by_offset(x, s) == s.take(j) + seq![x] + s.skip(j),
    decreases j,
{
    if j == 0 {
        assert(insert_by_offset(x, s) == s.take(0) + seq![x] + s.skip(0)) by {
            assert(s.take(0) + seq![x] + s.skip(0) =~= seq![x] + s);
            if s.len() == 0 {
                assert(seq![x] + s =~= seq![x]);
            }
        }
    } else {
        let t = s.drop_first();
        lemma_insert_by_offset_at(x, t, j - 1);
        assert(insert_by_offset(x, s) == seq![s[0]] + insert_by_offset(x, t));
        assert(seq![s[0]] + (t.take(j - 1) + seq![x] + t.skip(j - 1)) =~= s.take(j) + seq![x]
            + s.skip(j));
    }
}

/// Insert `x` into the offset-ordered vector `out` at its proper place.
fn insert_by_offset_exec(out: &mut Vec<Span>, x: Span)
    ensures
        final(out)@ == insert_by_offset(x, old(out)@),
{
    let ghost s = out@;
    let mut j: usize = 0;
    while j < out.len() && offset_before(&out[j], &x)
        invariant
            0 <= j <= out.len(),
            out@ == s,
            forall|k: int| 0 <= k < j ==> offset_lt(s[k], x),
        decreases out.len() - j,
    {
        j += 1;
    }
    proof {
        lemma_insert_by_offset_at(x, s, j as int);
    }
    out.insert(j, x);
    assert(out@ =~= s.take(j as int) + seq![x] + s.skip(j as int));
}

/// Sort the accepted spans by ascending offsets, stably.
fn sort_spans_by_offset(spans: Vec<Span>) -> (r: Vec<Span>)
    ensures
        r@ == offset_sorted(spans@),
{
    let ghost s0 = spans@;
    let mut rest = spans;
    let mut out: Vec<Span> = Vec::new();
    proof {
        assert(s0.take(s0.len() as int) =~= s0);
        assert(s0.skip(s0.len() as int) =~= Seq::<Span>::empty());
    }
    while rest.len() > 0
        invariant
            rest@.len() <= s0.len(),
            rest@ == s0.take(rest@.len() as int),
            out@ == offset_sorted(s0.skip(rest@.len() as int)),
        decreases rest.len(),
    {
        let ghost r0 = rest@;
        let ghost i: int = r0.len() as int - 1;
        let x = rest.pop().unwrap();
        proof {
            assert(r0 == s0.take(i + 1));
            assert(x == r0[i]);
            assert(s0.take(i + 1)[i] == s0[i]);
            assert(rest@ =~= s0.take(i));
        }
        insert_by_offset_exec(&mut out, x);
        proof {
            let u = s0.skip(i);
            assert(u[0] == s0[i]);
            assert(u.drop_first() =~= s0.skip(i + 1));
            assert(out@ == offset_sorted(u));
        }
    }
    proof {
        assert(s0.skip(0) =~= s0);
    }
    out
}

/// Every pair of distinct spans in `s` is admissible under the policy flags.
pub open spec fn pairwise_ok(s: Seq<Span>, flat: bool, multi: bool) -> bool {
    forall|i: int, j: int| 0 <= i < j < s.len() ==> ok_pair(s[i], s[j], flat, multi)
}

proof fn lemma_ok_pair_sym(a: Span, b: Span, flat: bool, multi: bool)
    ensures
        ok_pair(a, b, flat, multi) == ok_pair(b, a, flat, multi),
{
}

/// The greedy walk only accepts candidates that are admissible against
/// everything accepted before them, so the whole accepted set is pairwise
/// admissible.
proof fn lemma_select_pairwise(s: Seq<Span>, acc: Seq<Span>, flat: bool, multi: bool)
    ensures
        forall|a: int, r: int|
            0 <= a < acc.len() && 0 <= r < select_rec(s, acc, flat, multi).len() ==> ok_pair(
                acc[a],
                select_rec(s, acc, flat, multi)[r],
                flat,
                multi,
            ),
        pairwise_ok(select_rec(s, acc, flat, multi), flat, multi),
    decreases s.len(),
{
    let res = select_rec(s, acc, flat, multi);
    if s.len() == 0 {
    } else {
        let c = s[0];
        if rejects(acc, c, flat, multi) {
            lemma_select_pairwise(s.drop_first(), acc, flat, multi);
        } else {
            let acc2 = acc.push(c);
            let rest = select_rec(s.drop_first(), acc2, flat, multi);
            lemma_select_pairwise(s.drop_first(), acc2, flat, multi);
            assert(res == seq![c] + rest);
            assert forall|a: int| 0 <= a < acc.len() implies ok_pair(
                acc[a],
                c,
                flat,
                multi,
            ) by {
                assert(!(exists|i: int|
                    0 <= i < acc.len() && !ok_pair(acc[i], c, flat, multi)));
            }
            assert forall|a: int, r: int| 0 <= a < acc.len() && 0 <= r < res.len() implies ok_pair(
                acc[a],
                res[r],
                flat,
                multi,
            ) by {
                if r == 0 {
                    assert(res[0] == c);
                } else {
                    assert(res[r] == rest[r - 1]);
                    assert(acc2[a] == acc[a]);
                }
            }
            assert forall|i: int, j: int| 0 <= i < j < res.len() implies ok_pair(
                res[i],
                res[j],
                flat,
                multi,
            ) by {
                if i == 0 {
                    assert(res[j] == rest[j - 1]);
                    assert(acc2[acc.len() as int] == c);
                    assert(ok_pair(c, rest[j - 1], flat, multi));
                } else {
                    assert(res[i] == rest[i - 1]);
                    assert(res[j] == rest[j - 1]);
                }
            }
        }
    }
}

/// Inserting an element that is admissible with everything in a pairwise
/// admissible sequence keeps the sequence pairwise admissible.
proof fn lemma_insert_by_offset_pairwise(x: Span, s: Seq<Span>, flat: bool, multi: bool)
    requires
        pairwise_ok(s, flat, multi),
        forall|k: int| 0 <= k < s.len() ==> ok_pair(s[k], x, flat, multi),
    ensures
        insert_by_offset(x, s).len() == s.len() + 1,
        forall|k: int|
            0 <= k < insert_by_offset(x, s).len() ==> (insert_by_offset(x, s)[k] == x
                || s.contains(insert_by_offset(x, s)[k])),
        pairwise_ok(insert_by_offset(x, s), flat, multi),
    decreases s.len(),
{
    let res = insert_by_offset(x, s);
    if s.len() == 0 {
        assert(res == seq![x]);
    } else if offset_lt(s[0], x) {
        let t = s.drop_first();
        let sub = insert_by_offset(x, t);
        lemma_insert_by_offset_pairwise(x, t, flat, multi);
        assert(res == seq![s[0]] + sub);
        assert forall|k: int| 0 <= k < res.len() implies (res[k] == x || s.contains(res[k])) by {
            if k == 0 {
                assert(res[0] == s[0]);
                assert(s.contains(s[0]));
            } else {
                assert(res[k] == sub[k - 1]);
                if sub[k - 1] != x {
                    let m = choose|m: int| 0 <= m < t.len() && t[m] == sub[k - 1];
                    assert(s[m + 1] == sub[k - 1]);
                    assert(s.contains(s[m + 1]));
                }
            }
        }
        assert forall|i: int, j: int| 0 <= i < j < res.len() implies ok_pair(
            res[i],
            res[j],
            flat,
            multi,
        ) by {
            if i == 0 {
                assert(res[j] == sub[j - 1]);
                if sub[j - 1] == x {
                    assert(ok_pair(s[0], x, flat, multi));
                } else {
                    let m = choose|m: int| 0 <= m < t.len() && t[m] == sub[j - 1];
                    assert(s[m + 1] == sub[j - 1]);
                    assert(ok_pair(s[0], s[m + 1], flat, multi));
                }
            } else {
                assert(res[i] == sub[i - 1]);
                assert(res[j] == sub[j - 1]);
            }
        }
    } else {
        assert(res == seq![x] + s);
        assert forall|k: int| 0 <= k < res.len() implies (res[k] == x || s.contains(res[k])) by {
            if k > 0 {
                assert(res[k] == s[k - 1]);
                assert(s.contains(s[k - 1]));
            }
        }
        assert forall|i: int, j: int| 0 <= i < j < res.len() implies ok_pair(
            res[i],
            res[j],
            flat,
            multi,
        ) by {
            if i == 0 {
                assert(res[j] == s[j - 1]);
                lemma_ok_pair_sym(s[j - 1], x, flat, multi);
            } else {
                assert(res[i] == s[i - 1]);
                assert(res[j] == s[j - 1]);
            }
        }
    }
}

/// Reordering by offsets keeps the accepted set pairwise admissible.
proof fn lemma_offset_sorted_pairwise(s: Seq<Span>, flat: bool, multi: bool)
    requires
        pairwise_ok(s, flat, multi),
    ensures
        pairwise_ok(offset_sorted(s), flat, multi),
    decreases s.len(),
{
    if s.len() == 0 {
    } else {
        let t = s.drop_first();
        let sub = offset_sorted(t);
        lemma_offset_sorted_members(t);
        lemma_offset_sorted_pairwise(t, flat, multi);
        assert forall|k: int| 0 <= k < sub.len() implies ok_pair(sub[k], s[0], flat, multi) by {
            let m = choose|m: int| 0 <= m < t.len() && t[m] == sub[k];
            assert(s[m + 1] == sub[k]);
            assert(ok_pair(s[0], s[m + 1], flat, multi));
            lemma_ok_pair_sym(s[0], s[m + 1], flat, multi);
        }
        lemma_insert_by_offset_pairwise(s[0], sub, flat, multi);
    }
}

/// Every element of the offset-ordered sequence comes from the input.
proof fn lemma_offset_sorted_members(s: Seq<Span>)
    ensures
        offset_sorted(s).len() == s.len(),
        forall|k: int| 0 <= k < offset_sorted(s).len() ==> s.contains(offset_sorted(s)[k]),
    decreases s.len(),
{
    if s.len() == 0 {
    } else {
        let t = s.drop_first();
        let sub = offset_sorted(t);
        lemma_offset_sorted_members(t);
        lemma_insert_by_offset_members(s[0], sub);
        assert forall|k: int| 0 <= k < offset_sorted(s).len() implies s.contains(
            offset_sorted(s)[k],
        ) by {
            let e = offset_sorted(s)[k];
            if e == s[0] {
                assert(s.contains(s[0]));
            } else {
                assert(sub.contains(e));
                let m = choose|m: int| 0 <= m < sub.len() && sub[m] == e;
                let m2 = choose|m2: int| 0 <= m2 < t.len() && t[m2] == e;
                assert(s[m2 + 1] == e);
                assert(s.contains(s[m2 + 1]));
            }
        }
    }
}

/// Every element of an insertion result is the inserted element or one of
/// the original elements.
proof fn lemma_insert_by_offset_members(x: Span, s: Seq<Span>)
    ensures
        insert_by_offset(x, s).len() == s.len() + 1,
        forall|k: int|
            0 <= k < insert_by_offset(x, s).len() ==> (insert_by_offset(x, s)[k] == x
                || s.contains(insert_by_offset(x, s)[k])),
    decreases s.len(),
{
    let res = insert_by_offset(x, s);
    if s.len() == 0 {
    } else if offset_lt(s[0], x) {
        let t = s.drop_first();
        lemma_insert_by_offset_members(x, t);
        assert forall|k: int| 0 <= k < res.len() implies (res[k] == x || s.contains(res[k])) by {
            if k == 0 {
                assert(res[0] == s[0]);
                assert(s.contains(s[0]));
            } else {
                assert(res[k] == insert_by_offset(x, t)[k - 1]);
                if res[k] != x {
                    let m = choose|m: int| 0 <= m < t.len() && t[m] == res[k];
                    assert(s[m + 1] == res[k]);
                    assert(s.contains(s[m + 1]));
                }
            }
        }
    } else {
        assert forall|k: int| 0 <= k < res.len() implies (res[k] == x || s.contains(res[k])) by {
            if k > 0 {
                assert(res[k] == s[k - 1]);
                assert(s.contains(s[k - 1]));
            }
        }
    }
}

/// Greedy span selector: resolves overlapping candidates for one input
/// sequence under the `flat` and `multi_label` policies.
pub struct GreedySearch {
    /// Disallow any overlap between accepted spans, including nesting.
    pub flat: bool,
    /// Allow several accepted spans over the identical offset range.
    pub multi_label: bool,
}

impl GreedySearch {
    pub fn new(flat: bool, multi_label: bool) -> (r: GreedySearch)
        ensures
            r.flat == flat,
            r.multi_label == multi_label,
    {
        GreedySearch { flat, multi_label }
    }

    /// Resolve the candidates of one sequence into a policy-consistent
    /// accepted set, returned in ascending offset order.
    ///
    /// An empty candidate list yields an empty accepted set.
    pub fn search(&self, cands: Vec<Span>) -> (r: Vec<Span>)
        ensures
            r@ == greedy_spec(cands@, self.flat, self.multi_label),
            cands@.len() == 0 ==> r@.len() == 0,
    {
        let ranked = sort_by_rank(cands);
        let picked = select_spans(ranked, self.flat, self.multi_label);
        sort_spans_by_offset(picked)
    }
}

/// Determinism: the selector's result is a function of the candidates and
/// the policy flags alone, so two runs over identical inputs return the same
/// accepted set in the same order.
pub proof fn lemma_search_deterministic(
    cands: Seq<Span>,
    flat: bool,
    multi: bool,
    r1: Seq<Span>,
    r2: Seq<Span>,
)
    requires
        r1 == greedy_spec(cands, flat, multi),
        r2 == greedy_spec(cands, flat, multi),
    ensures
        r1 == r2,
{
}

/// The accepted set is pairwise admissible under the policy flags.
pub proof fn lemma_accepted_pairwise_ok(cands: Seq<Span>, flat: bool, multi: bool)
    ensures
        pairwise_ok(greedy_spec(cands, flat, multi), flat, multi),
{
    let ranked = rank_sorted(cands);
    let picked = select_rec(ranked, Seq::empty(), flat, multi);
    lemma_select_pairwise(ranked, Seq::empty(), flat, multi);
    lemma_offset_sorted_pairwise(picked, flat, multi);
}

/// Flat-mode invariant: in the accepted set of a `flat` run, no two spans
/// overlap at all — except that when `multi_label` is on, two spans may
/// cover the identical offset range (under different labels). When
/// `multi_label` is off, no two accepted spans share the same offsets.
pub proof fn lemma_flat_mode_invariant(cands: Seq<Span>, multi: bool)
    ensures
        forall|i: int, j: int|
            0 <= i < j < greedy_spec(cands, true, multi).len() ==> (!intersects(
                greedy_spec(cands, true, multi)[i],
                greedy_spec(cands, true, multi)[j],
            ) || (multi && same_offsets(
                greedy_spec(cands, true, multi)[i],
                greedy_spec(cands, true, multi)[j],
            ))),
        !multi ==> forall|i: int, j: int|
            0 <= i < j < greedy_spec(cands, true, multi).len() ==> !same_offsets(
                greedy_spec(cands, true, multi)[i],
                greedy_spec(cands, true, multi)[j],
            ),
{
    lemma_accepted_pairwise_ok(cands, true, multi);
    let r = greedy_spec(cands, true, multi);
    assert forall|i: int, j: int| 0 <= i < j < r.len() implies (!intersects(r[i], r[j]) || (multi
        && same_offsets(r[i], r[j]))) && (!multi ==> !same_offsets(r[i], r[j])) by {
        assert(ok_pair(r[i], r[j], true, multi));
    }
}

/// Nested-mode invariant: in the accepted set of a non-`flat` run, any two
/// spans are either disjoint or one contains the other — no crossing
/// overlap. When `multi_label` is off, no two accepted spans share the same
/// offsets.
pub proof fn lemma_nested_mode_invariant(cands: Seq<Span>, multi: bool)
    ensures
        forall|i: int, j: int|
            0 <= i < j < greedy_spec(cands, false, multi).len() ==> (!intersects(
                greedy_spec(cands, false, multi)[i],
                greedy_spec(cands, false, multi)[j],
            ) || contains(
                greedy_spec(cands, false, multi)[i],
                greedy_spec(cands, false, multi)[j],
            ) || contains(
                greedy_spec(cands, false, multi)[j],
                greedy_spec(cands, false, multi)[i],
            )),
        !multi ==> forall|i: int, j: int|
            0 <= i < j < greedy_spec(cands, false, multi).len() ==> !same_offsets(
                greedy_spec(cands, false, multi)[i],
                greedy_spec(cands, false, multi)[j],
            ),
{
    lemma_accepted_pairwise_ok(cands, false, multi);
    let r = greedy_spec(cands, false, multi);
    assert forall|i: int, j: int| 0 <= i < j < r.len() implies (!intersects(r[i], r[j]) || contains(
        r[i],
        r[j],
    ) || contains(r[j], r[i])) && (!multi ==> !same_offsets(r[i], r[j])) by {
        assert(ok_pair(r[i], r[j], false, multi));
    }
}

/// Sum of the probabilities of a span sequence.
pub open spec fn prob_sum(s: Seq<Span>) -> int
    decreases s.len(),
{
    if s.len() == 0 {
        0
    } else {
        s[0].probability + prob_sum(s.drop_first())
    }
}

proof fn lemma_prob_sum_cons(x: Span, s: Seq<Span>)
    ensures
        prob_sum(seq![x] + s) == x.probability + prob_sum(s),
{
    let c = seq![x] + s;
    assert(c[0] == x);
    assert(c.drop_first() =~= s);
}

proof fn lemma_prob_sum_insert_by_offset(x: Span, s: Seq<Span>)
    ensures
        prob_sum(insert_by_offset(x, s)) == x.probability + prob_sum(s),
    decreases s.len(),
{
    if s.len() == 0 {
        lemma_prob_sum_cons(x, Seq::empty());
        assert(seq![x] + Seq::<Span>::empty() =~= seq![x]);
    } else if offset_lt(s[0], x) {
        let t = s.drop_first();
        lemma_prob_sum_insert_by_offset(x, t);
        lemma_prob_sum_cons(s[0], insert_by_offset(x, t));
        lemma_prob_sum_cons(s[0], t);
        assert(seq![s[0]] + t =~= s);
    } else {
        lemma_prob_sum_cons(x, s);
    }
}

proof fn lemma_prob_sum_offset_sorted(s: Seq<Span>)
    ensures
        prob_sum(offset_sorted(s)) == prob_sum(s),
    decreases s.len(),
{
    if s.len() == 0 {
    } else {
        let t = s.drop_first();
        lemma_prob_sum_offset_sorted(t);
        lemma_prob_sum_insert_by_offset(s[0], offset_sorted(t));
    }
}

proof fn lemma_rejects_push(a: Seq<Span>, c: Span, y: Span, flat: bool, multi: bool)
    ensures
        rejects(a.push(c), y, flat, multi) == (rejects(a, y, flat, multi) || !ok_pair(
            c,
            y,
            flat,
            multi,
        )),
{
    if rejects(a.push(c), y, flat, multi) {
        let i = choose|i: int| 0 <= i < a.push(c).len() && !ok_pair(a.push(c)[i], y, flat, multi);
        if i < a.len() {
            assert(a.push(c)[i] == a[i]);
            assert(rejects(a, y, flat, multi));
        } else {
            assert(a.push(c)[i] == c);
        }
    }
    if rejects(a, y, flat, multi) {
        let i = choose|i: int| 0 <= i < a.len() && !ok_pair(a[i], y, flat, multi);
        assert(a.push(c)[i] == a[i]);
        assert(rejects(a.push(c), y, flat, multi));
    }
    if !ok_pair(c, y, flat, multi) {
        assert(a.push(c)[a.len() as int] == c);
        assert(rejects(a.push(c), y, flat, multi));
    }
}

/// The greedy walk's decisions depend on the accepted set only through the
/// conflicts it induces.
proof fn lemma_select_congruent(t: Seq<Span>, a1: Seq<Span>, a2: Seq<Span>, flat: bool, multi: bool)
    requires
        forall|y: Span| rejects(a1, y, flat, multi) == rejects(a2, y, flat, multi),
    ensures
        select_rec(t, a1, flat, multi) == select_rec(t, a2, flat, multi),
    decreases t.len(),
{
    if t.len() == 0 {
    } else {
        let c = t[0];
        assert(rejects(a1, c, flat, multi) == rejects(a2, c, flat, multi));
        if rejects(a1, c, flat, multi) {
            lemma_select_congruent(t.drop_first(), a1, a2, flat, multi);
        } else {
            assert forall|y: Span|
                rejects(a1.push(c), y, flat, multi) == rejects(a2.push(c), y, flat, multi) by {
                lemma_rejects_push(a1, c, y, flat, multi);
                lemma_rejects_push(a2, c, y, flat, multi);
            }
            lemma_select_congruent(t.drop_first(), a1.push(c), a2.push(c), flat, multi);
        }
    }
}

/// A span that is admissible with every remaining candidate can be dropped
/// from the accepted set without changing any later decision.
proof fn lemma_select_skip_compatible(
    t: Seq<Span>,
    acc: Seq<Span>,
    x: Span,
    flat: bool,
    multi: bool,
)
    requires
        forall|k: int| 0 <= k < t.len() ==> ok_pair(x, t[k], flat, multi),
    ensures
        select_rec(t, acc.push(x), flat, multi) == select_rec(t, acc, flat, multi),
    decreases t.len(),
{
    if t.len() == 0 {
    } else {
        let c = t[0];
        lemma_rejects_push(acc, x, c, flat, multi);
        lemma_ok_pair_sym(x, c, flat, multi);
        assert(rejects(acc.push(x), c, flat, multi) == rejects(acc, c, flat, multi));
        if rejects(acc, c, flat, multi) {
            lemma_select_skip_compatible(t.drop_first(), acc, x, flat, multi);
        } else {
            assert forall|y: Span|
                rejects(acc.push(x).push(c), y, flat, multi) == rejects(
                    acc.push(c).push(x),
                    y,
                    flat,
                    multi,
                ) by {
                lemma_rejects_push(acc.push(x), c, y, flat, multi);
                lemma_rejects_push(acc, x, y, flat, multi);
                lemma_rejects_push(acc.push(c), x, y, flat, multi);
                lemma_rejects_push(acc, c, y, flat, multi);
            }
            lemma_select_congruent(
                t.drop_first(),
                acc.push(x).push(c),
                acc.push(c).push(x),
                flat,
                multi,
            );
            lemma_select_skip_compatible(t.drop_first(), acc.push(c), x, flat, multi);
        }
    }
}

proof fn lemma_insert_ranked_members(x: Span, s: Seq<Span>)
    ensures
        insert_ranked(x, s).len() == s.len() + 1,
        forall|k: int|
            0 <= k < insert_ranked(x, s).len() ==> (insert_ranked(x, s)[k] == x || s.contains(
                insert_ranked(x, s)[k],
            )),
    decreases s.len(),
{
    let res = insert_ranked(x, s);
    if s.len() == 0 {
    } else if prio_lt(s[0], x) {
        let t = s.drop_first();
        lemma_insert_ranked_members(x, t);
        assert forall|k: int| 0 <= k < res.len() implies (res[k] == x || s.contains(res[k])) by {
            if k == 0 {
                assert(res[0] == s[0]);
                assert(s.contains(s[0]));
            } else {
                assert(res[k] == insert_ranked(x, t)[k - 1]);
                if res[k] != x {
                    let m = choose|m: int| 0 <= m < t.len() && t[m] == res[k];
                    assert(s[m + 1] == res[k]);
                    assert(s.contains(s[m + 1]));
                }
            }
        }
    } else {
        assert forall|k: int| 0 <= k < res.len() implies (res[k] == x || s.contains(res[k])) by {
            if k > 0 {
                assert(res[k] == s[k - 1]);
                assert(s.contains(s[k - 1]));
            }
        }
    }
}

proof fn lemma_rank_sorted_members(s: Seq<Span>)
    ensures
        rank_sorted(s).len() == s.len(),
        forall|k: int| 0 <= k < rank_sorted(s).len() ==> s.contains(rank_sorted(s)[k]),
    decreases s.len(),
{
    if s.len() == 0 {
    } else {
        let t = s.drop_first();
        let sub = rank_sorted(t);
        lemma_rank_sorted_members(t);
        lemma_insert_ranked_members(s[0], sub);
        assert forall|k: int| 0 <= k < rank_sorted(s).len() implies s.contains(
            rank_sorted(s)[k],
        ) by {
            let e = rank_sorted(s)[k];
            if e == s[0] {
                assert(s.contains(s[0]));
            } else {
                assert(sub.contains(e));
                let m = choose|m: int| 0 <= m < sub.len() && sub[m] == e;
                let m2 = choose|m2: int| 0 <= m2 < t.len() && t[m2] == e;
                assert(s[m2 + 1] == e);
                assert(s.contains(s[m2 + 1]));
            }
        }
    }
}

/// A candidate that strictly outranks every other candidate sorts to the
/// front, and the rest sort as if it were absent.
proof fn lemma_rank_sorted_top(s: Seq<Span>, i: int)
    requires
        0 <= i < s.len(),
        forall|j: int| 0 <= j < s.len() && j != i ==> prio_lt(s[i], s[j]),
    ensures
        rank_sorted(s) == seq![s[i]] + rank_sorted(s.remove(i)),
    decreases s.len(),
{
    let x = s[i];
    if i == 0 {
        let t = s.drop_first();
        let sub = rank_sorted(t);
        lemma_rank_sorted_members(t);
        assert(s.remove(0) =~= t);
        if sub.len() == 0 {
            assert(rank_sorted(s) == insert_ranked(x, sub));
            assert(insert_ranked(x, sub) =~= seq![x] + sub);
        } else {
            let m = choose|m: int| 0 <= m < t.len() && t[m] == sub[0];
            assert(s[m + 1] == sub[0]);
            assert(prio_lt(x, sub[0]));
            assert(!prio_lt(sub[0], x));
            assert(insert_ranked(x, sub) == seq![x] + sub);
        }
    } else {
        let t = s.drop_first();
        assert(t[i - 1] == s[i]);
        assert forall|j: int| 0 <= j < t.len() && j != i - 1 implies prio_lt(
            t[i - 1],
            #[trigger] t[j],
        ) by {
            assert(t[j] == s[j + 1]);
        }
        lemma_rank_sorted_top(t, i - 1);
        assert(rank_sorted(t) == seq![x] + rank_sorted(t.remove(i - 1)));
        let u = rank_sorted(t.remove(i - 1));
        assert(prio_lt(x, s[0]));
        assert((seq![x] + u)[0] == x);
        assert((seq![x] + u).drop_first() =~= u);
        assert(insert_ranked(s[0], seq![x] + u) == seq![x] + insert_ranked(s[0], u));
        assert(s.remove(i)[0] == s[0]);
        assert(s.remove(i).drop_first() =~= t.remove(i - 1));
        assert(rank_sorted(s.remove(i)) == insert_ranked(s[0], u));
        assert(rank_sorted(s) == insert_ranked(s[0], rank_sorted(t)));
    }
}

/// Greedy monotonicity, for an uncontested top candidate: if the single
/// highest-probability candidate's range touches no other candidate's range,
/// removing it from the input never increases the probability sum of the
/// accepted set — the rest of the run is unchanged and only its own
/// probability is lost.
///
/// The hypothesis that the top candidate intersects nothing else is needed:
/// a top candidate that overlaps several cheaper, mutually disjoint
/// candidates can suppress them, and removing it can then raise the sum.
pub proof fn lemma_greedy_monotone(cands: Seq<Span>, i: int, flat: bool, multi: bool)
    requires
        0 <= i < cands.len(),
        forall|j: int|
            0 <= j < cands.len() && j != i ==> cands[i].probability > cands[j].probability,
        forall|j: int|
            0 <= j < cands.len() && j != i ==> !intersects(cands[i], cands[j]) && !same_offsets(
                cands[i],
                cands[j],
            ),
    ensures
        prob_sum(greedy_spec(cands.remove(i), flat, multi)) <= prob_sum(
            greedy_spec(cands, flat, multi),
        ),
{
    let x = cands[i];
    let rem = cands.remove(i);
    assert forall|j: int| 0 <= j < cands.len() && j != i implies prio_lt(x, #[trigger] cands[j]) by {}
    lemma_rank_sorted_top(cands, i);
    let tail = rank_sorted(rem);
    let whole = rank_sorted(cands);
    assert(whole == seq![x] + tail);
    assert(whole[0] == x);
    assert(whole.drop_first() =~= tail);
    assert(!rejects(Seq::empty(), x, flat, multi));
    assert(select_rec(whole, Seq::empty(), flat, multi) == seq![x] + select_rec(
        tail,
        Seq::empty().push(x),
        flat,
        multi,
    ));
    lemma_rank_sorted_members(rem);
    assert forall|k: int| 0 <= k < tail.len() implies ok_pair(x, tail[k], flat, multi) by {
        let m = choose|m: int| 0 <= m < rem.len() && rem[m] == tail[k];
        if m < i {
            assert(rem[m] == cands[m]);
        } else {
            assert(rem[m] == cands[m + 1]);
        }
    }
    lemma_select_skip_compatible(tail, Seq::empty(), x, flat, multi);
    let picked_rem = select_rec(tail, Seq::empty(), flat, multi);
    assert(select_rec(whole, Seq::empty(), flat, multi) == seq![x] + picked_rem);
    lemma_prob_sum_cons(x, picked_rem);
    lemma_prob_sum_offset_sorted(select_rec(whole, Seq::empty(), flat, multi));
    lemma_prob_sum_offset_sorted(picked_rem);
}

} // verus!
