//! The search over every arrangement of the operands, every parenthesised
//! span and every choice of operators, for the expressions that reach a target.

use vstd::prelude::*;

use itertools::Itertools;

use crate::equations::{Equation, Op, Parens};
use crate::rational::{EvalError, Rational};

verus! {

/// Relies on `Itertools::permutations`: with `k` equal to the input length it
/// yields every ordering of the input's positions, so each output holds the
/// input's elements and every rearrangement of them occurs.
#[verifier::external_body]
fn permutations(v: &Vec<i64>) -> (r: Vec<Vec<i64>>)
    ensures
        forall|i: int| 0 <= i < r.len() ==> (#[trigger] r@[i])@.to_multiset() == v@.to_multiset(),
        forall|p: Seq<i64>|
            #[trigger] p.to_multiset() == v@.to_multiset() ==> exists|i: int|
                0 <= i < r.len() && (#[trigger] r@[i])@ == p,
{
    v.iter().cloned().permutations(v.len()).collect()
}

/// Whether the sequence `x` is the view of one of `vs`.
pub open spec fn occurs(x: Seq<i64>, vs: Seq<Vec<i64>>) -> bool {
    exists|j: int| 0 <= j < vs.len() && (#[trigger] vs[j])@ == x
}

/// Relies on `Itertools::unique`: it keeps the first occurrence of each item
/// and drops later equal ones, so the output holds each distinct input once.
#[verifier::external_body]
fn unique(vs: &Vec<Vec<i64>>) -> (r: Vec<Vec<i64>>)
    ensures
        forall|i: int| 0 <= i < r.len() ==> occurs((#[trigger] r@[i])@, vs@),
        forall|j: int| 0 <= j < vs.len() ==> occurs((#[trigger] vs@[j])@, r@),
        forall|i: int, k: int| 0 <= i < k < r.len() ==> (#[trigger] r@[i])@ != (#[trigger] r@[k])@,
{
    vs.iter().cloned().unique().collect()
}

/// Relies on `Itertools::combinations` with `k = 2` over `0..n`: every pair
/// of positions `s < e` below `n`, each once and in increasing order.
#[verifier::external_body]
fn pairs(n: usize) -> (r: Vec<Vec<usize>>)
    ensures
        forall|i: int| 0 <= i < r.len() ==> is_pair((#[trigger] r@[i])@, n as int),
        forall|q: Seq<usize>|
            #[trigger] is_pair(q, n as int) ==> exists|i: int| 0 <= i < r.len() && (#[trigger] r@[i])@ == q,
{
    (0..n).combinations(2).collect()
}

/// Relies on `Itertools::combinations_with_replacement` over `0..m`: every
/// non-decreasing sequence of `k` values below `m`.
#[verifier::external_body]
fn multisets(m: usize, k: usize) -> (r: Vec<Vec<usize>>)
    ensures
        forall|i: int| 0 <= i < r.len() ==> is_choice((#[trigger] r@[i])@, m as int, k as int),
        forall|c: Seq<usize>|
            #[trigger] is_choice(c, m as int, k as int) ==> exists|i: int|
                0 <= i < r.len() && (#[trigger] r@[i])@ == c,
{
    (0..m).combinations_with_replacement(k).collect()
}

/// Two positions `s < e` below `n`.
pub open spec fn is_pair(q: Seq<usize>, n: int) -> bool {
    q.len() == 2 && q[0] < q[1] < n
}

/// A non-decreasing sequence of `k` indices below `m`.
pub open spec fn is_choice(c: Seq<usize>, m: int, k: int) -> bool {
    &&& c.len() == k
    &&& forall|i: int| 0 <= i < k ==> #[trigger] c[i] < m
    &&& forall|i: int, j: int| 0 <= i < j < k ==> c[i] <= c[j]
}

/// Whole numbers as operands.
pub open spec fn as_operands(p: Seq<i64>) -> Seq<Rational> {
    p.map_values(|x: i64| Rational { num: x, den: 1 })
}

/// Indices into the operator set as operators.
pub open spec fn as_operators(c: Seq<usize>, ops: Seq<Op>) -> Seq<Op> {
    c.map_values(|i: usize| ops[i as int])
}

/// The span `s..=e` over `n` operands; one that covers them all is no span.
pub open spec fn span_of(s: usize, e: usize, n: int) -> Parens {
    if s == 0 && e == n - 1 {
        Parens::Unbracketed
    } else {
        Parens::Span(s, e)
    }
}

/// Whether a value equals the whole number `target`.
pub open spec fn reaches(r: Result<Rational, EvalError>, target: i64) -> bool {
    r matches Ok(v) && v.value_eq(Rational { num: target, den: 1 })
}

/// The candidate built from an arrangement, a span and a choice of operators.
pub open spec fn candidate_hits(p: Seq<i64>, s: usize, e: usize, c: Seq<usize>, ops: Seq<Op>, target: i64) -> bool {
    reaches(
        crate::equations::eval(as_operands(p), as_operators(c, ops), span_of(s, e, p.len() as int)),
        target,
    )
}

/// Whether `e` is the candidate built from `p`, the span `s..=e2` and `c`.
pub open spec fn is_candidate(q: Equation, p: Seq<i64>, s: usize, e2: usize, c: Seq<usize>, ops: Seq<Op>) -> bool {
    &&& q.operands() == as_operands(p)
    &&& q.operators() == as_operators(c, ops)
    &&& q.span() == span_of(s, e2, p.len() as int)
}

/// Whether `r` lists the candidate built from `p`, `s..=e` and `c`.
pub open spec fn listed(r: Seq<Equation>, p: Seq<i64>, s: usize, e: usize, c: Seq<usize>, ops: Seq<Op>) -> bool {
    exists|i: int| 0 <= i < r.len() && is_candidate(#[trigger] r[i], p, s, e, c, ops)
}

/// Whether `q` is a candidate over `nums` and `ops` whose value is `target`.
pub open spec fn found(q: Equation, nums: Seq<i64>, ops: Seq<Op>, target: i64) -> bool {
    &&& q.wf()
    &&& reaches(q.value(), target)
    &&& exists|p: Seq<i64>, s: usize, e: usize, c: Seq<usize>|
        #![trigger is_candidate(q, p, s, e, c, ops)]
        p.to_multiset() == nums.to_multiset() && s < e < nums.len() && is_choice(
            c,
            ops.len() as int,
            nums.len() - 1,
        ) && is_candidate(q, p, s, e, c, ops)
}

/// The candidate at indices `a`, `b`, `c` of the three enumerations reaches the target.
spec fn hit_at(
    perms: Seq<Vec<i64>>,
    prs: Seq<Vec<usize>>,
    cs: Seq<Vec<usize>>,
    a: int,
    b: int,
    c: int,
    ops: Seq<Op>,
    target: i64,
) -> bool {
    candidate_hits(perms[a]@, prs[b]@[0], prs[b]@[1], cs[c]@, ops, target)
}

/// Every candidate before `(a, b, c)` that reaches the target is listed in `out`.
spec fn covered(
    out: Seq<Equation>,
    perms: Seq<Vec<i64>>,
    prs: Seq<Vec<usize>>,
    cs: Seq<Vec<usize>>,
    a: int,
    b: int,
    c: int,
    ops: Seq<Op>,
    target: i64,
) -> bool {
    forall|a2: int, b2: int, c2: int|
        0 <= a2 < perms.len() && 0 <= b2 < prs.len() && 0 <= c2 < cs.len() && (a2 < a || (a2 == a
            && b2 < b) || (a2 == a && b2 == b && c2 < c)) && #[trigger] hit_at(
            perms,
            prs,
            cs,
            a2,
            b2,
            c2,
            ops,
            target,
        ) ==> listed(out, perms[a2]@, prs[b2]@[0], prs[b2]@[1], cs[c2]@, ops)
}

proof fn lemma_listed_push(r: Seq<Equation>, x: Equation, p: Seq<i64>, s: usize, e: usize, c: Seq<usize>, ops: Seq<Op>)
    requires
        listed(r, p, s, e, c, ops),
    ensures
        listed(r.push(x), p, s, e, c, ops),
{
    let i = choose|i: int| 0 <= i < r.len() && is_candidate(#[trigger] r[i], p, s, e, c, ops);
    assert(r.push(x)[i] == r[i]);
}

/// Whole numbers as operands.
fn operands_of(p: &Vec<i64>) -> (r: Vec<Rational>)
    ensures
        r@ == as_operands(p@),
{
    let mut r: Vec<Rational> = Vec::new();
    let mut i: usize = 0;
    while i < p.len()
        invariant
            i <= p.len(),
            r@ == as_operands(p@.take(i as int)),
        decreases p.len() - i,
    {
        r.push(Rational::from_int(p[i]));
        assert(as_operands(p@.take(i + 1)) =~= as_operands(p@.take(i as int)).push(
            Rational { num: p@[i as int], den: 1 },
        ));
        i = i + 1;
    }
    assert(p@.take(p.len() as int) =~= p@);
    r
}

/// Indices into `ops` as operators.
fn operators_of(c: &Vec<usize>, ops: &Vec<Op>) -> (r: Vec<Op>)
    requires
        forall|i: int| 0 <= i < c.len() ==> #[trigger] c@[i] < ops.len(),
    ensures
        r@ == as_operators(c@, ops@),
{
    let mut r: Vec<Op> = Vec::new();
    let mut i: usize = 0;
    while i < c.len()
        invariant
            i <= c.len(),
            forall|i: int| 0 <= i < c.len() ==> #[trigger] c@[i] < ops.len(),
            r@ == as_operators(c@.take(i as int), ops@),
        decreases c.len() - i,
    {
        r.push(ops[c[i]]);
        assert(as_operators(c@.take(i + 1), ops@) =~= as_operators(c@.take(i as int), ops@).push(
            ops@[c@[i as int] as int],
        ));
        i = i + 1;
    }
    assert(c@.take(c.len() as int) =~= c@);
    r
}

/// Builds one candidate, solves it, and appends it to `out` where it reaches the target.
fn try_candidate(
    p: &Vec<i64>,
    s: usize,
    e: usize,
    c: &Vec<usize>,
    ops: &Vec<Op>,
    target: i64,
    out: &mut Vec<Equation>,
)
    requires
        p.len() >= 2,
        s < e < p.len(),
        is_choice(c@, ops.len() as int, p.len() - 1),
    ensures
        candidate_hits(p@, s, e, c@, ops@, target) ==> final(out)@.len() == old(out)@.len() + 1
            && final(out)@.drop_last() == old(out)@ && is_candidate(
            final(out)@.last(),
            p@,
            s,
            e,
            c@,
            ops@,
        ) && final(out)@.last().wf() && reaches(final(out)@.last().value(), target),
        !candidate_hits(p@, s, e, c@, ops@, target) ==> final(out)@ == old(out)@,
{
    let nums = operands_of(p);
    let os = operators_of(c, ops);
    let parens = if s == 0 && e == p.len() - 1 {
        Parens::Unbracketed
    } else {
        Parens::Span(s, e)
    };
    let q = Equation::new(nums, os, parens);
    assert(q.wf());
    let t = Rational::from_int(target);
    match q.solve() {
        Ok(v) => {
            if v.same_value(&t) {
                let ghost before = out@;
                out.push(q);
                assert(out@.drop_last() =~= before);
            }
        },
        Err(_) => {},
    }
}

/// Each arrangement holds the elements of `nums`, and every rearrangement is among them.
spec fn arrangements(perms: Seq<Vec<i64>>, nums: Seq<i64>) -> bool {
    &&& forall|i: int| 0 <= i < perms.len() ==> (#[trigger] perms[i])@.to_multiset() == nums.to_multiset()
    &&& forall|p: Seq<i64>|
        #[trigger] p.to_multiset() == nums.to_multiset() ==> exists|i: int|
            0 <= i < perms.len() && (#[trigger] perms[i])@ == p
}

/// The pairs of positions below `n`, every one of them.
spec fn all_pairs(prs: Seq<Vec<usize>>, n: int) -> bool {
    &&& forall|i: int| 0 <= i < prs.len() ==> is_pair((#[trigger] prs[i])@, n)
    &&& forall|q: Seq<usize>|
        #[trigger] is_pair(q, n) ==> exists|i: int| 0 <= i < prs.len() && (#[trigger] prs[i])@ == q
}

/// The choices of `k` operators out of `m`, every one of them.
spec fn all_choices(cs: Seq<Vec<usize>>, m: int, k: int) -> bool {
    &&& forall|i: int| 0 <= i < cs.len() ==> is_choice((#[trigger] cs[i])@, m, k)
    &&& forall|c: Seq<usize>|
        #[trigger] is_choice(c, m, k) ==> exists|i: int| 0 <= i < cs.len() && (#[trigger] cs[i])@ == c
}

proof fn lemma_dedup_arrangements(all: Seq<Vec<i64>>, perms: Seq<Vec<i64>>, nums: Seq<i64>)
    requires
        forall|i: int| 0 <= i < all.len() ==> (#[trigger] all[i])@.to_multiset() == nums.to_multiset(),
        forall|p: Seq<i64>|
            #[trigger] p.to_multiset() == nums.to_multiset() ==> exists|i: int|
                0 <= i < all.len() && (#[trigger] all[i])@ == p,
        forall|i: int| 0 <= i < perms.len() ==> occurs((#[trigger] perms[i])@, all),
        forall|j: int| 0 <= j < all.len() ==> occurs((#[trigger] all[j])@, perms),
    ensures
        arrangements(perms, nums),
{
    assert forall|i: int| 0 <= i < perms.len() implies (#[trigger] perms[i])@.to_multiset() == nums.to_multiset() by {
        assert(occurs(perms[i]@, all));
        let j = choose|j: int| 0 <= j < all.len() && (#[trigger] all[j])@ == perms[i]@;
    }
    assert forall|p: Seq<i64>| #[trigger] p.to_multiset() == nums.to_multiset() implies exists|i: int|
        0 <= i < perms.len() && (#[trigger] perms[i])@ == p by {
        let j = choose|j: int| 0 <= j < all.len() && (#[trigger] all[j])@ == p;
        assert(occurs(all[j]@, perms));
        let i = choose|i: int| 0 <= i < perms.len() && (#[trigger] perms[i])@ == all[j]@;
    }
}

/// Once every index triple is covered, every candidate that reaches the target is listed.
proof fn lemma_covered_complete(
    out: Seq<Equation>,
    perms: Seq<Vec<i64>>,
    prs: Seq<Vec<usize>>,
    cs: Seq<Vec<usize>>,
    nums: Seq<i64>,
    ops: Seq<Op>,
    target: i64,
)
    requires
        arrangements(perms, nums),
        all_pairs(prs, nums.len() as int),
        all_choices(cs, ops.len() as int, nums.len() - 1),
        covered(out, perms, prs, cs, perms.len() as int, 0, 0, ops, target),
    ensures
        forall|p: Seq<i64>, s: usize, e: usize, c: Seq<usize>|
            p.to_multiset() == nums.to_multiset() && s < e < nums.len() && is_choice(
                c,
                ops.len() as int,
                nums.len() - 1,
            ) && #[trigger] candidate_hits(p, s, e, c, ops, target) ==> listed(out, p, s, e, c, ops),
{
    assert forall|p: Seq<i64>, s: usize, e: usize, c: Seq<usize>|
        p.to_multiset() == nums.to_multiset() && s < e < nums.len() && is_choice(
            c,
            ops.len() as int,
            nums.len() - 1,
        ) && #[trigger] candidate_hits(p, s, e, c, ops, target) implies listed(out, p, s, e, c, ops) by {
        let a2 = choose|i: int| 0 <= i < perms.len() && (#[trigger] perms[i])@ == p;
        assert(is_pair(seq![s, e], nums.len() as int));
        let b2 = choose|i: int| 0 <= i < prs.len() && (#[trigger] prs[i])@ == seq![s, e];
        let c2 = choose|i: int| 0 <= i < cs.len() && (#[trigger] cs[i])@ == c;
        assert(prs[b2]@[0] == s && prs[b2]@[1] == e);
        assert(hit_at(perms, prs, cs, a2, b2, c2, ops, target));
    }
}

/// Covering every operator choice for a span moves on to the next span, and
/// covering every span moves on to the next arrangement.
proof fn lemma_covered_next(
    out: Seq<Equation>,
    perms: Seq<Vec<i64>>,
    prs: Seq<Vec<usize>>,
    cs: Seq<Vec<usize>>,
    a: int,
    b: int,
    ops: Seq<Op>,
    target: i64,
)
    ensures
        covered(out, perms, prs, cs, a, b, cs.len() as int, ops, target) ==> covered(out, perms, prs, cs, a, b + 1, 0, ops, target),
        covered(out, perms, prs, cs, a, prs.len() as int, 0, ops, target) ==> covered(out, perms, prs, cs, a + 1, 0, 0, ops, target),
{
}

/// One more candidate examined: what `try_candidate` appended keeps the list
/// sound and extends what it covers.
proof fn lemma_covered_step(
    old_out: Seq<Equation>,
    out: Seq<Equation>,
    perms: Seq<Vec<i64>>,
    prs: Seq<Vec<usize>>,
    cs: Seq<Vec<usize>>,
    a: int,
    b: int,
    ci: int,
    nums: Seq<i64>,
    ops: Seq<Op>,
    target: i64,
)
    requires
        0 <= a < perms.len(),
        0 <= b < prs.len(),
        0 <= ci < cs.len(),
        arrangements(perms, nums),
        all_pairs(prs, nums.len() as int),
        all_choices(cs, ops.len() as int, nums.len() - 1),
        forall|i: int| 0 <= i < old_out.len() ==> found(#[trigger] old_out[i], nums, ops, target),
        covered(old_out, perms, prs, cs, a, b, ci, ops, target),
        candidate_hits(perms[a]@, prs[b]@[0], prs[b]@[1], cs[ci]@, ops, target) ==> out.len()
            == old_out.len() + 1 && out.drop_last() == old_out && is_candidate(
            out.last(),
            perms[a]@,
            prs[b]@[0],
            prs[b]@[1],
            cs[ci]@,
            ops,
        ) && out.last().wf() && reaches(out.last().value(), target),
        !candidate_hits(perms[a]@, prs[b]@[0], prs[b]@[1], cs[ci]@, ops, target) ==> out == old_out,
    ensures
        forall|i: int| 0 <= i < out.len() ==> found(#[trigger] out[i], nums, ops, target),
        covered(out, perms, prs, cs, a, b, ci + 1, ops, target),
{
    let pv = perms[a]@;
    let s0 = prs[b]@[0];
    let e0 = prs[b]@[1];
    let cv = cs[ci]@;
    assert(is_pair(prs[b]@, nums.len() as int));
    assert(is_choice(cv, ops.len() as int, nums.len() - 1));
    if candidate_hits(pv, s0, e0, cv, ops, target) {
        let x = out.last();
        assert(out == old_out.push(x));
        assert(out[old_out.len() as int] == x);
        assert(found(x, nums, ops, target)) by {
            assert(is_candidate(x, pv, s0, e0, cv, ops));
        }
        assert forall|i: int| 0 <= i < out.len() implies found(#[trigger] out[i], nums, ops, target) by {
            if i < old_out.len() {
                assert(out[i] == old_out[i]);
            }
        }
        assert forall|a2: int, b2: int, c2: int|
            0 <= a2 < perms.len() && 0 <= b2 < prs.len() && 0 <= c2 < cs.len() && (a2 < a || (a2 == a
                && b2 < b) || (a2 == a && b2 == b && c2 < ci + 1)) && #[trigger] hit_at(
                perms, prs, cs, a2, b2, c2, ops, target,
            ) implies listed(out, perms[a2]@, prs[b2]@[0], prs[b2]@[1], cs[c2]@, ops) by {
            if !(a2 == a && b2 == b && c2 == ci) {
                lemma_listed_push(old_out, x, perms[a2]@, prs[b2]@[0], prs[b2]@[1], cs[c2]@, ops);
            } else {
                assert(is_candidate(out[old_out.len() as int], pv, s0, e0, cv, ops));
            }
        }
    }
}

/// Every candidate over `nums` and `ops` that reaches `target`: each
/// distinct arrangement of `nums`, each span of two or more operands (the
/// one over all of them standing for no span), and each choice with
/// repetition of operators from `ops`. A candidate whose evaluation fails is
/// passed over and the search goes on.
pub fn search(nums: &Vec<i64>, ops: &Vec<Op>, target: i64) -> (r: Vec<Equation>)
    ensures
        forall|i: int| 0 <= i < r.len() ==> found(#[trigger] r@[i], nums@, ops@, target),
        forall|p: Seq<i64>, s: usize, e: usize, c: Seq<usize>|
            p.to_multiset() == nums@.to_multiset() && s < e < nums.len() && is_choice(
                c,
                ops.len() as int,
                nums.len() - 1,
            ) && #[trigger] candidate_hits(p, s, e, c, ops@, target) ==> listed(r@, p, s, e, c, ops@),
{
    let mut out: Vec<Equation> = Vec::new();
    let n = nums.len();
    if n < 2 {
        return out;
    }
    let all = permutations(nums);
    let perms = unique(&all);
    let prs = pairs(n);
    let cs = multisets(ops.len(), n - 1);
    proof {
        lemma_dedup_arrangements(all@, perms@, nums@);
    }
    let mut a: usize = 0;
    while a < perms.len()
        invariant
            n == nums.len() >= 2,
            0 <= a <= perms.len(),
            arrangements(perms@, nums@),
            all_pairs(prs@, n as int),
            all_choices(cs@, ops.len() as int, n - 1),
            forall|i: int| 0 <= i < out.len() ==> found(#[trigger] out@[i], nums@, ops@, target),
            covered(out@, perms@, prs@, cs@, a as int, 0, 0, ops@, target),
        decreases perms.len() - a,
    {
        let mut b: usize = 0;
        while b < prs.len()
            invariant
                n == nums.len() >= 2,
                0 <= a < perms.len(),
                0 <= b <= prs.len(),
                arrangements(perms@, nums@),
                all_pairs(prs@, n as int),
                all_choices(cs@, ops.len() as int, n - 1),
                forall|i: int| 0 <= i < out.len() ==> found(#[trigger] out@[i], nums@, ops@, target),
                covered(out@, perms@, prs@, cs@, a as int, b as int, 0, ops@, target),
            decreases prs.len() - b,
        {
            let mut ci: usize = 0;
            while ci < cs.len()
                invariant
                    n == nums.len() >= 2,
                    0 <= a < perms.len(),
                    0 <= b < prs.len(),
                    0 <= ci <= cs.len(),
                    arrangements(perms@, nums@),
                    all_pairs(prs@, n as int),
                    all_choices(cs@, ops.len() as int, n - 1),
                    forall|i: int| 0 <= i < out.len() ==> found(#[trigger] out@[i], nums@, ops@, target),
                    covered(out@, perms@, prs@, cs@, a as int, b as int, ci as int, ops@, target),
                decreases cs.len() - ci,
            {
                let p = &perms[a];
                let q = &prs[b];
                let c = &cs[ci];
                let ghost old_out = out@;
                proof {
                    vstd::seq_lib::to_multiset_len(p@);
                    vstd::seq_lib::to_multiset_len(nums@);
                    assert(is_pair(prs[b as int]@, n as int));
                    assert(is_choice(cs[ci as int]@, ops.len() as int, n - 1));
                }
                try_candidate(p, q[0], q[1], c, ops, target, &mut out);
                proof {
                    lemma_covered_step(old_out, out@, perms@, prs@, cs@, a as int, b as int, ci as int, nums@, ops@, target);
                }
                ci = ci + 1;
            }
            proof {
                lemma_covered_next(out@, perms@, prs@, cs@, a as int, b as int, ops@, target);
            }
            b = b + 1;
        }
        proof {
            lemma_covered_next(out@, perms@, prs@, cs@, a as int, b as int, ops@, target);
        }
        a = a + 1;
    }
    proof {
        lemma_covered_complete(out@, perms@, prs@, cs@, nums@, ops@, target);
    }
    out
}

} // verus!
