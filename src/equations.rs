//! Flat arithmetic expressions and their step-by-step reduction.

use vstd::prelude::*;

use crate::rational::{apply, apply_spec, EvalError, Rational};
use crate::text::{push_rational, rational_text};

verus! {

/// A binary operator of the expression language.
#[derive(Debug, Clone, Copy, PartialEq, Eq, Structural)]
pub enum Op {
    Add,
    Mul,
    Sub,
    Div,
    Mod,
    Exp,
}

/// The one parenthesised range of operand indices, both ends included, or
/// no parentheses at all.
#[derive(Debug, Clone, Copy, PartialEq, Eq, Structural)]
pub enum Parens {
    Span(usize, usize),
    Unbracketed,
}

/// An expression: a single value, or operands with the operators between
/// them and at most one parenthesised span.
#[derive(Debug, Clone)]
pub enum Equation {
    Solved(Rational),
    Expression { nums: Vec<Rational>, ops: Vec<Op>, parens: Parens },
}

/// Precedence tier of an operator: lower binds first.
pub open spec fn rank(op: Op) -> nat {
    match op {
        Op::Exp => 0,
        Op::Div => 1,
        Op::Mod => 2,
        Op::Mul => 3,
        Op::Add => 4,
        Op::Sub => 5,
    }
}

/// The position of the operator reduced next: the leftmost of those in the
/// highest tier.
pub open spec fn pick(ops: Seq<Op>) -> int
    decreases ops.len(),
{
    if ops.len() <= 1 {
        0
    } else {
        let p = pick(ops.drop_last());
        if rank(ops.last()) < rank(ops[p]) {
            ops.len() - 1
        } else {
            p
        }
    }
}

/// Operands `i` and `i + 1` replaced by `v`.
pub open spec fn collapse(nums: Seq<Rational>, i: int, v: Rational) -> Seq<Rational> {
    nums.take(i) + seq![v] + nums.skip(i + 2)
}

/// Operands `s..=e` replaced by `v`.
pub open spec fn splice_span(nums: Seq<Rational>, s: int, e: int, v: Rational) -> Seq<Rational> {
    nums.take(s) + seq![v] + nums.skip(e + 1)
}

/// Operators `s..e` removed.
pub open spec fn drop_span(ops: Seq<Op>, s: int, e: int) -> Seq<Op> {
    ops.take(s) + ops.skip(e)
}

/// One reduction of an expression without parentheses: the picked operator
/// applied to its two operands.
pub open spec fn reduce_flat(nums: Seq<Rational>, ops: Seq<Op>) -> Result<
    (Seq<Rational>, Seq<Op>),
    EvalError,
> {
    let i = pick(ops);
    match apply_spec(ops[i], nums[i], nums[i + 1]) {
        Ok(v) => Ok((collapse(nums, i, v), ops.remove(i))),
        Err(x) => Err(x),
    }
}

/// The value of an expression without parentheses, reduced until one operand remains.
pub open spec fn eval_flat(nums: Seq<Rational>, ops: Seq<Op>) -> Result<Rational, EvalError>
    decreases ops.len(),
{
    if ops.len() == 0 {
        Ok(nums[0])
    } else {
        let i = pick(ops);
        proof {
            lemma_pick_bounds(ops);
        }
        match apply_spec(ops[i], nums[i], nums[i + 1]) {
            Ok(v) => eval_flat(collapse(nums, i, v), ops.remove(i)),
            Err(x) => Err(x),
        }
    }
}

/// One reduction: the whole span where there is one, else the picked operator.
pub open spec fn step_seqs(nums: Seq<Rational>, ops: Seq<Op>, parens: Parens) -> Result<
    (Seq<Rational>, Seq<Op>),
    EvalError,
> {
    match parens {
        Parens::Span(s, e) => match eval_flat(
            nums.subrange(s as int, e + 1),
            ops.subrange(s as int, e as int),
        ) {
            Ok(v) => Ok((splice_span(nums, s as int, e as int, v), drop_span(ops, s as int, e as int))),
            Err(x) => Err(x),
        },
        Parens::Unbracketed => reduce_flat(nums, ops),
    }
}

/// The value of an expression: reduced step by step until one operand remains.
pub open spec fn eval(nums: Seq<Rational>, ops: Seq<Op>, parens: Parens) -> Result<
    Rational,
    EvalError,
> {
    if ops.len() == 0 {
        Ok(nums[0])
    } else {
        match step_seqs(nums, ops, parens) {
            Ok((n2, o2)) => eval_flat(n2, o2),
            Err(x) => Err(x),
        }
    }
}

/// Operands and operators that are positionally aligned, with well-formed operands.
pub open spec fn aligned(nums: Seq<Rational>, ops: Seq<Op>) -> bool {
    &&& nums.len() == ops.len() + 1
    &&& forall|i: int| 0 <= i < nums.len() ==> (#[trigger] nums[i]).wf()
}

/// A span that covers at least two operands, or none.
pub open spec fn span_ok(parens: Parens, n: nat) -> bool {
    match parens {
        Parens::Span(s, e) => s < e < n,
        Parens::Unbracketed => true,
    }
}

/// The picked position is an operator position.
pub proof fn lemma_pick_bounds(ops: Seq<Op>)
    requires
        ops.len() >= 1,
    ensures
        0 <= pick(ops) < ops.len(),
    decreases ops.len(),
{
    if ops.len() > 1 {
        lemma_pick_bounds(ops.drop_last());
    }
}

/// The picked operator is in the highest tier present, and no operator of
/// that tier stands to its left.
pub proof fn lemma_pick_leftmost_highest(ops: Seq<Op>)
    requires
        ops.len() >= 1,
    ensures
        0 <= pick(ops) < ops.len(),
        forall|j: int| 0 <= j < ops.len() ==> rank(#[trigger] ops[j]) >= rank(ops[pick(ops)]),
        forall|j: int| 0 <= j < pick(ops) ==> rank(#[trigger] ops[j]) > rank(ops[pick(ops)]),
    decreases ops.len(),
{
    if ops.len() > 1 {
        let d = ops.drop_last();
        lemma_pick_leftmost_highest(d);
        let p = pick(d);
        assert(ops[p] == d[p]);
        assert forall|j: int| 0 <= j < ops.len() implies rank(#[trigger] ops[j]) >= rank(
            ops[pick(ops)],
        ) by {
            if j < d.len() {
                assert(ops[j] == d[j]);
            }
        }
        assert forall|j: int| 0 <= j < pick(ops) implies rank(#[trigger] ops[j]) > rank(
            ops[pick(ops)],
        ) by {
            assert(ops[j] == d[j]);
        }
    }
}

/// Precedence tier, as `rank` states it.
fn op_rank(op: Op) -> (r: u8)
    ensures
        r as nat == rank(op),
{
    match op {
        Op::Exp => 0,
        Op::Div => 1,
        Op::Mod => 2,
        Op::Mul => 3,
        Op::Add => 4,
        Op::Sub => 5,
    }
}

/// The position of the next operator to reduce.
fn pick_exec(ops: &Vec<Op>) -> (r: usize)
    requires
        ops.len() >= 1,
    ensures
        r as int == pick(ops@),
        r < ops.len(),
{
    let mut best: usize = 0;
    let mut i: usize = 1;
    assert(ops@.take(1).drop_last().len() == 0);
    while i < ops.len()
        invariant
            1 <= i <= ops.len(),
            best < i,
            best as int == pick(ops@.take(i as int)),
        decreases ops.len() - i,
    {
        let ghost t = ops@.take(i + 1);
        assert(t.drop_last() =~= ops@.take(i as int));
        assert(t[best as int] == ops@[best as int]);
        if op_rank(ops[i]) < op_rank(ops[best]) {
            best = i;
        }
        i = i + 1;
    }
    assert(ops@.take(ops.len() as int) =~= ops@);
    best
}

/// The elements `lo..hi` of a vector.
fn sub_vec<T: Copy>(v: &Vec<T>, lo: usize, hi: usize) -> (r: Vec<T>)
    requires
        lo <= hi <= v.len(),
    ensures
        r@ == v@.subrange(lo as int, hi as int),
{
    let mut r: Vec<T> = Vec::new();
    let mut i: usize = lo;
    while i < hi
        invariant
            lo <= i <= hi,
            hi <= v.len(),
            r@ == v@.subrange(lo as int, i as int),
        decreases hi - i,
    {
        r.push(v[i]);
        assert(r@ =~= v@.subrange(lo as int, i + 1));
        i = i + 1;
    }
    r
}

/// One reduction of an expression without parentheses.
fn reduce_flat_exec(nums: &Vec<Rational>, ops: &Vec<Op>) -> (r: Result<
    (Vec<Rational>, Vec<Op>),
    EvalError,
>)
    requires
        aligned(nums@, ops@),
        ops.len() >= 1,
    ensures
        match r {
            Ok((n2, o2)) => reduce_flat(nums@, ops@) == Ok::<_, EvalError>((n2@, o2@)),
            Err(x) => reduce_flat(nums@, ops@) == Err::<(Seq<Rational>, Seq<Op>), _>(x),
        },
        r matches Ok((n2, o2)) ==> aligned(n2@, o2@) && o2.len() + 1 == ops.len(),
{
    let i = pick_exec(ops);
    match apply(ops[i], nums[i], nums[i + 1]) {
        Ok(v) => {
            let mut n2 = sub_vec(nums, 0, i);
            n2.push(v);
            assert(i + 2 <= nums.len());
            let mut j: usize = i + 2;
            while j < nums.len()
                invariant
                    i + 2 <= j <= nums.len(),
                    n2@ == nums@.take(i as int) + seq![v] + nums@.subrange(i + 2, j as int),
                decreases nums.len() - j,
            {
                n2.push(nums[j]);
                assert(n2@ =~= nums@.take(i as int) + seq![v] + nums@.subrange(i + 2, j + 1));
                j = j + 1;
            }
            assert(n2@ =~= collapse(nums@, i as int, v));
            let mut o2 = sub_vec(ops, 0, ops.len());
            o2.remove(i);
            assert(ops@.subrange(0, ops.len() as int) =~= ops@);
            assert forall|k: int| 0 <= k < n2@.len() implies (#[trigger] n2@[k]).wf() by {
                if k > i {
                    assert(n2@[k] == nums@[k + 1]);
                }
            }
            Ok((n2, o2))
        },
        Err(x) => Err(x),
    }
}

/// The value of an expression without parentheses.
fn eval_flat_exec(nums: Vec<Rational>, ops: Vec<Op>) -> (r: Result<Rational, EvalError>)
    requires
        aligned(nums@, ops@),
    ensures
        r == eval_flat(nums@, ops@),
        r matches Ok(v) ==> v.wf(),
{
    let mut n = nums;
    let mut o = ops;
    while o.len() > 0
        invariant
            aligned(n@, o@),
            eval_flat(n@, o@) == eval_flat(nums@, ops@),
        decreases o.len(),
    {
        match reduce_flat_exec(&n, &o) {
            Ok((n2, o2)) => {
                n = n2;
                o = o2;
            },
            Err(x) => {
                return Err(x);
            },
        }
    }
    Ok(n[0])
}

/// How many operands one step removes.
pub open spec fn removed(parens: Parens) -> nat {
    match parens {
        Parens::Span(s, e) => (e - s) as nat,
        Parens::Unbracketed => 1,
    }
}

impl Equation {
    /// The operands, a single one for a solved expression.
    pub open spec fn operands(self) -> Seq<Rational> {
        match self {
            Equation::Solved(v) => seq![v],
            Equation::Expression { nums, .. } => nums@,
        }
    }

    /// The operators, none for a solved expression.
    pub open spec fn operators(self) -> Seq<Op> {
        match self {
            Equation::Solved(_) => seq![],
            Equation::Expression { ops, .. } => ops@,
        }
    }

    /// The parenthesised span, none for a solved expression.
    pub open spec fn span(self) -> Parens {
        match self {
            Equation::Solved(_) => Parens::Unbracketed,
            Equation::Expression { parens, .. } => parens,
        }
    }

    /// Aligned operands and operators, a valid span, and at least two operands
    /// in an expression that is not solved.
    pub open spec fn wf(self) -> bool {
        &&& aligned(self.operands(), self.operators())
        &&& span_ok(self.span(), self.operands().len())
        &&& (self is Expression ==> self.operands().len() >= 2)
    }

    /// The value that solving yields.
    pub open spec fn value(self) -> Result<Rational, EvalError> {
        eval(self.operands(), self.operators(), self.span())
    }

    /// An expression as given, without any check.
    pub fn new(nums: Vec<Rational>, ops: Vec<Op>, parens: Parens) -> (r: Self)
        ensures
            r == (Equation::Expression { nums, ops, parens }),
    {
        Self::Expression { nums, ops, parens }
    }

    /// The result of a reduction: solved where one operand is left.
    pub fn from_comp(nums: Vec<Rational>, ops: Vec<Op>) -> (r: Self)
        requires
            nums.len() >= 1,
        ensures
            nums.len() == 1 ==> r == Equation::Solved(nums@[0]),
            nums.len() != 1 ==> r == (Equation::Expression { nums, ops, parens: Parens::Unbracketed }),
    {
        if nums.len() == 1 {
            Self::Solved(nums[0])
        } else {
            Self::Expression { nums, ops, parens: Parens::Unbracketed }
        }
    }

    /// Whether the expression is well formed.
    pub fn is_well_formed(&self) -> (r: bool)
        ensures
            r == self.wf(),
    {
        match self {
            Equation::Solved(v) => {
                assert(self.operands()[0] == *v);
                v.den > 0
            },
            Equation::Expression { nums, ops, parens } => {
                if nums.len() < 2 || ops.len() != nums.len() - 1 {
                    return false;
                }
                match parens {
                    Parens::Span(s, e) => {
                        if !(*s < *e && *e < nums.len()) {
                            return false;
                        }
                    },
                    Parens::Unbracketed => {},
                }
                let mut i: usize = 0;
                while i < nums.len()
                    invariant
                        i <= nums.len(),
                        self.operands() == nums@,
                        forall|j: int| 0 <= j < i ==> (#[trigger] nums@[j]).wf(),
                    decreases nums.len() - i,
                {
                    if nums[i].den <= 0 {
                        return false;
                    }
                    i = i + 1;
                }
                true
            },
        }
    }

    /// One reduction: the span solved and put back in its place where there
    /// is one, else the picked operator applied. A solved expression is left
    /// as it is.
    fn step(&self) -> (r: Result<Equation, EvalError>)
        requires
            self.wf(),
        ensures
            self is Solved ==> r == Ok::<Equation, EvalError>(*self),
            self is Expression ==> match r {
                Ok(e2) => {
                    &&& step_seqs(self.operands(), self.operators(), self.span()) == Ok::<
                        _,
                        EvalError,
                    >((e2.operands(), e2.operators()))
                    &&& e2.span() == Parens::Unbracketed
                    &&& e2.wf()
                    &&& e2.operands().len() + removed(self.span()) == self.operands().len()
                },
                Err(x) => step_seqs(self.operands(), self.operators(), self.span()) == Err::<
                    (Seq<Rational>, Seq<Op>),
                    _,
                >(x),
            },
    {
        match self {
            Equation::Solved(v) => Ok(Equation::Solved(*v)),
            Equation::Expression { nums, ops, parens } => {
                let (n2, o2) = match parens {
                    Parens::Span(s, e) => {
                        let s = *s;
                        let e = *e;
                        assert(e < nums.len());
                        let sub_n = sub_vec(nums, s, e + 1);
                        let sub_o = sub_vec(ops, s, e);
                        assert forall|k: int| 0 <= k < sub_n@.len() implies (#[trigger] sub_n@[k]).wf() by {
                            assert(sub_n@[k] == nums@[s + k]);
                        }
                        match eval_flat_exec(sub_n, sub_o) {
                            Ok(v) => {
                                let mut n2 = sub_vec(nums, 0, s);
                                n2.push(v);
                                let mut rest = sub_vec(nums, e + 1, nums.len());
                                n2.append(&mut rest);
                                assert(n2@ =~= splice_span(nums@, s as int, e as int, v));
                                let mut o2 = sub_vec(ops, 0, s);
                                let mut rest_o = sub_vec(ops, e, ops.len());
                                o2.append(&mut rest_o);
                                assert(o2@ =~= drop_span(ops@, s as int, e as int));
                                assert forall|k: int| 0 <= k < n2@.len() implies (#[trigger] n2@[k]).wf() by {
                                    if k > s {
                                        assert(n2@[k] == nums@[k + (e - s)]);
                                    } else if k < s {
                                        assert(n2@[k] == nums@[k]);
                                    }
                                }
                                (n2, o2)
                            },
                            Err(x) => {
                                return Err(x);
                            },
                        }
                    },
                    Parens::Unbracketed => match reduce_flat_exec(nums, ops) {
                        Ok(p) => p,
                        Err(x) => {
                            return Err(x);
                        },
                    },
                };
                let ghost gn = n2@;
                let ghost go = o2@;
                let r = Self::from_comp(n2, o2);
                assert(r.operands() =~= gn);
                assert(r.operators() =~= go);
                Ok(r)
            },
        }
    }

    /// The value of the expression: reduced step by step until one operand
    /// remains. A malformed expression is reported, and so is the first
    /// operation that fails.
    pub fn solve(&self) -> (r: Result<Rational, EvalError>)
        ensures
            !self.wf() ==> r == Err::<Rational, EvalError>(EvalError::Malformed),
            self.wf() ==> r == self.value(),
            r matches Ok(v) ==> v.wf(),
    {
        if !self.is_well_formed() {
            return Err(EvalError::Malformed);
        }
        let mut comp = match self.step() {
            Ok(e) => e,
            Err(x) => {
                return Err(x);
            },
        };
        loop
            invariant
                comp.wf(),
                comp.span() == Parens::Unbracketed,
                self.wf(),
                self.value() == eval_flat(comp.operands(), comp.operators()),
            decreases comp.operands().len(),
        {
            if let Equation::Solved(v) = comp {
                assert(comp.operands()[0] == v);
                return Ok(v);
            }
            comp = match comp.step() {
                Ok(e) => e,
                Err(x) => {
                    return Err(x);
                },
            };
        }
    }
}

/// The symbol of an operator.
pub open spec fn symbol(op: Op) -> char {
    match op {
        Op::Add => '+',
        Op::Mul => '*',
        Op::Sub => '-',
        Op::Div => '/',
        Op::Mod => '%',
        Op::Exp => '^',
    }
}

/// Operand `i` as shown: with `(` before the first operand of the span and
/// `)` after its last.
pub open spec fn part(nums: Seq<Rational>, parens: Parens, i: int) -> Seq<char> {
    let t = rational_text(nums[i]);
    match parens {
        Parens::Span(s, e) => if i == s {
            seq!['('] + t
        } else if i == e {
            t + seq![')']
        } else {
            t
        },
        Parens::Unbracketed => t,
    }
}

/// The first `i` operands as shown, each operator between two of them with a
/// space on either side.
pub open spec fn render(nums: Seq<Rational>, ops: Seq<Op>, parens: Parens, i: int) -> Seq<char>
    decreases i,
{
    if i <= 0 {
        seq![]
    } else if i == 1 {
        part(nums, parens, 0)
    } else {
        render(nums, ops, parens, i - 1) + seq![' ', symbol(ops[i - 2]), ' '] + part(
            nums,
            parens,
            i - 1,
        )
    }
}

/// A one-character literal for an operator.
fn symbol_str(op: Op) -> (r: &'static str)
    ensures
        r@ == seq![symbol(op)],
{
    proof {
        reveal_strlit("+");
        reveal_strlit("*");
        reveal_strlit("-");
        reveal_strlit("/");
        reveal_strlit("%");
        reveal_strlit("^");
    }
    match op {
        Op::Add => "+",
        Op::Mul => "*",
        Op::Sub => "-",
        Op::Div => "/",
        Op::Mod => "%",
        Op::Exp => "^",
    }
}

impl Equation {
    /// The expression as text.
    pub open spec fn text(self) -> Seq<char> {
        match self {
            Equation::Solved(v) => rational_text(v),
            Equation::Expression { nums, ops, parens } => render(nums@, ops@, parens, nums@.len() as int),
        }
    }

    /// The expression as text: the numeral of a solved value, else the
    /// operands with the operator symbols between them and the span in
    /// parentheses, as in `1 - (0 - 6 - 3)`.
    pub fn format(&self) -> (r: String)
        requires
            self.wf(),
        ensures
            r@ == self.text(),
    {
        let mut out = String::new();
        match self {
            Equation::Solved(v) => {
                assert(self.operands()[0] == *v);
                push_rational(&mut out, *v);
                assert(out@ =~= self.text());
            },
            Equation::Expression { nums, ops, parens } => {
                let mut i: usize = 0;
                assert(out@ =~= render(nums@, ops@, *parens, 0));
                while i < nums.len()
                    invariant
                        i <= nums.len(),
                        aligned(nums@, ops@),
                        out@ == render(nums@, ops@, *parens, i as int),
                    decreases nums.len() - i,
                {
                    let ghost before = out@;
                    if i > 0 {
                        proof {
                            reveal_strlit(" ");
                        }
                        out.append(" ");
                        out.append(symbol_str(ops[i - 1]));
                        out.append(" ");
                    }
                    let ghost mid = out@;
                    let open = match parens {
                        Parens::Span(s, _) => *s == i,
                        Parens::Unbracketed => false,
                    };
                    let close = match parens {
                        Parens::Span(s, e) => *e == i && *s != i,
                        Parens::Unbracketed => false,
                    };
                    if open {
                        proof {
                            reveal_strlit("(");
                        }
                        out.append("(");
                    }
                    assert(nums@[i as int].wf());
                    push_rational(&mut out, nums[i]);
                    if close {
                        proof {
                            reveal_strlit(")");
                        }
                        out.append(")");
                    }
                    assert(out@ =~= mid + part(nums@, *parens, i as int));
                    assert(out@ =~= render(nums@, ops@, *parens, i + 1));
                    i = i + 1;
                }
            },
        }
        out
    }
}

/// `n` reductions, one after another, of an expression without parentheses.
pub open spec fn reduce_times(nums: Seq<Rational>, ops: Seq<Op>, n: nat) -> Result<
    (Seq<Rational>, Seq<Op>),
    EvalError,
>
    decreases n,
{
    if n == 0 {
        Ok((nums, ops))
    } else {
        match reduce_flat(nums, ops) {
            Ok((a, b)) => reduce_times(a, b, (n - 1) as nat),
            Err(x) => Err(x),
        }
    }
}

/// One reduction of an expression without parentheses removes one operand
/// and the operator beside it.
pub proof fn lemma_reduce_flat_shrinks(nums: Seq<Rational>, ops: Seq<Op>)
    requires
        aligned(nums, ops),
        ops.len() >= 1,
    ensures
        reduce_flat(nums, ops) matches Ok((a, b)) ==> a.len() + 1 == nums.len() && aligned(a, b),
{
    lemma_pick_bounds(ops);
    let i = pick(ops);
    if let Ok(v) = apply_spec(ops[i], nums[i], nums[i + 1]) {
        crate::rational::lemma_apply_wf(ops[i], nums[i], nums[i + 1]);
        let a = collapse(nums, i, v);
        assert forall|k: int| 0 <= k < a.len() implies (#[trigger] a[k]).wf() by {
            if k > i {
                assert(a[k] == nums[k + 1]);
            } else if k < i {
                assert(a[k] == nums[k]);
            }
        }
    }
}

/// An expression without parentheses of `k` operands is solved in exactly
/// `k - 1` reductions: after fewer, each run that has not failed leaves two
/// operands or more; after `k - 1`, one operand is left, and it is the value.
pub proof fn lemma_flat_reductions(nums: Seq<Rational>, ops: Seq<Op>, n: nat)
    requires
        aligned(nums, ops),
        n <= ops.len(),
    ensures
        reduce_times(nums, ops, n) matches Ok((a, b)) ==> a.len() == nums.len() - n && aligned(a, b),
        n < ops.len() ==> (reduce_times(nums, ops, n) matches Ok((a, b)) ==> a.len() >= 2),
        eval_flat(nums, ops) == match reduce_times(nums, ops, ops.len()) {
            Ok((a, _)) => Ok(a[0]),
            Err(x) => Err::<Rational, EvalError>(x),
        },
    decreases ops.len(),
{
    if ops.len() > 0 {
        lemma_reduce_flat_shrinks(nums, ops);
        lemma_pick_bounds(ops);
        if let Ok((a, b)) = reduce_flat(nums, ops) {
            lemma_flat_reductions(a, b, if n > 0 { (n - 1) as nat } else { 0 });
            lemma_flat_reductions(a, b, b.len());
        }
    }
}

/// A well-formed expression of `k` operands takes `k - 1` reductions in all:
/// those of the span, made inside its own evaluation, and those that follow
/// the span's removal (or, without a span, the first reduction and those that
/// follow it).
pub proof fn lemma_solve_reductions(e: Equation)
    requires
        e.wf(),
        e is Expression,
    ensures
        step_seqs(e.operands(), e.operators(), e.span()) matches Ok((a, b)) ==> {
            &&& aligned(a, b)
            &&& match e.span() {
                Parens::Span(s, t) => (t - s) + b.len() == e.operands().len() - 1,
                Parens::Unbracketed => 1 + b.len() == e.operands().len() - 1,
            }
            &&& e.value() == match reduce_times(a, b, b.len()) {
                Ok((c, _)) => Ok(c[0]),
                Err(x) => Err::<Rational, EvalError>(x),
            }
        },
{
    let nums = e.operands();
    let ops = e.operators();
    match e.span() {
        Parens::Span(s, t) => {
            let sn = nums.subrange(s as int, t + 1);
            let so = ops.subrange(s as int, t as int);
            assert forall|k: int| 0 <= k < sn.len() implies (#[trigger] sn[k]).wf() by {
                assert(sn[k] == nums[s + k]);
            }
            lemma_flat_reductions(sn, so, so.len());
            if let Ok(v) = eval_flat(sn, so) {
                lemma_eval_flat_wf(sn, so);
                let a = splice_span(nums, s as int, t as int, v);
                assert forall|k: int| 0 <= k < a.len() implies (#[trigger] a[k]).wf() by {
                    if k > s {
                        assert(a[k] == nums[k + (t - s)]);
                    } else if k < s {
                        assert(a[k] == nums[k]);
                    }
                }
                let b = drop_span(ops, s as int, t as int);
                lemma_flat_reductions(a, b, b.len());
            }
        },
        Parens::Unbracketed => {
            lemma_reduce_flat_shrinks(nums, ops);
            if let Ok((a, b)) = reduce_flat(nums, ops) {
                lemma_flat_reductions(a, b, b.len());
            }
        },
    }
}

/// The value of an expression without parentheses is well formed.
pub proof fn lemma_eval_flat_wf(nums: Seq<Rational>, ops: Seq<Op>)
    requires
        aligned(nums, ops),
    ensures
        eval_flat(nums, ops) matches Ok(v) ==> v.wf(),
    decreases ops.len(),
{
    if ops.len() > 0 {
        lemma_reduce_flat_shrinks(nums, ops);
        lemma_pick_bounds(ops);
        if let Ok((a, b)) = reduce_flat(nums, ops) {
            lemma_eval_flat_wf(a, b);
        }
    }
}

} // verus!
