//! Tape simplification: pruning the `min` / `max` branches that a choice
//! trail proved redundant.
use vstd::prelude::*;
use crate::choice::{Choice, is_decided};
use crate::regalloc::prog_run;
use crate::tape::{
    BinaryOpcode, Op, UnaryOpcode, Tape, Term, choice_index, count_choices, is_choice_op, is_choice_opcode,
    lemma_choice_index_bounded, lemma_choice_index_monotone, lemma_count_choices_push,
    lemma_count_choices_bounded, lemma_count_choices_take_step, lemma_term_of_extend, ops_wf, operands_before, term_of, vars_below,
};

verus! {

/// The op that op `i` stands for once pruned: a `Copy` stands for its
/// operand, a `min` / `max` whose trail entry is `Left` (`Right`) stands
/// for its left (right) operand, and one whose operands stand for the same
/// op stands for that op.
pub open spec fn resolved(ops: Seq<Op>, trail: Seq<Choice>, i: int) -> int
    decreases i,
{
    if i < 0 || i >= ops.len() {
        i
    } else {
        match ops[i] {
            Op::Unary(UnaryOpcode::Copy, a) => if 0 <= a < i {
                resolved(ops, trail, a as int)
            } else {
                i
            },
            Op::Binary(o, a, b) => if 0 <= a < i && 0 <= b < i && is_choice_opcode(o) {
                let c = trail[choice_index(ops, i) as int];
                if c == Choice::Left {
                    resolved(ops, trail, a as int)
                } else if c == Choice::Right {
                    resolved(ops, trail, b as int)
                } else if resolved(ops, trail, a as int) == resolved(ops, trail, b as int) {
                    resolved(ops, trail, a as int)
                } else {
                    i
                }
            } else {
                i
            },
            _ => i,
        }
    }
}

/// Whether `ops` holds no `Copy` and no `min` / `max` that reads the same
/// op twice.
pub open spec fn collapsed(ops: Seq<Op>) -> bool {
    forall|i: int|
        0 <= i < ops.len() ==> match #[trigger] ops[i] {
            Op::Unary(o, _) => o != UnaryOpcode::Copy,
            Op::Binary(o, a, b) => is_choice_opcode(o) ==> a != b,
            _ => true,
        }
}

/// The term computed by the op at index `i` once every `Copy` is replaced
/// by its operand, every `min` / `max` whose trail entry is `Left`
/// (`Right`) by its left (right) operand, and every `min` / `max` whose
/// operands stand for the same op by that operand.
pub open spec fn pruned_term(ops: Seq<Op>, trail: Seq<Choice>, i: int) -> Term
    decreases i,
{
    if i < 0 || i >= ops.len() {
        Term::Const(0)
    } else {
        match ops[i] {
            Op::Input(a) => Term::Input(a),
            Op::Var(v) => Term::Var(v),
            Op::Const(c) => Term::Const(c),
            Op::Unary(o, a) => if 0 <= a < i {
                if o == UnaryOpcode::Copy {
                    pruned_term(ops, trail, a as int)
                } else {
                    Term::Unary(o, Box::new(pruned_term(ops, trail, a as int)))
                }
            } else {
                Term::Const(0)
            },
            Op::Binary(o, a, b) => if 0 <= a < i && 0 <= b < i {
                let c = trail[choice_index(ops, i) as int];
                if is_choice_opcode(o) && c == Choice::Left {
                    pruned_term(ops, trail, a as int)
                } else if is_choice_opcode(o) && c == Choice::Right {
                    pruned_term(ops, trail, b as int)
                } else if is_choice_opcode(o) && resolved(ops, trail, a as int) == resolved(
                    ops,
                    trail,
                    b as int,
                ) {
                    pruned_term(ops, trail, a as int)
                } else {
                    Term::Binary(
                        o,
                        Box::new(pruned_term(ops, trail, a as int)),
                        Box::new(pruned_term(ops, trail, b as int)),
                    )
                }
            } else {
                Term::Const(0)
            },
            Op::BinaryImm(o, a, c) => if 0 <= a < i {
                Term::BinaryImm(o, Box::new(pruned_term(ops, trail, a as int)), c)
            } else {
                Term::Const(0)
            },
        }
    }
}

/// Number of `Left` and `Right` entries in a trail.
pub open spec fn count_decided(trail: Seq<Choice>) -> nat
    decreases trail.len(),
{
    if trail.len() == 0 {
        0
    } else {
        count_decided(trail.drop_last()) + if is_decided(trail.last()) {
            1nat
        } else {
            0nat
        }
    }
}

/// Number of choice-bearing ops before index `j` whose trail entry leaves
/// both operands in play.
pub open spec fn undecided_ops(ops: Seq<Op>, trail: Seq<Choice>, j: int) -> nat
    decreases j,
{
    if j <= 0 {
        0
    } else {
        undecided_ops(ops, trail, j - 1) + if is_choice_op(ops[j - 1]) && !is_decided(
            trail[choice_index(ops, j - 1) as int],
        ) {
            1nat
        } else {
            0nat
        }
    }
}

proof fn lemma_undecided_plus_decided(ops: Seq<Op>, trail: Seq<Choice>, j: int)
    requires
        0 <= j <= ops.len(),
        trail.len() == count_choices(ops),
    ensures
        undecided_ops(ops, trail, j) + count_decided(trail.take(choice_index(ops, j) as int))
            == choice_index(ops, j),
    decreases j,
{
    lemma_choice_index_monotone(ops, j, ops.len() as int);
    if j > 0 {
        lemma_undecided_plus_decided(ops, trail, j - 1);
        lemma_count_choices_take_step(ops, j - 1);
        let c = choice_index(ops, j - 1) as int;
        if is_choice_op(ops[j - 1]) {
            assert(trail.take(c + 1).drop_last() =~= trail.take(c));
        }
    } else {
        assert(ops.take(0) =~= Seq::<Op>::empty());
    }
}

/// What the backward liveness pass has established of a live op `k`: an op
/// aliased to one operand was a `min` / `max` decided toward that operand,
/// and every operand that the op still needs is live.
pub open spec fn live_ok(
    ops: Seq<Op>,
    trail: Seq<Choice>,
    live: Seq<bool>,
    target: Seq<usize>,
    k: int,
) -> bool {
    if target[k] != k {
        match ops[k] {
            Op::Binary(o, a, b) => {
                &&& is_choice_opcode(o)
                &&& (trail[choice_index(ops, k) as int] == Choice::Left && target[k] == a)
                    || (trail[choice_index(ops, k) as int] == Choice::Right && target[k] == b)
                &&& live[target[k] as int]
            },
            _ => false,
        }
    } else {
        match ops[k] {
            Op::Unary(_, a) => live[a as int],
            Op::Binary(o, a, b) => live[a as int] && live[b as int] && (is_choice_opcode(o)
                ==> !is_decided(trail[choice_index(ops, k) as int])),
            Op::BinaryImm(_, a, _) => live[a as int],
            _ => true,
        }
    }
}

/// An op stands for an op at or before it, which stands for itself, and
/// both prune to the same term.
pub proof fn lemma_resolved(ops: Seq<Op>, trail: Seq<Choice>, i: int)
    requires
        0 <= i < ops.len(),
    ensures
        0 <= resolved(ops, trail, i) <= i,
        resolved(ops, trail, resolved(ops, trail, i)) == resolved(ops, trail, i),
        pruned_term(ops, trail, resolved(ops, trail, i)) == pruned_term(ops, trail, i),
    decreases i,
{
    match ops[i] {
        Op::Unary(_, a) => if 0 <= a < i {
            lemma_resolved(ops, trail, a as int);
        },
        Op::Binary(o, a, b) => if 0 <= a < i && 0 <= b < i && is_choice_opcode(o) {
            lemma_resolved(ops, trail, a as int);
            lemma_resolved(ops, trail, b as int);
        },
        _ => {},
    }
}

/// A trail holding a `Left` or `Right` counts at least one decided entry.
pub proof fn lemma_decided_counted(trail: Seq<Choice>, m: int)
    requires
        0 <= m < trail.len(),
        is_decided(trail[m]),
    ensures
        count_decided(trail) > 0,
    decreases trail.len(),
{
    if m < trail.len() - 1 {
        lemma_decided_counted(trail.drop_last(), m);
    }
}

/// The value of a term, given the value of each leaf and of each opcode
/// applied to values; an immediate is valued as the matching `Const` leaf.
pub open spec fn eval_term<V>(
    t: Term,
    leaf: spec_fn(Term) -> V,
    unary: spec_fn(UnaryOpcode, V) -> V,
    binary: spec_fn(BinaryOpcode, V, V) -> V,
) -> V
    decreases t,
{
    match t {
        Term::Unary(o, a) => unary(o, eval_term(*a, leaf, unary, binary)),
        Term::Binary(o, a, b) => binary(
            o,
            eval_term(*a, leaf, unary, binary),
            eval_term(*b, leaf, unary, binary),
        ),
        Term::BinaryImm(o, a, c) => binary(
            o,
            eval_term(*a, leaf, unary, binary),
            leaf(Term::Const(c)),
        ),
        _ => leaf(t),
    }
}

/// Whether, under the given valuation, every `min` / `max` that `trail`
/// decided takes the value of the operand it chose: what an interval
/// evaluation over a region guarantees at each point of that region.
pub open spec fn trail_holds<V>(
    ops: Seq<Op>,
    trail: Seq<Choice>,
    leaf: spec_fn(Term) -> V,
    unary: spec_fn(UnaryOpcode, V) -> V,
    binary: spec_fn(BinaryOpcode, V, V) -> V,
) -> bool {
    forall|i: int|
        0 <= i < ops.len() ==> match #[trigger] ops[i] {
            Op::Binary(o, a, b) => is_choice_opcode(o) ==> {
                let c = trail[choice_index(ops, i) as int];
                let v = eval_term(term_of(ops, i), leaf, unary, binary);
                &&& c == Choice::Left ==> v == eval_term(term_of(ops, a as int), leaf, unary, binary)
                &&& c == Choice::Right ==> v == eval_term(term_of(ops, b as int), leaf, unary, binary)
            },
            _ => true,
        }
}

/// Choice correctness: wherever the decided `min` / `max` ops take the
/// value of the operand they chose, `min` / `max` of a value with itself is
/// that value, and `Copy` keeps its operand's value, the pruned tape
/// computes the same value as the unpruned one, at every op.
pub proof fn law_pruning_preserves_value<V>(
    ops: Seq<Op>,
    trail: Seq<Choice>,
    leaf: spec_fn(Term) -> V,
    unary: spec_fn(UnaryOpcode, V) -> V,
    binary: spec_fn(BinaryOpcode, V, V) -> V,
    i: int,
)
    requires
        ops_wf(ops),
        trail.len() == count_choices(ops),
        trail_holds(ops, trail, leaf, unary, binary),
        forall|o: BinaryOpcode, v: V| is_choice_opcode(o) ==> #[trigger] binary(o, v, v) == v,
        forall|v: V| #[trigger] unary(UnaryOpcode::Copy, v) == v,
        0 <= i < ops.len(),
    ensures
        eval_term(pruned_term(ops, trail, i), leaf, unary, binary) == eval_term(
            term_of(ops, i),
            leaf,
            unary,
            binary,
        ),
    decreases i,
{
    assert(operands_before(ops[i], i));
    match ops[i] {
        Op::Unary(_, a) => {
            law_pruning_preserves_value(ops, trail, leaf, unary, binary, a as int);
        },
        Op::Binary(o, a, b) => {
            law_pruning_preserves_value(ops, trail, leaf, unary, binary, a as int);
            law_pruning_preserves_value(ops, trail, leaf, unary, binary, b as int);
            if is_choice_opcode(o) {
                lemma_choice_index_bounded(ops, i);
                let c = trail[choice_index(ops, i) as int];
                if !is_decided(c) && resolved(ops, trail, a as int) == resolved(
                    ops,
                    trail,
                    b as int,
                ) {
                    lemma_resolved(ops, trail, a as int);
                    lemma_resolved(ops, trail, b as int);
                    let va = eval_term(term_of(ops, a as int), leaf, unary, binary);
                    let vb = eval_term(term_of(ops, b as int), leaf, unary, binary);
                    assert(pruned_term(ops, trail, a as int) == pruned_term(ops, trail, b as int));
                    assert(va == vb);
                    assert(eval_term(term_of(ops, i), leaf, unary, binary) == binary(o, va, vb));
                    assert(binary(o, va, va) == va);
                }
            }
        },
        Op::BinaryImm(_, a, _) => {
            law_pruning_preserves_value(ops, trail, leaf, unary, binary, a as int);
        },
        _ => {},
    }
}

/// Idempotence: on a tape without `Copy` where no `min` / `max` reads one
/// op twice (as every simplified tape is), a trail that decides nothing, such as one
/// taken again over the same region, prunes nothing: every op keeps its
/// term.
pub proof fn law_undecided_trail_prunes_nothing(ops: Seq<Op>, trail: Seq<Choice>, i: int)
    requires
        ops_wf(ops),
        collapsed(ops),
        trail.len() == count_choices(ops),
        forall|m: int| 0 <= m < trail.len() ==> !is_decided(#[trigger] trail[m]),
        0 <= i < ops.len(),
    ensures
        pruned_term(ops, trail, i) == term_of(ops, i),
        resolved(ops, trail, i) == i,
    decreases i,
{
    assert(operands_before(ops[i], i));
    match ops[i] {
        Op::Unary(_, a) => {
            law_undecided_trail_prunes_nothing(ops, trail, a as int);
        },
        Op::Binary(o, a, b) => {
            law_undecided_trail_prunes_nothing(ops, trail, a as int);
            law_undecided_trail_prunes_nothing(ops, trail, b as int);
            if is_choice_opcode(o) {
                lemma_choice_index_bounded(ops, i);
                assert(!is_decided(trail[choice_index(ops, i) as int]));
            }
        },
        Op::BinaryImm(_, a, _) => {
            law_undecided_trail_prunes_nothing(ops, trail, a as int);
        },
        _ => {},
    }
}

/// Facts of the backward pass that the forward rewrite relies on.
pub open spec fn fwd_ctx(
    ops: Seq<Op>,
    trail: Seq<Choice>,
    live: Seq<bool>,
    target: Seq<usize>,
    t: int,
) -> bool {
    &&& ops_wf(ops)
    &&& trail.len() == count_choices(ops)
    &&& live.len() == ops.len()
    &&& target.len() == ops.len()
    &&& 0 <= t < ops.len()
    &&& live[t]
    &&& target[t] == t
    &&& forall|k: int| 0 <= k < ops.len() ==> target[k] <= k
    &&& forall|k: int| 0 <= k < ops.len() && #[trigger] live[k] ==> live_ok(ops, trail, live, target, k)
}

/// Op `k` maps to a new op computing its pruned term, the same new op as
/// the op it stands for, which is live.
pub open spec fn mapped(
    ops: Seq<Op>,
    trail: Seq<Choice>,
    live: Seq<bool>,
    remap: Seq<usize>,
    new_ops: Seq<Op>,
    k: int,
) -> bool {
    let r = resolved(ops, trail, k);
    &&& remap[k] < new_ops.len()
    &&& term_of(new_ops, remap[k] as int) == pruned_term(ops, trail, k)
    &&& live[r]
    &&& remap[k] == remap[r]
}

/// Op `k` is live and stands for itself, so it has a new op of its own.
pub open spec fn emitted(ops: Seq<Op>, trail: Seq<Choice>, live: Seq<bool>, k: int) -> bool {
    live[k] && resolved(ops, trail, k) == k
}

/// What the forward rewrite has established after the ops before `j`:
/// each live op up to `t` is mapped, and ops with new ops of their own map
/// to them in increasing order.
pub open spec fn fwd_inv(
    ops: Seq<Op>,
    trail: Seq<Choice>,
    live: Seq<bool>,
    t: int,
    remap: Seq<usize>,
    new_ops: Seq<Op>,
    j: int,
) -> bool {
    &&& remap.len() == j
    &&& forall|k: int| 0 <= k < new_ops.len() ==> operands_before(#[trigger] new_ops[k], k)
    &&& collapsed(new_ops)
    &&& forall|k: int|
        0 <= k < j && k <= t && live[k] ==> #[trigger] mapped(ops, trail, live, remap, new_ops, k)
    &&& forall|k1: int, k2: int|
        0 <= k1 < k2 < j && k2 <= t && #[trigger] emitted(ops, trail, live, k1) && #[trigger] emitted(
            ops,
            trail,
            live,
            k2,
        ) ==> remap[k1] < remap[k2]
}

proof fn lemma_fwd_skip(
    ops: Seq<Op>,
    trail: Seq<Choice>,
    live: Seq<bool>,
    target: Seq<usize>,
    t: int,
    remap: Seq<usize>,
    new_ops: Seq<Op>,
    j: int,
)
    requires
        fwd_ctx(ops, trail, live, target, t),
        fwd_inv(ops, trail, live, t, remap, new_ops, j),
        0 <= j < ops.len(),
        !live[j] || j > t,
    ensures
        fwd_inv(ops, trail, live, t, remap.push(0), new_ops, j + 1),
{
    let r2 = remap.push(0);
    assert forall|k: int| 0 <= k < j + 1 && k <= t && live[k] implies #[trigger] mapped(
        ops,
        trail,
        live,
        r2,
        new_ops,
        k,
    ) by {
        assert(mapped(ops, trail, live, remap, new_ops, k));
        lemma_resolved(ops, trail, k);
    }
    assert forall|k1: int, k2: int|
        0 <= k1 < k2 < j + 1 && k2 <= t && #[trigger] emitted(ops, trail, live, k1)
            && #[trigger] emitted(ops, trail, live, k2) implies r2[k1] < r2[k2] by {
        assert(remap[k1] < remap[k2]);
    }
}

proof fn lemma_fwd_alias(
    ops: Seq<Op>,
    trail: Seq<Choice>,
    live: Seq<bool>,
    target: Seq<usize>,
    t: int,
    remap: Seq<usize>,
    new_ops: Seq<Op>,
    j: int,
)
    requires
        fwd_ctx(ops, trail, live, target, t),
        fwd_inv(ops, trail, live, t, remap, new_ops, j),
        0 <= j <= t,
        live[j],
        target[j] != j,
    ensures
        fwd_inv(ops, trail, live, t, remap.push(remap[target[j] as int]), new_ops, j + 1),
{
    let r2 = remap.push(remap[target[j] as int]);
    assert(live_ok(ops, trail, live, target, j));
    assert(operands_before(ops[j], j));
    let tj = target[j] as int;
    lemma_resolved(ops, trail, tj);
    lemma_choice_index_bounded(ops, j);
    assert(resolved(ops, trail, j) == resolved(ops, trail, tj));
    assert(pruned_term(ops, trail, j) == pruned_term(ops, trail, tj));
    assert(mapped(ops, trail, live, remap, new_ops, tj));
    assert forall|k: int| 0 <= k < j + 1 && k <= t && live[k] implies #[trigger] mapped(
        ops,
        trail,
        live,
        r2,
        new_ops,
        k,
    ) by {
        lemma_resolved(ops, trail, k);
        if k < j {
            assert(mapped(ops, trail, live, remap, new_ops, k));
        }
    }
    assert forall|k1: int, k2: int|
        0 <= k1 < k2 < j + 1 && k2 <= t && #[trigger] emitted(ops, trail, live, k1)
            && #[trigger] emitted(ops, trail, live, k2) implies r2[k1] < r2[k2] by {
        assert(k2 != j);
        assert(remap[k1] < remap[k2]);
    }
}

proof fn lemma_fwd_copy(
    ops: Seq<Op>,
    trail: Seq<Choice>,
    live: Seq<bool>,
    target: Seq<usize>,
    t: int,
    remap: Seq<usize>,
    new_ops: Seq<Op>,
    j: int,
)
    requires
        fwd_ctx(ops, trail, live, target, t),
        fwd_inv(ops, trail, live, t, remap, new_ops, j),
        0 <= j <= t,
        live[j],
        target[j] == j,
        ops[j] matches Op::Unary(UnaryOpcode::Copy, _),
    ensures
        ops[j] matches Op::Unary(_, a) && fwd_inv(
            ops,
            trail,
            live,
            t,
            remap.push(remap[a as int]),
            new_ops,
            j + 1,
        ),
{
    if let Op::Unary(_, a) = ops[j] {
        let r2 = remap.push(remap[a as int]);
        assert(live_ok(ops, trail, live, target, j));
        assert(operands_before(ops[j], j));
        lemma_resolved(ops, trail, a as int);
        assert(resolved(ops, trail, j) == resolved(ops, trail, a as int));
        assert(pruned_term(ops, trail, j) == pruned_term(ops, trail, a as int));
        assert(mapped(ops, trail, live, remap, new_ops, a as int));
        assert forall|k: int| 0 <= k < j + 1 && k <= t && live[k] implies #[trigger] mapped(
            ops,
            trail,
            live,
            r2,
            new_ops,
            k,
        ) by {
            lemma_resolved(ops, trail, k);
            if k < j {
                assert(mapped(ops, trail, live, remap, new_ops, k));
            }
        }
        assert forall|k1: int, k2: int|
            0 <= k1 < k2 < j + 1 && k2 <= t && #[trigger] emitted(ops, trail, live, k1)
                && #[trigger] emitted(ops, trail, live, k2) implies r2[k1] < r2[k2] by {
            assert(k2 != j);
            assert(remap[k1] < remap[k2]);
        }
    }
}

proof fn lemma_fwd_tie(
    ops: Seq<Op>,
    trail: Seq<Choice>,
    live: Seq<bool>,
    target: Seq<usize>,
    t: int,
    remap: Seq<usize>,
    new_ops: Seq<Op>,
    j: int,
)
    requires
        fwd_ctx(ops, trail, live, target, t),
        fwd_inv(ops, trail, live, t, remap, new_ops, j),
        0 <= j <= t,
        live[j],
        target[j] == j,
        ops[j] matches Op::Binary(o, a, b) && is_choice_opcode(o) && remap[a as int] == remap[b as int],
    ensures
        ops[j] matches Op::Binary(_, a, _) && fwd_inv(
            ops,
            trail,
            live,
            t,
            remap.push(remap[a as int]),
            new_ops,
            j + 1,
        ),
{
    if let Op::Binary(o, a, b) = ops[j] {
        let r2 = remap.push(remap[a as int]);
        assert(live_ok(ops, trail, live, target, j));
        assert(operands_before(ops[j], j));
        lemma_choice_index_bounded(ops, j);
        lemma_resolved(ops, trail, a as int);
        lemma_resolved(ops, trail, b as int);
        let ra = resolved(ops, trail, a as int);
        let rb = resolved(ops, trail, b as int);
        assert(mapped(ops, trail, live, remap, new_ops, a as int));
        assert(mapped(ops, trail, live, remap, new_ops, b as int));
        assert(emitted(ops, trail, live, ra));
        assert(emitted(ops, trail, live, rb));
        if ra < rb {
            assert(remap[ra] < remap[rb]);
        } else if rb < ra {
            assert(remap[rb] < remap[ra]);
        }
        assert(ra == rb);
        assert(resolved(ops, trail, j) == ra);
        assert(pruned_term(ops, trail, j) == pruned_term(ops, trail, a as int));
        assert forall|k: int| 0 <= k < j + 1 && k <= t && live[k] implies #[trigger] mapped(
            ops,
            trail,
            live,
            r2,
            new_ops,
            k,
        ) by {
            lemma_resolved(ops, trail, k);
            if k < j {
                assert(mapped(ops, trail, live, remap, new_ops, k));
            }
        }
        assert forall|k1: int, k2: int|
            0 <= k1 < k2 < j + 1 && k2 <= t && #[trigger] emitted(ops, trail, live, k1)
                && #[trigger] emitted(ops, trail, live, k2) implies r2[k1] < r2[k2] by {
            assert(k2 != j);
            assert(remap[k1] < remap[k2]);
        }
    }
}

proof fn lemma_fwd_emit(
    ops: Seq<Op>,
    trail: Seq<Choice>,
    live: Seq<bool>,
    target: Seq<usize>,
    t: int,
    remap: Seq<usize>,
    new_ops: Seq<Op>,
    j: int,
)
    requires
        fwd_ctx(ops, trail, live, target, t),
        fwd_inv(ops, trail, live, t, remap, new_ops, j),
        0 <= j <= t,
        new_ops.len() <= j,
        ops.len() <= usize::MAX,
        live[j],
        target[j] == j,
        !(ops[j] matches Op::Unary(UnaryOpcode::Copy, _)),
        !(ops[j] matches Op::Binary(o, a, b) && is_choice_opcode(o) && remap[a as int]
            == remap[b as int]),
    ensures
        ({
            let new_op = match ops[j] {
                Op::Unary(o, a) => Op::Unary(o, remap[a as int]),
                Op::Binary(o, a, b) => Op::Binary(o, remap[a as int], remap[b as int]),
                Op::BinaryImm(o, a, imm) => Op::BinaryImm(o, remap[a as int], imm),
                other => other,
            };
            fwd_inv(ops, trail, live, t, remap.push(new_ops.len() as usize), new_ops.push(new_op), j + 1)
        }),
{
    let new_op = match ops[j] {
        Op::Unary(o, a) => Op::Unary(o, remap[a as int]),
        Op::Binary(o, a, b) => Op::Binary(o, remap[a as int], remap[b as int]),
        Op::BinaryImm(o, a, imm) => Op::BinaryImm(o, remap[a as int], imm),
        other => other,
    };
    let r2 = remap.push(new_ops.len() as usize);
    let n2 = new_ops.push(new_op);
    assert(live_ok(ops, trail, live, target, j));
    assert(operands_before(ops[j], j));
    match ops[j] {
        Op::Unary(_, a) => {
            assert(mapped(ops, trail, live, remap, new_ops, a as int));
            lemma_term_of_extend(new_ops, n2, remap[a as int] as int);
        },
        Op::Binary(o, a, b) => {
            assert(mapped(ops, trail, live, remap, new_ops, a as int));
            assert(mapped(ops, trail, live, remap, new_ops, b as int));
            lemma_term_of_extend(new_ops, n2, remap[a as int] as int);
            lemma_term_of_extend(new_ops, n2, remap[b as int] as int);
            if is_choice_opcode(o) {
                lemma_choice_index_bounded(ops, j);
                lemma_resolved(ops, trail, a as int);
                lemma_resolved(ops, trail, b as int);
                let ra = resolved(ops, trail, a as int);
                let rb = resolved(ops, trail, b as int);
                assert(ra != rb);
            }
        },
        Op::BinaryImm(_, a, _) => {
            assert(mapped(ops, trail, live, remap, new_ops, a as int));
            lemma_term_of_extend(new_ops, n2, remap[a as int] as int);
        },
        _ => {},
    }
    assert(resolved(ops, trail, j) == j);
    assert(term_of(n2, new_ops.len() as int) == pruned_term(ops, trail, j));
    assert forall|k: int| 0 <= k < j + 1 && k <= t && live[k] implies #[trigger] mapped(
        ops,
        trail,
        live,
        r2,
        n2,
        k,
    ) by {
        lemma_resolved(ops, trail, k);
        if k < j {
            assert(mapped(ops, trail, live, remap, new_ops, k));
            lemma_term_of_extend(new_ops, n2, remap[k] as int);
        }
    }
    assert forall|k1: int, k2: int|
        0 <= k1 < k2 < j + 1 && k2 <= t && #[trigger] emitted(ops, trail, live, k1)
            && #[trigger] emitted(ops, trail, live, k2) implies r2[k1] < r2[k2] by {
        assert(mapped(ops, trail, live, remap, new_ops, k1));
        if k2 < j {
            assert(remap[k1] < remap[k2]);
        }
    }
    assert forall|k: int| 0 <= k < n2.len() implies operands_before(#[trigger] n2[k], k) by {
        if k < new_ops.len() {
            assert(operands_before(new_ops[k], k));
        }
    }
    assert forall|k: int| 0 <= k < n2.len() implies match #[trigger] n2[k] {
        Op::Binary(o, a, b) => is_choice_opcode(o) ==> a != b,
        _ => true,
    } by {
        if k < new_ops.len() {
            assert(new_ops[k] == n2[k]);
        }
    }
}

/// Rewrites `tape` under a choice trail taken from an interval evaluation:
/// each `min` / `max` whose entry is `Left` or `Right` is replaced by that
/// operand, as is each `min` / `max` whose operands become the same op and
/// each `Copy`; ops that the result no longer reads are dropped, the
/// remaining ops keep their order, and the result is allocated onto
/// `reg_limit` registers.
pub fn simplify_tape(tape: &Tape, trail: &Vec<Choice>, reg_limit: u8) -> (r: Tape)
    requires
        tape.wf(),
        trail@.len() == tape.spec_choice_count(),
        reg_limit >= 2,
    ensures
        r.spec_reg_limit() == reg_limit,
        r.wf(),
        prog_run(r.spec_prog()).regs[r.spec_result_reg() as int] == pruned_term(
            tape.spec_ops(),
            trail@,
            tape.spec_ops().len() - 1,
        ),
        term_of(r.spec_ops(), r.spec_ops().len() - 1) == pruned_term(
            tape.spec_ops(),
            trail@,
            tape.spec_ops().len() - 1,
        ),
        r.spec_choice_count() + count_decided(trail@) <= tape.spec_choice_count(),
        (exists|m: int| 0 <= m < trail@.len() && is_decided(#[trigger] trail@[m]))
            ==> r.spec_choice_count() < tape.spec_choice_count(),
        r.spec_var_count() == tape.spec_var_count(),
        r.spec_ops().len() <= tape.spec_ops().len(),
        collapsed(r.spec_ops()),
{
    proof {
        tape.lemma_wf();
    }
    let ops = tape.ops();
    let n = ops.len();
    let ghost sops = ops@;
    let ghost st = trail@;

    // Backward liveness.
    let mut live: Vec<bool> = Vec::new();
    let mut target: Vec<usize> = Vec::new();
    let mut i: usize = 0;
    while i < n
        invariant
            i <= n,
            live.len() == i,
            target.len() == i,
            forall|k: int| 0 <= k < i ==> !live@[k] && target@[k] == k,
        decreases n - i,
    {
        live.push(false);
        target.push(i);
        i = i + 1;
    }
    live.set(n - 1, true);
    let mut c: usize = tape.choice_count();
    proof {
        lemma_choice_index_monotone(sops, n as int, n as int);
    }
    while i > 0
        invariant
            i <= n,
            n == sops.len(),
            ops@ == sops,
            trail@ == st,
            ops_wf(sops),
            st.len() == count_choices(sops),
            c == choice_index(sops, i as int),
            live.len() == n,
            target.len() == n,
            live@[n - 1],
            forall|k: int| 0 <= k < i ==> target@[k] == k,
            forall|k: int| 0 <= k < n ==> target@[k] <= k,
            forall|k: int|
                i <= k < n && #[trigger] live@[k] ==> live_ok(sops, st, live@, target@, k),
        decreases i,
    {
        i = i - 1;
        let op = ops[i];
        proof {
            lemma_count_choices_take_step(sops, i as int);
            assert(operands_before(sops[i as int], i as int));
        }
        let is_choice = matches!(
            op,
            Op::Binary(BinaryOpcode::Min, _, _) | Op::Binary(BinaryOpcode::Max, _, _)
        );
        if is_choice {
            c = c - 1;
        }
        if live[i] {
            let ghost live0 = live@;
            match op {
                Op::Unary(_, a) => {
                    live.set(a, true);
                },
                Op::Binary(o, a, b) => {
                    if is_choice {
                        proof {
                            lemma_choice_index_bounded(sops, i as int);
                        }
                        let ch = trail[c];
                        if ch == Choice::Left {
                            target.set(i, a);
                            live.set(a, true);
                        } else if ch == Choice::Right {
                            target.set(i, b);
                            live.set(b, true);
                        } else {
                            live.set(a, true);
                            live.set(b, true);
                        }
                    } else {
                        live.set(a, true);
                        live.set(b, true);
                    }
                },
                Op::BinaryImm(_, a, _) => {
                    live.set(a, true);
                },
                _ => {},
            }
            assert(forall|k: int| 0 <= k < n && live0[k] ==> live@[k]);
            assert forall|k: int| i <= k < n && #[trigger] live@[k] implies live_ok(
                sops,
                st,
                live@,
                target@,
                k,
            ) by {
                if k > i {
                    assert(live0[k]);
                    assert(live_ok(sops, st, live0, target@, k));
                }
            }
        }
    }

    // Follow the aliases from the result to the op that computes it.
    let mut t: usize = n - 1;
    while target[t] != t
        invariant
            t < n,
            n == sops.len(),
            ops_wf(sops),
            live.len() == n,
            target.len() == n,
            live@[t as int],
            forall|k: int| 0 <= k < n ==> target@[k] <= k,
            forall|k: int| 0 <= k < n && #[trigger] live@[k] ==> live_ok(sops, st, live@, target@, k),
            pruned_term(sops, st, t as int) == pruned_term(sops, st, n - 1),
        decreases t,
    {
        proof {
            assert(live_ok(sops, st, live@, target@, t as int));
            assert(operands_before(sops[t as int], t as int));
        }
        t = target[t];
    }

    // Forward rewrite of the live ops up to the result.
    let mut new_ops: Vec<Op> = Vec::new();
    let mut remap: Vec<usize> = Vec::new();
    let mut kept: usize = 0;
    let mut j: usize = 0;
    while j < n
        invariant
            j <= n,
            t < n,
            n == sops.len(),
            ops@ == sops,
            trail@ == st,
            fwd_ctx(sops, st, live@, target@, t as int),
            vars_below(sops, tape.spec_var_count()),
            live.len() == n,
            target.len() == n,
            pruned_term(sops, st, t as int) == pruned_term(sops, st, n - 1),
            fwd_inv(sops, st, live@, t as int, remap@, new_ops@, j as int),
            vars_below(new_ops@, tape.spec_var_count()),
            new_ops.len() <= j,
            kept == count_choices(new_ops@),
            kept <= undecided_ops(sops, st, j as int),
        decreases n - j,
    {
        let ghost before = new_ops@;
        let ghost remap0 = remap@;
        proof {
            assert(operands_before(sops[j as int], j as int));
            lemma_count_choices_bounded(before);
            assert(undecided_ops(sops, st, j + 1) == undecided_ops(sops, st, j as int) + if is_choice_op(sops[j as int]) && !is_decided(st[choice_index(sops, j as int) as int]) { 1nat } else { 0nat });
        }
        if live[j] && j <= t {
            proof {
                assert(live_ok(sops, st, live@, target@, j as int));
            }
            let op = ops[j];
            let tied = match op {
                Op::Binary(BinaryOpcode::Min, a, b) | Op::Binary(BinaryOpcode::Max, a, b) =>
                    target[j] == j && remap[a] == remap[b],
                _ => false,
            };
            let copied = matches!(op, Op::Unary(UnaryOpcode::Copy, _));
            if target[j] != j {
                let to = remap[target[j]];
                remap.push(to);
                proof {
                    lemma_fwd_alias(sops, st, live@, target@, t as int, remap0, before, j as int);
                }
            } else if copied {
                let to = match op {
                    Op::Unary(_, a) => remap[a],
                    _ => 0,
                };
                remap.push(to);
                proof {
                    lemma_fwd_copy(sops, st, live@, target@, t as int, remap0, before, j as int);
                }
            } else if tied {
                let to = match op {
                    Op::Binary(_, a, _) => remap[a],
                    _ => 0,
                };
                remap.push(to);
                proof {
                    lemma_fwd_tie(sops, st, live@, target@, t as int, remap0, before, j as int);
                }
            } else {
                let new_op = match op {
                    Op::Unary(o, a) => Op::Unary(o, remap[a]),
                    Op::Binary(o, a, b) => Op::Binary(o, remap[a], remap[b]),
                    Op::BinaryImm(o, a, imm) => Op::BinaryImm(o, remap[a], imm),
                    other => other,
                };
                let is_choice = matches!(
                    op,
                    Op::Binary(BinaryOpcode::Min, _, _) | Op::Binary(BinaryOpcode::Max, _, _)
                );
                remap.push(new_ops.len());
                new_ops.push(new_op);
                proof {
                    lemma_count_choices_push(before, new_op);
                    lemma_fwd_emit(sops, st, live@, target@, t as int, remap0, before, j as int);
                }
                if is_choice {
                    kept = kept + 1;
                }
            }
        } else {
            remap.push(0);
            proof {
                lemma_fwd_skip(sops, st, live@, target@, t as int, remap0, before, j as int);
            }
        }
        j = j + 1;
    }

    // Keep the ops up to the one computing the result.
    proof {
        assert(mapped(sops, st, live@, remap@, new_ops@, t as int));
    }
    let m = remap[t] + 1;
    let mut out: Vec<Op> = Vec::new();
    let mut out_kept: usize = 0;
    let mut k: usize = 0;
    while k < m
        invariant
            k <= m <= new_ops.len(),
            out@ == new_ops@.take(k as int),
            out_kept == count_choices(out@),
            out_kept <= k,
        decreases m - k,
    {
        proof {
            lemma_count_choices_push(out@, new_ops@[k as int]);
            crate::tape::lemma_count_choices_bounded(out@);
        }
        let op = new_ops[k];
        out.push(op);
        if matches!(op, Op::Binary(BinaryOpcode::Min, _, _) | Op::Binary(BinaryOpcode::Max, _, _)) {
            out_kept = out_kept + 1;
        }
        proof {
            assert(out@ =~= new_ops@.take(k + 1));
        }
        k = k + 1;
    }
    proof {
        lemma_undecided_plus_decided(sops, st, n as int);
        lemma_choice_index_monotone(sops, n as int, n as int);
        assert(st.take(count_choices(sops) as int) =~= st);
        assert(kept + count_decided(st) <= count_choices(sops));
        lemma_choice_index_monotone(new_ops@, m as int, new_ops@.len() as int);
        assert(out_kept <= kept);
        lemma_term_of_extend(out@, new_ops@, m - 1);
        if exists|i: int| 0 <= i < st.len() && is_decided(#[trigger] st[i]) {
            let i = choose|i: int| 0 <= i < st.len() && is_decided(#[trigger] st[i]);
            lemma_decided_counted(st, i);
        }
        assert(forall|i: int| 0 <= i < out@.len() ==> out@[i] == new_ops@[i]);
    }
    let r = Tape::from_parts(out, out_kept, tape.var_count(), reg_limit);
    proof {
        r.lemma_wf();
    }
    r
}

} // verus!
