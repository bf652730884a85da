//! The SSA tape: a linear program whose last op is the function's result.
use vstd::prelude::*;
use crate::regalloc::{RegOp, allocate, prog_run, prog_slots_below, prog_wf};

verus! {

/// Opcodes of one operand.
#[derive(Copy, Clone, Debug, PartialEq, Eq, Structural)]
pub enum UnaryOpcode {
    Neg,
    Abs,
    Recip,
    Sqrt,
    Square,
    Copy,
}

/// Opcodes of two operands.  `Min` and `Max` are the choice-bearing ones.
#[derive(Copy, Clone, Debug, PartialEq, Eq, Structural)]
pub enum BinaryOpcode {
    Add,
    Sub,
    Mul,
    Div,
    Min,
    Max,
}

/// One op of an SSA tape.  Operands name earlier ops by index; immediates
/// are the bit patterns of `f32` values.
#[derive(Copy, Clone, Debug, PartialEq, Eq, Structural)]
pub enum Op {
    /// An input axis: 0 is x, 1 is y, 2 is z.
    Input(u8),
    /// A bound variable, by index.
    Var(u32),
    /// A constant.
    Const(u32),
    Unary(UnaryOpcode, usize),
    /// `lhs op rhs`, both operands in registers.
    Binary(BinaryOpcode, usize, usize),
    /// `lhs op imm`, the immediate on the right.
    BinaryImm(BinaryOpcode, usize, u32),
}

/// A value computed by a tape, written as an expression tree.  Two tapes
/// whose results are the same term compute the same value under every
/// interpretation of the opcodes.
pub enum Term {
    Input(u8),
    Var(u32),
    Const(u32),
    Unary(UnaryOpcode, Box<Term>),
    Binary(BinaryOpcode, Box<Term>, Box<Term>),
    BinaryImm(BinaryOpcode, Box<Term>, u32),
}

pub open spec fn is_choice_opcode(o: BinaryOpcode) -> bool {
    o == BinaryOpcode::Min || o == BinaryOpcode::Max
}

/// Whether `op` is a `min` or `max` of two registers.
pub open spec fn is_choice_op(op: Op) -> bool {
    match op {
        Op::Binary(o, _, _) => is_choice_opcode(o),
        _ => false,
    }
}

/// Whether every operand of `op` names an op before index `i`.
pub open spec fn operands_before(op: Op, i: int) -> bool {
    match op {
        Op::Unary(_, a) => a < i,
        Op::Binary(_, a, b) => a < i && b < i,
        Op::BinaryImm(o, a, _) => a < i && !is_choice_opcode(o),
        _ => true,
    }
}

/// Well-formed SSA ops: at least one op, each reading only earlier ones.
pub open spec fn ops_wf(ops: Seq<Op>) -> bool {
    &&& ops.len() > 0
    &&& forall|i: int| 0 <= i < ops.len() ==> operands_before(#[trigger] ops[i], i)
}

/// Number of choice-bearing ops in `ops`.
pub open spec fn count_choices(ops: Seq<Op>) -> nat
    decreases ops.len(),
{
    if ops.len() == 0 {
        0
    } else {
        count_choices(ops.drop_last()) + if is_choice_op(ops.last()) {
            1nat
        } else {
            0nat
        }
    }
}

/// Position in the choice trail of the op at index `i`: the number of
/// choice-bearing ops before it.
pub open spec fn choice_index(ops: Seq<Op>, i: int) -> nat {
    count_choices(ops.take(i))
}

/// Greatest variable index that `ops` reads, plus one, is at most `n`.
pub open spec fn vars_below(ops: Seq<Op>, n: nat) -> bool {
    forall|i: int| 0 <= i < ops.len() ==> match #[trigger] ops[i] {
        Op::Var(v) => v < n,
        _ => true,
    }
}

/// The term computed by the op at index `i`.
pub open spec fn term_of(ops: Seq<Op>, i: int) -> Term
    decreases i,
{
    if i < 0 || i >= ops.len() {
        Term::Const(0)
    } else {
        match ops[i] {
            Op::Input(a) => Term::Input(a),
            Op::Var(v) => Term::Var(v),
            Op::Const(c) => Term::Const(c),
            Op::Unary(o, a) => if 0 <= a < i {
                Term::Unary(o, Box::new(term_of(ops, a as int)))
            } else {
                Term::Const(0)
            },
            Op::Binary(o, a, b) => if 0 <= a < i && 0 <= b < i {
                Term::Binary(o, Box::new(term_of(ops, a as int)), Box::new(term_of(ops, b as int)))
            } else {
                Term::Const(0)
            },
            Op::BinaryImm(o, a, c) => if 0 <= a < i {
                Term::BinaryImm(o, Box::new(term_of(ops, a as int)), c)
            } else {
                Term::Const(0)
            },
        }
    }
}

/// The term computed by the whole tape: that of its last op.
pub open spec fn result_term(ops: Seq<Op>) -> Term {
    term_of(ops, ops.len() - 1)
}

/// The term of an op depends only on the ops up to it.
pub proof fn lemma_term_of_extend(s: Seq<Op>, s2: Seq<Op>, i: int)
    requires
        0 <= i < s.len() <= s2.len(),
        forall|k: int| 0 <= k < s.len() ==> s[k] == s2[k],
    ensures
        term_of(s, i) == term_of(s2, i),
    decreases i,
{
    match s[i] {
        Op::Unary(_, a) => if 0 <= a < i {
            lemma_term_of_extend(s, s2, a as int);
        },
        Op::Binary(_, a, b) => if 0 <= a < i && 0 <= b < i {
            lemma_term_of_extend(s, s2, a as int);
            lemma_term_of_extend(s, s2, b as int);
        },
        Op::BinaryImm(_, a, _) => if 0 <= a < i {
            lemma_term_of_extend(s, s2, a as int);
        },
        _ => {},
    }
}

pub proof fn lemma_count_choices_take_step(ops: Seq<Op>, i: int)
    requires
        0 <= i < ops.len(),
    ensures
        count_choices(ops.take(i + 1)) == count_choices(ops.take(i)) + if is_choice_op(ops[i]) {
            1nat
        } else {
            0nat
        },
{
    assert(ops.take(i + 1).drop_last() =~= ops.take(i));
}

pub proof fn lemma_count_choices_push(ops: Seq<Op>, op: Op)
    ensures
        count_choices(ops.push(op)) == count_choices(ops) + if is_choice_op(op) {
            1nat
        } else {
            0nat
        },
{
    assert(ops.push(op).drop_last() =~= ops);
}

pub proof fn lemma_count_choices_bounded(ops: Seq<Op>)
    ensures
        count_choices(ops) <= ops.len(),
    decreases ops.len(),
{
    if ops.len() > 0 {
        lemma_count_choices_bounded(ops.drop_last());
    }
}

/// A choice-bearing op at index `i` has a trail position below the tape's
/// choice count.
pub proof fn lemma_choice_index_bounded(ops: Seq<Op>, i: int)
    requires
        0 <= i < ops.len(),
        is_choice_op(ops[i]),
    ensures
        choice_index(ops, i) < count_choices(ops),
    decreases ops.len() - i,
{
    lemma_count_choices_take_step(ops, i);
    if i + 1 < ops.len() {
        lemma_choice_index_monotone(ops, i + 1, ops.len() as int);
    } else {
        assert(ops.take(i + 1) =~= ops);
    }
}

pub proof fn lemma_choice_index_monotone(ops: Seq<Op>, i: int, j: int)
    requires
        0 <= i <= j <= ops.len(),
    ensures
        choice_index(ops, i) <= choice_index(ops, j),
        j == ops.len() ==> choice_index(ops, j) == count_choices(ops),
    decreases j - i,
{
    if j == ops.len() {
        assert(ops.take(j) =~= ops);
    }
    if i < j {
        lemma_count_choices_take_step(ops, j - 1);
        lemma_choice_index_monotone(ops, i, j - 1);
    }
}

/// A tape: its SSA ops, and the same program lowered onto a fixed number
/// of physical registers.
pub struct Tape {
    ops: Vec<Op>,
    choice_count: usize,
    var_count: usize,
    reg_limit: u8,
    prog: Vec<RegOp>,
    result_reg: u8,
    slot_count: usize,
}

impl Tape {
    pub closed spec fn spec_ops(&self) -> Seq<Op> {
        self.ops@
    }

    pub closed spec fn spec_choice_count(&self) -> nat {
        self.choice_count as nat
    }

    pub closed spec fn spec_var_count(&self) -> nat {
        self.var_count as nat
    }

    pub closed spec fn spec_reg_limit(&self) -> u8 {
        self.reg_limit
    }

    pub closed spec fn spec_prog(&self) -> Seq<RegOp> {
        self.prog@
    }

    pub closed spec fn spec_result_reg(&self) -> u8 {
        self.result_reg
    }

    pub closed spec fn spec_slot_count(&self) -> nat {
        self.slot_count as nat
    }

    /// The tape's invariant: well-formed ops, a choice count that counts
    /// them, and a register program under the limit whose result register
    /// ends up holding the term of the last op.
    pub closed spec fn wf(&self) -> bool {
        &&& ops_wf(self.ops@)
        &&& self.choice_count == count_choices(self.ops@)
        &&& vars_below(self.ops@, self.var_count as nat)
        &&& self.reg_limit >= 2
        &&& prog_wf(self.prog@, self.reg_limit as int)
        &&& prog_slots_below(self.prog@, self.slot_count as int)
        &&& self.result_reg < self.reg_limit
        &&& prog_run(self.prog@).regs.contains_key(self.result_reg as int)
        &&& prog_run(self.prog@).regs[self.result_reg as int] == result_term(self.ops@)
    }

    pub proof fn lemma_wf(&self)
        requires
            self.wf(),
        ensures
            ops_wf(self.spec_ops()),
            self.spec_choice_count() == count_choices(self.spec_ops()),
            vars_below(self.spec_ops(), self.spec_var_count()),
            self.spec_reg_limit() >= 2,
            prog_wf(self.spec_prog(), self.spec_reg_limit() as int),
            prog_slots_below(self.spec_prog(), self.spec_slot_count() as int),
            self.spec_result_reg() < self.spec_reg_limit(),
            prog_run(self.spec_prog()).regs.contains_key(self.spec_result_reg() as int),
            prog_run(self.spec_prog()).regs[self.spec_result_reg() as int] == result_term(
                self.spec_ops(),
            ),
    {
    }

    pub(crate) fn from_parts(
        ops: Vec<Op>,
        choice_count: usize,
        var_count: usize,
        reg_limit: u8,
    ) -> (r: Tape)
        requires
            ops_wf(ops@),
            choice_count == count_choices(ops@),
            vars_below(ops@, var_count as nat),
            reg_limit >= 2,
        ensures
            r.wf(),
            r.spec_ops() == ops@,
            r.spec_choice_count() == choice_count,
            r.spec_var_count() == var_count,
            r.spec_reg_limit() == reg_limit,
    {
        let a = allocate(&ops, reg_limit);
        Tape {
            ops,
            choice_count,
            var_count,
            reg_limit,
            prog: a.prog,
            result_reg: a.result_reg,
            slot_count: a.slot_count,
        }
    }

    /// Builds a tape from SSA ops and allocates it onto `reg_limit`
    /// registers; `None` where some op reads an op that is not before it, a
    /// `min` / `max` takes an immediate, a variable index is not below
    /// `var_count`, `ops` is empty, or fewer than two registers are allowed.
    pub fn new(ops: Vec<Op>, var_count: usize, reg_limit: u8) -> (r: Option<Tape>)
        ensures
            r is Some <==> ops_wf(ops@) && vars_below(ops@, var_count as nat) && reg_limit >= 2,
            r matches Some(t) ==> t.wf() && t.spec_ops() == ops@ && t.spec_var_count()
                == var_count && t.spec_reg_limit() == reg_limit,
    {
        if ops.len() == 0 || reg_limit < 2 {
            return None;
        }
        let mut i: usize = 0;
        let mut count: usize = 0;
        while i < ops.len()
            invariant
                i <= ops.len(),
                count == count_choices(ops@.take(i as int)),
                forall|k: int| 0 <= k < i ==> operands_before(#[trigger] ops@[k], k),
                forall|k: int|
                    0 <= k < i ==> match #[trigger] ops@[k] {
                        Op::Var(v) => v < var_count,
                        _ => true,
                    },
            decreases ops.len() - i,
        {
            let op = ops[i];
            let ok = match op {
                Op::Var(v) => (v as usize) < var_count,
                Op::Unary(_, a) => a < i,
                Op::Binary(_, a, b) => a < i && b < i,
                Op::BinaryImm(o, a, _) => a < i && !matches!(o, BinaryOpcode::Min | BinaryOpcode::Max),
                _ => true,
            };
            if !ok {
                return None;
            }
            proof {
                lemma_count_choices_take_step(ops@, i as int);
                lemma_count_choices_bounded(ops@.take(i as int));
            }
            if matches!(op, Op::Binary(BinaryOpcode::Min, _, _) | Op::Binary(BinaryOpcode::Max, _, _)) {
                count = count + 1;
            }
            i = i + 1;
        }
        assert(ops@.take(i as int) =~= ops@);
        Some(Tape::from_parts(ops, count, var_count, reg_limit))
    }

    /// The ops, in order; the last one is the result.
    pub fn ops(&self) -> (r: &Vec<Op>)
        ensures
            r@ == self.spec_ops(),
    {
        &self.ops
    }

    /// Number of ops.
    pub fn len(&self) -> (r: usize)
        ensures
            r == self.spec_ops().len(),
    {
        self.ops.len()
    }

    /// Number of `min` / `max` ops, which is the length of a choice trail.
    pub fn choice_count(&self) -> (r: usize)
        ensures
            r == self.spec_choice_count(),
    {
        self.choice_count
    }

    /// The register program; it reads registers below [`Self::reg_limit`].
    pub fn prog(&self) -> (r: &Vec<RegOp>)
        ensures
            r@ == self.spec_prog(),
    {
        &self.prog
    }

    /// The register holding the result once [`Self::prog`] has run.
    pub fn result_reg(&self) -> (r: u8)
        ensures
            r == self.spec_result_reg(),
    {
        self.result_reg
    }

    /// Number of stack slots that [`Self::prog`] uses.
    pub fn slot_count(&self) -> (r: usize)
        ensures
            r == self.spec_slot_count(),
    {
        self.slot_count
    }

    /// Number of physical registers the program was allocated onto.
    pub fn reg_limit(&self) -> (r: u8)
        ensures
            r == self.spec_reg_limit(),
    {
        self.reg_limit
    }

    /// Number of variables the tape is evaluated with.
    pub fn var_count(&self) -> (r: usize)
        ensures
            r == self.spec_var_count(),
    {
        self.var_count
    }
}

} // verus!
