//! Register allocation: lowering an SSA tape onto a fixed number of
//! physical registers, spilling to stack slots where they run out.
use vstd::prelude::*;
use crate::tape::{BinaryOpcode, Op, Term, UnaryOpcode, operands_before, ops_wf, term_of};

verus! {

/// One op of a register-allocated tape.  Registers are below the tape's
/// register limit; slots are stack slots.
#[derive(Copy, Clone, Debug, PartialEq, Eq, Structural)]
pub enum RegOp {
    /// `dst = input axis`
    Input(u8, u8),
    /// `dst = var`
    Var(u8, u32),
    /// `dst = imm`
    Const(u8, u32),
    /// `dst = op src`
    Unary(UnaryOpcode, u8, u8),
    /// `dst = lhs op rhs`
    Binary(BinaryOpcode, u8, u8, u8),
    /// `dst = lhs op imm`
    BinaryImm(BinaryOpcode, u8, u8, u32),
    /// `dst = slot`
    Load(u8, usize),
    /// `slot = src`
    Store(usize, u8),
}

/// The symbolic machine: what each register and each slot holds.
pub struct Machine {
    pub regs: Map<int, Term>,
    pub slots: Map<int, Term>,
}

/// Every register that `op` names is below `limit`.
pub open spec fn prog_regs_below(op: RegOp, limit: int) -> bool {
    match op {
        RegOp::Input(d, _) => d < limit,
        RegOp::Var(d, _) => d < limit,
        RegOp::Const(d, _) => d < limit,
        RegOp::Unary(_, d, s) => d < limit && s < limit,
        RegOp::Binary(_, d, a, b) => d < limit && a < limit && b < limit,
        RegOp::BinaryImm(_, d, a, _) => d < limit && a < limit,
        RegOp::Load(d, _) => d < limit,
        RegOp::Store(_, s) => s < limit,
    }
}

/// Every register that `prog` names is below `limit`.
pub open spec fn prog_wf(prog: Seq<RegOp>, limit: int) -> bool {
    forall|k: int| 0 <= k < prog.len() ==> prog_regs_below(#[trigger] prog[k], limit)
}

/// Every slot that `prog` names is below `count`.
pub open spec fn prog_slots_below(prog: Seq<RegOp>, count: int) -> bool {
    forall|k: int|
        0 <= k < prog.len() ==> match #[trigger] prog[k] {
            RegOp::Load(_, s) => s < count,
            RegOp::Store(s, _) => s < count,
            _ => true,
        }
}

/// One step of the symbolic machine.
pub open spec fn prog_step(m: Machine, op: RegOp) -> Machine {
    match op {
        RegOp::Input(d, a) => Machine { regs: m.regs.insert(d as int, Term::Input(a)), ..m },
        RegOp::Var(d, v) => Machine { regs: m.regs.insert(d as int, Term::Var(v)), ..m },
        RegOp::Const(d, c) => Machine { regs: m.regs.insert(d as int, Term::Const(c)), ..m },
        RegOp::Unary(o, d, s) => Machine {
            regs: m.regs.insert(d as int, Term::Unary(o, Box::new(m.regs[s as int]))),
            ..m
        },
        RegOp::Binary(o, d, a, b) => Machine {
            regs: m.regs.insert(
                d as int,
                Term::Binary(o, Box::new(m.regs[a as int]), Box::new(m.regs[b as int])),
            ),
            ..m
        },
        RegOp::BinaryImm(o, d, a, c) => Machine {
            regs: m.regs.insert(d as int, Term::BinaryImm(o, Box::new(m.regs[a as int]), c)),
            ..m
        },
        RegOp::Load(d, s) => Machine { regs: m.regs.insert(d as int, m.slots[s as int]), ..m },
        RegOp::Store(s, r) => Machine { slots: m.slots.insert(s as int, m.regs[r as int]), ..m },
    }
}

/// The symbolic machine after running `prog` from empty registers and slots.
pub open spec fn prog_run(prog: Seq<RegOp>) -> Machine
    decreases prog.len(),
{
    if prog.len() == 0 {
        Machine { regs: Map::empty(), slots: Map::empty() }
    } else {
        prog_step(prog_run(prog.drop_last()), prog.last())
    }
}

proof fn lemma_run_push(prog: Seq<RegOp>, op: RegOp)
    ensures
        prog_run(prog.push(op)) == prog_step(prog_run(prog), op),
{
    assert(prog.push(op).drop_last() =~= prog);
}

/// Whether `op` reads value `v`.
pub open spec fn reads(op: Op, v: int) -> bool {
    match op {
        Op::Unary(_, a) => a == v,
        Op::Binary(_, a, b) => a == v || b == v,
        Op::BinaryImm(_, a, _) => a == v,
        _ => false,
    }
}

/// Allocation state during the forward walk.
struct Alloc {
    reg_val: Vec<Option<usize>>,
    loc_reg: Vec<Option<u8>>,
    loc_slot: Vec<Option<usize>>,
    prog: Vec<RegOp>,
    next_slot: usize,
}

impl Alloc {
    /// The walk's invariant: registers and slots hold the terms of the
    /// values mapped to them, every value below `bound` still read at or
    /// after op `need` sits in a register or a slot, and no value from
    /// `bound` on is placed yet.
    spec fn inv(&self, ops: Seq<Op>, limit: int, last_use: Seq<usize>, bound: int, need: int) -> bool {
        let m = prog_run(self.prog@);
        &&& 0 < limit <= 256
        &&& self.reg_val.len() == limit
        &&& self.loc_reg.len() == ops.len()
        &&& self.loc_slot.len() == ops.len()
        &&& last_use.len() == ops.len()
        &&& prog_wf(self.prog@, limit)
        &&& prog_slots_below(self.prog@, self.next_slot as int)
        &&& self.next_slot <= self.prog.len()
        &&& forall|r: int|
            0 <= r < limit && (#[trigger] self.reg_val@[r]) is Some ==> {
                let v = self.reg_val@[r]->0 as int;
                &&& v < ops.len()
                &&& self.loc_reg@[v] == Some(r as u8)
                &&& m.regs.contains_key(r)
                &&& m.regs[r] == term_of(ops, v)
            }
        &&& forall|v: int|
            0 <= v < ops.len() && (#[trigger] self.loc_reg@[v]) is Some ==> {
                let r = self.loc_reg@[v]->0 as int;
                &&& r < limit
                &&& self.reg_val@[r] == Some(v as usize)
            }
        &&& forall|v: int|
            0 <= v < ops.len() && (#[trigger] self.loc_slot@[v]) is Some ==> {
                let s = self.loc_slot@[v]->0 as int;
                &&& s < self.next_slot
                &&& m.slots.contains_key(s)
                &&& m.slots[s] == term_of(ops, v)
            }
        &&& forall|v: int|
            0 <= v < bound && v < ops.len() && #[trigger] last_use[v] >= need ==> self.loc_reg@[v]
                is Some || self.loc_slot@[v] is Some
        &&& forall|v: int|
            bound <= v < ops.len() ==> (#[trigger] self.loc_reg@[v]) is None && self.loc_slot@[v]
                is None
    }

    /// Frees register `r`, storing its value to a fresh slot first where
    /// it has none.
    fn evict(
        &mut self,
        r: u8,
        Ghost(ops): Ghost<Seq<Op>>,
        Ghost(limit): Ghost<int>,
        Ghost(last_use): Ghost<Seq<usize>>,
        Ghost(bound): Ghost<int>,
        Ghost(need): Ghost<int>,
    )
        requires
            old(self).inv(ops, limit, last_use, bound, need),
            r < limit,
        ensures
            final(self).inv(ops, limit, last_use, bound, need),
            final(self).reg_val@[r as int] is None,
            forall|r2: int| 0 <= r2 < limit && r2 != r ==> final(self).reg_val@[r2] == old(self).reg_val@[r2],
            prog_run(final(self).prog@).regs == prog_run(old(self).prog@).regs,
    {
        match self.reg_val[r as usize] {
            Some(v) => {
                if self.loc_slot[v].is_none() {
                    let s = self.next_slot;
                    proof {
                        lemma_run_push(self.prog@, RegOp::Store(s, r));
                    }
                    self.prog.push(RegOp::Store(s, r));
                    let l = self.prog.len();
                    self.loc_slot.set(v, Some(s));
                    self.next_slot = s + 1;
                    assert(l == old(self).prog@.len() + 1);
                }
                self.loc_reg.set(v, None);
                self.reg_val.set(r as usize, None);
            },
            None => {},
        }
    }

    /// A register other than `avoid`: a free one where there is one, else
    /// the one whose value is next read farthest from op `from`.
    fn pick_reg(&self, ops: &Vec<Op>, limit: u8, avoid: Option<u8>, from: usize) -> (r: u8)
        requires
            self.reg_val.len() == limit,
            limit >= 2,
        ensures
            r < limit,
            avoid != Some(r),
    {
        let mut best: usize = match avoid {
            Some(x) => if x == 0 { 1 } else { 0 },
            None => 0,
        };
        let mut best_use: usize = 0;
        let mut i: usize = 0;
        while i < limit as usize
            invariant
                i <= limit,
                best < limit,
                limit >= 2,
                self.reg_val.len() == limit,
                avoid != Some(best as u8),
            decreases limit - i,
        {
            let avoided = match avoid {
                Some(x) => x as usize == i,
                None => false,
            };
            if !avoided {
                match self.reg_val[i] {
                    None => {
                        return i as u8;
                    },
                    Some(v) => {
                        let u = next_use(ops, v, from);
                        if u >= best_use {
                            best = i;
                            best_use = u;
                        }
                    },
                }
            }
            i = i + 1;
        }
        best as u8
    }

    /// Brings value `a` into a register other than `avoid`, loading it from
    /// its slot where it is in none.
    fn ensure_in_reg(
        &mut self,
        ops: &Vec<Op>,
        limit: u8,
        a: usize,
        avoid: Option<u8>,
        at: usize,
        Ghost(last_use): Ghost<Seq<usize>>,
        Ghost(bound): Ghost<int>,
        Ghost(need): Ghost<int>,
    ) -> (r: u8)
        requires
            old(self).inv(ops@, limit as int, last_use, bound, need),
            limit >= 2,
            a < bound,
            a < ops@.len(),
            last_use[a as int] >= need,
            avoid matches Some(x) ==> x < limit && old(self).reg_val@[x as int] is Some
                && old(self).reg_val@[x as int] != Some(a),
        ensures
            final(self).inv(ops@, limit as int, last_use, bound, need),
            r < limit,
            avoid != Some(r),
            final(self).reg_val@[r as int] == Some(a),
            avoid matches Some(x) ==> final(self).reg_val@[x as int] == old(self).reg_val@[x as int],
    {
        match self.loc_reg[a] {
            Some(r) => {
                proof {
                    assert(self.loc_reg@[a as int] is Some);
                }
                r
            },
            None => {
                let r = self.pick_reg(ops, limit, avoid, at);
                self.evict(r, Ghost(ops@), Ghost(limit as int), Ghost(last_use), Ghost(bound), Ghost(need));
                proof {
                    assert(self.loc_reg@[a as int] is None);
                }
                let s = match self.loc_slot[a] {
                    Some(s) => s,
                    None => {
                        proof {
                            assert(false);
                        }
                        0
                    },
                };
                proof {
                    assert(self.loc_slot@[a as int] is Some);
                    lemma_run_push(self.prog@, RegOp::Load(r, s));
                }
                self.prog.push(RegOp::Load(r, s));
                self.reg_val.set(r as usize, Some(a));
                self.loc_reg.set(a, Some(r));
                r
            },
        }
    }
}

/// For each value, an op index at or after every op that reads it; the
/// result is read past the end.
fn compute_last_use(ops: &Vec<Op>) -> (r: Vec<usize>)
    requires
        ops_wf(ops@),
    ensures
        r@.len() == ops@.len(),
        forall|v: int, j: int|
            0 <= v < j < ops@.len() && reads(#[trigger] ops@[j], v) ==> #[trigger] r@[v] >= j,
        r@[ops@.len() - 1] == ops@.len(),
{
    let n = ops.len();
    let mut r: Vec<usize> = Vec::new();
    let mut j: usize = 0;
    while j < n
        invariant
            j <= n,
            n == ops@.len(),
            ops_wf(ops@),
            r@.len() == j,
            forall|v: int, k: int|
                0 <= v < k < j && reads(#[trigger] ops@[k], v) ==> #[trigger] r@[v] >= k,
            forall|v: int| 0 <= v < j ==> #[trigger] r@[v] < j,
        decreases n - j,
    {
        r.push(j);
        let op = ops[j];
        proof {
            assert(operands_before(ops@[j as int], j as int));
        }
        match op {
            Op::Unary(_, a) => {
                r.set(a, j);
            },
            Op::Binary(_, a, b) => {
                r.set(a, j);
                r.set(b, j);
            },
            Op::BinaryImm(_, a, _) => {
                r.set(a, j);
            },
            _ => {},
        }
        j = j + 1;
    }
    r.set(n - 1, n);
    r
}

/// The result of register allocation: a program over registers below the
/// limit it was made for, the register that holds the result once it has
/// run, and the number of stack slots it uses.
pub struct Allocation {
    pub prog: Vec<RegOp>,
    pub result_reg: u8,
    pub slot_count: usize,
}

/// Lowers SSA ops onto `reg_limit` physical registers.  Ops are walked
/// forward; an operand that is in no register is loaded from its slot; a
/// register whose value is read no more is freed; where none is free, the
/// one whose value is next read farthest ahead is spilled to a fresh slot.
pub fn allocate(ops: &Vec<Op>, reg_limit: u8) -> (r: Allocation)
    requires
        ops_wf(ops@),
        reg_limit >= 2,
    ensures
        prog_wf(r.prog@, reg_limit as int),
        prog_slots_below(r.prog@, r.slot_count as int),
        r.result_reg < reg_limit,
        prog_run(r.prog@).regs.contains_key(r.result_reg as int),
        prog_run(r.prog@).regs[r.result_reg as int] == term_of(ops@, ops@.len() - 1),
{
    let n = ops.len();
    let last_use = compute_last_use(ops);
    let ghost lu = last_use@;
    let ghost limit = reg_limit as int;
    let mut reg_val: Vec<Option<usize>> = Vec::new();
    let mut k: usize = 0;
    while k < reg_limit as usize
        invariant
            k <= reg_limit,
            reg_val@.len() == k,
            forall|r: int| 0 <= r < k ==> (#[trigger] reg_val@[r]) is None,
        decreases reg_limit - k,
    {
        reg_val.push(None);
        k = k + 1;
    }
    let mut loc_reg: Vec<Option<u8>> = Vec::new();
    let mut loc_slot: Vec<Option<usize>> = Vec::new();
    k = 0;
    while k < n
        invariant
            k <= n,
            loc_reg@.len() == k,
            loc_slot@.len() == k,
            forall|v: int| 0 <= v < k ==> (#[trigger] loc_reg@[v]) is None,
            forall|v: int| 0 <= v < k ==> (#[trigger] loc_slot@[v]) is None,
        decreases n - k,
    {
        loc_reg.push(None);
        loc_slot.push(None);
        k = k + 1;
    }
    let mut st = Alloc { reg_val, loc_reg, loc_slot, prog: Vec::new(), next_slot: 0 };
    assert(st.inv(ops@, limit, lu, 0, 0));
    let mut i: usize = 0;
    while i < n
        invariant
            i <= n,
            n == ops@.len(),
            ops_wf(ops@),
            limit == reg_limit as int,
            reg_limit >= 2,
            last_use@ == lu,
            forall|v: int, j: int|
                0 <= v < j < ops@.len() && reads(#[trigger] ops@[j], v) ==> #[trigger] lu[v] >= j,
            st.inv(ops@, limit, lu, i as int, i as int),
        decreases n - i,
    {
        let op = ops[i];
        proof {
            assert(operands_before(ops@[i as int], i as int));
        }
        // Operands into registers.
        let (ra, rb) = match op {
            Op::Unary(_, a) => {
                assert(reads(ops@[i as int], a as int));
                let ra = st.ensure_in_reg(ops, reg_limit, a, None, i, Ghost(lu), Ghost(i as int), Ghost(i as int));
                (ra, 0u8)
            },
            Op::BinaryImm(_, a, _) => {
                assert(reads(ops@[i as int], a as int));
                let ra = st.ensure_in_reg(ops, reg_limit, a, None, i, Ghost(lu), Ghost(i as int), Ghost(i as int));
                (ra, 0u8)
            },
            Op::Binary(_, a, b) => {
                assert(reads(ops@[i as int], a as int));
                assert(reads(ops@[i as int], b as int));
                let ra = st.ensure_in_reg(ops, reg_limit, a, None, i, Ghost(lu), Ghost(i as int), Ghost(i as int));
                if a == b {
                    (ra, ra)
                } else {
                    let rb = st.ensure_in_reg(ops, reg_limit, b, Some(ra), i, Ghost(lu), Ghost(i as int), Ghost(i as int));
                    (ra, rb)
                }
            },
            _ => (0u8, 0u8),
        };
        let ghost regs0 = prog_run(st.prog@).regs;
        // Free the registers of values that no later op reads.
        let mut r: usize = 0;
        while r < reg_limit as usize
            invariant
                r <= reg_limit,
                n == ops@.len(),
                i < n,
                limit == reg_limit as int,
                st.inv(ops@, limit, lu, i as int, i + 1),
                prog_run(st.prog@).regs == regs0,
                last_use@ == lu,
            decreases reg_limit - r,
        {
            match st.reg_val[r] {
                Some(v) => {
                    proof {
                        assert(st.reg_val@[r as int] is Some);
                    }
                    if last_use[v] <= i {
                        st.loc_reg.set(v, None);
                        st.reg_val.set(r, None);
                    }
                },
                None => {},
            }
            r = r + 1;
        }
        // A register for the result.
        let d = st.pick_reg(ops, reg_limit, None, i);
        st.evict(d, Ghost(ops@), Ghost(limit), Ghost(lu), Ghost(i as int), Ghost(i + 1));
        let emitted = match op {
            Op::Input(a) => RegOp::Input(d, a),
            Op::Var(v) => RegOp::Var(d, v),
            Op::Const(c) => RegOp::Const(d, c),
            Op::Unary(o, _) => RegOp::Unary(o, d, ra),
            Op::Binary(o, _, _) => RegOp::Binary(o, d, ra, rb),
            Op::BinaryImm(o, _, c) => RegOp::BinaryImm(o, d, ra, c),
        };
        proof {
            lemma_run_push(st.prog@, emitted);
        }
        st.prog.push(emitted);
        st.reg_val.set(d as usize, Some(i));
        st.loc_reg.set(i, Some(d));
        i = i + 1;
    }
    proof {
        assert(lu[n - 1] >= n);
    }
    let out = st.ensure_in_reg(ops, reg_limit, n - 1, None, n, Ghost(lu), Ghost(n as int), Ghost(n as int));
    proof {
        assert(st.reg_val@[out as int] is Some);
    }
    Allocation { prog: st.prog, result_reg: out, slot_count: st.next_slot }
}

/// The first op at or after `from` that reads `v`, or the tape's length.
fn next_use(ops: &Vec<Op>, v: usize, from: usize) -> (r: usize)
    ensures
        r == ops@.len() || (from <= r < ops@.len() && reads(ops@[r as int], v as int)),
        forall|j: int| from <= j < r ==> !reads(#[trigger] ops@[j], v as int),
{
    let mut j: usize = from;
    if j > ops.len() {
        return ops.len();
    }
    while j < ops.len()
        invariant
            from <= j <= ops@.len(),
            forall|k: int| from <= k < j ==> !reads(#[trigger] ops@[k], v as int),
        decreases ops.len() - j,
    {
        let hit = match ops[j] {
            Op::Unary(_, a) => a == v,
            Op::Binary(_, a, b) => a == v || b == v,
            Op::BinaryImm(_, a, _) => a == v,
            _ => false,
        };
        if hit {
            return j;
        }
        j = j + 1;
    }
    j
}

} // verus!
