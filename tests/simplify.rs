use fidget::choice::Choice;
use fidget::eval::{IntervalEval, IntervalFunc, IntervalFuncT};
use fidget::regalloc::{allocate, RegOp};
use fidget::simplify::simplify_tape;
use fidget::tape::{BinaryOpcode, Op, Tape, UnaryOpcode};

fn imm(v: f32) -> u32 {
    v.to_bits()
}

fn unary(o: UnaryOpcode, a: f32) -> f32 {
    match o {
        UnaryOpcode::Neg => -a,
        UnaryOpcode::Abs => a.abs(),
        UnaryOpcode::Recip => 1.0 / a,
        UnaryOpcode::Sqrt => a.sqrt(),
        UnaryOpcode::Square => a * a,
        UnaryOpcode::Copy => a,
    }
}

fn binary(o: BinaryOpcode, a: f32, b: f32) -> f32 {
    match o {
        BinaryOpcode::Add => a + b,
        BinaryOpcode::Sub => a - b,
        BinaryOpcode::Mul => a * b,
        BinaryOpcode::Div => a / b,
        BinaryOpcode::Min => a.min(b),
        BinaryOpcode::Max => a.max(b),
    }
}

/// Reference interpreter over the SSA ops.
fn eval_ssa(ops: &[Op], xyz: [f32; 3], vars: &[f32]) -> f32 {
    let mut v: Vec<f32> = Vec::new();
    for op in ops {
        let r = match *op {
            Op::Input(a) => xyz[a as usize],
            Op::Var(i) => vars[i as usize],
            Op::Const(c) => f32::from_bits(c),
            Op::Unary(o, a) => unary(o, v[a]),
            Op::Binary(o, a, b) => binary(o, v[a], v[b]),
            Op::BinaryImm(o, a, c) => binary(o, v[a], f32::from_bits(c)),
        };
        v.push(r);
    }
    *v.last().unwrap()
}

/// Interpreter over the register program.
fn eval_regs(tape: &Tape, xyz: [f32; 3], vars: &[f32]) -> f32 {
    let mut regs = vec![f32::NAN; tape.reg_limit() as usize];
    let mut slots = vec![f32::NAN; tape.slot_count()];
    for op in tape.prog() {
        match *op {
            RegOp::Input(d, a) => regs[d as usize] = xyz[a as usize],
            RegOp::Var(d, i) => regs[d as usize] = vars[i as usize],
            RegOp::Const(d, c) => regs[d as usize] = f32::from_bits(c),
            RegOp::Unary(o, d, s) => regs[d as usize] = unary(o, regs[s as usize]),
            RegOp::Binary(o, d, a, b) => {
                regs[d as usize] = binary(o, regs[a as usize], regs[b as usize])
            }
            RegOp::BinaryImm(o, d, a, c) => {
                regs[d as usize] = binary(o, regs[a as usize], f32::from_bits(c))
            }
            RegOp::Load(d, s) => regs[d as usize] = slots[s],
            RegOp::Store(s, r) => slots[s] = regs[r as usize],
        }
    }
    regs[tape.result_reg() as usize]
}

struct NoEval;

impl IntervalFuncT for NoEval {
    type Evaluator = ();
    fn get_evaluator(&self) {}
}

fn evaluator(tape: &Tape) -> IntervalEval<'_, ()> {
    IntervalFunc::new(tape, NoEval).get_evaluator()
}

#[test]
fn choice_bits_and_merge() {
    assert_eq!(Choice::Unknown.bits(), 0);
    assert_eq!(Choice::Left.bits(), 1);
    assert_eq!(Choice::Right.bits(), 2);
    assert_eq!(Choice::Both.bits(), 3);
    assert_eq!(Choice::Left.merge(Choice::Right), Choice::Both);
    assert_eq!(Choice::Unknown.merge(Choice::Left), Choice::Left);
    assert_eq!(Choice::Right.merge(Choice::Right), Choice::Right);
    assert_eq!(Choice::from_bits(6), Choice::Right);
}

#[test]
fn min_of_overlapping_intervals_is_both() {
    // [0, 1] against [0.5, 1.5]
    let (a, b, c, d) = (0.0f32, 1.0f32, 0.5f32, 1.5f32);
    assert_eq!(Choice::of_min(b < c, d < a), Choice::Both);
    assert_eq!(Choice::of_max(a > d, c > b), Choice::Both);
}

#[test]
fn choice_rules_for_disjoint_intervals() {
    assert_eq!(Choice::of_min(true, false), Choice::Left);
    assert_eq!(Choice::of_min(false, true), Choice::Right);
    assert_eq!(Choice::of_max(true, false), Choice::Left);
    assert_eq!(Choice::of_max(false, true), Choice::Right);
    assert_eq!(Choice::of_max(false, false), Choice::Both);
}

#[test]
fn tape_new_rejects_malformed() {
    assert!(Tape::new(vec![], 0, 8).is_none());
    assert!(Tape::new(vec![Op::Unary(UnaryOpcode::Neg, 0)], 0, 8).is_none());
    assert!(Tape::new(vec![Op::Input(0), Op::BinaryImm(BinaryOpcode::Min, 0, imm(1.0))], 0, 8).is_none());
    assert!(Tape::new(vec![Op::Var(1)], 1, 8).is_none());
    assert!(Tape::new(vec![Op::Input(0)], 0, 1).is_none());
    let t = Tape::new(vec![Op::Var(0), Op::Input(1), Op::Binary(BinaryOpcode::Min, 0, 1)], 1, 8).unwrap();
    assert_eq!(t.len(), 3);
    assert_eq!(t.choice_count(), 1);
    assert_eq!(t.var_count(), 1);
    assert_eq!(t.reg_limit(), 8);
}

#[test]
fn circle_has_no_choices_and_simplifies_to_itself() {
    // sqrt(x^2 + y^2) - 1
    let ops = vec![
        Op::Input(0),
        Op::Unary(UnaryOpcode::Square, 0),
        Op::Input(1),
        Op::Unary(UnaryOpcode::Square, 2),
        Op::Binary(BinaryOpcode::Add, 1, 3),
        Op::Unary(UnaryOpcode::Sqrt, 4),
        Op::BinaryImm(BinaryOpcode::Sub, 5, imm(1.0)),
    ];
    let tape = Tape::new(ops.clone(), 0, 8).unwrap();
    assert_eq!(tape.choice_count(), 0);
    let e = evaluator(&tape);
    assert!(e.choices().is_empty());
    let s = e.simplify(8);
    assert_eq!(s.ops(), &ops);
    assert_eq!(eval_regs(&s, [0.6, 0.8, 0.0], &[]), 0.0);
}

#[test]
fn min_with_left_choice_simplifies_to_x() {
    let tape = Tape::new(vec![Op::Input(0), Op::Input(1), Op::Binary(BinaryOpcode::Min, 0, 1)], 0, 8).unwrap();
    // X = [0, 1], Y = [2, 3]
    let c = Choice::of_min(1.0f32 < 2.0, 3.0f32 < 0.0);
    assert_eq!(c, Choice::Left);
    let s = simplify_tape(&tape, &vec![c], 8);
    assert_eq!(s.ops(), &vec![Op::Input(0)]);
    assert_eq!(s.choice_count(), 0);
    assert_eq!(eval_regs(&s, [0.5, 2.5, 0.0], &[]), 0.5);
}

#[test]
fn max_with_right_choice_simplifies_to_y() {
    let tape = Tape::new(
        vec![
            Op::Input(0),
            Op::BinaryImm(BinaryOpcode::Sub, 0, imm(1.0)),
            Op::Input(1),
            Op::Binary(BinaryOpcode::Max, 1, 2),
        ],
        0,
        8,
    )
    .unwrap();
    // x - 1 = [-1, -0.5], Y = [0.6, 1.0]
    let c = Choice::of_max(-1.0f32 > 1.0, 0.6f32 > -0.5);
    assert_eq!(c, Choice::Right);
    let s = simplify_tape(&tape, &vec![c], 8);
    assert_eq!(s.ops(), &vec![Op::Input(1)]);
    assert_eq!(s.choice_count(), 0);
}

#[test]
fn nested_choice_prunes_inner_max() {
    // min(a, max(b, c)) with a = [0, 1], b = c = [5, 6]
    let tape = Tape::new(
        vec![
            Op::Input(0),
            Op::Input(1),
            Op::Input(2),
            Op::Binary(BinaryOpcode::Max, 1, 2),
            Op::Binary(BinaryOpcode::Min, 0, 3),
        ],
        0,
        8,
    )
    .unwrap();
    assert_eq!(tape.choice_count(), 2);
    let inner = Choice::of_max(5.0f32 > 6.0, 5.0f32 > 6.0);
    let outer = Choice::of_min(1.0f32 < 5.0, 6.0f32 < 0.0);
    assert_eq!(inner, Choice::Both);
    assert_eq!(outer, Choice::Left);
    let s = simplify_tape(&tape, &vec![inner, outer], 8);
    assert_eq!(s.ops(), &vec![Op::Input(0)]);
    assert_eq!(s.choice_count(), 0);
}

#[test]
fn undecided_choices_keep_min() {
    let tape = Tape::new(vec![Op::Input(0), Op::Input(1), Op::Binary(BinaryOpcode::Min, 0, 1)], 0, 8).unwrap();
    let s = simplify_tape(&tape, &vec![Choice::Both], 8);
    assert_eq!(s.ops(), tape.ops());
    assert_eq!(s.choice_count(), 1);
    let s2 = simplify_tape(&s, &vec![Choice::Both], 8);
    assert_eq!(s2.ops(), s.ops());
}

#[test]
fn pruning_keeps_the_value_inside_the_region() {
    // max(min(x, 2), y - 3) on x in [0, 1], y in [0, 1]: min -> Left, max -> Left
    let ops = vec![
        Op::Input(0),
        Op::Const(imm(2.0)),
        Op::Binary(BinaryOpcode::Min, 0, 1),
        Op::Input(1),
        Op::BinaryImm(BinaryOpcode::Sub, 3, imm(3.0)),
        Op::Binary(BinaryOpcode::Max, 2, 4),
    ];
    let tape = Tape::new(ops.clone(), 0, 4).unwrap();
    let s = simplify_tape(&tape, &vec![Choice::Left, Choice::Left], 4);
    assert_eq!(s.ops(), &vec![Op::Input(0)]);
    assert!(s.choice_count() < tape.choice_count());
    for p in [[0.0f32, 0.0, 0.0], [0.25, 0.5, 0.0], [1.0, 1.0, 0.0]] {
        assert_eq!(eval_ssa(&ops, p, &[]), eval_regs(&s, p, &[]));
        assert_eq!(eval_regs(&tape, p, &[]), eval_regs(&s, p, &[]));
    }
}

#[test]
fn constant_result_after_pruning() {
    // min(5, x) with x in [10, 11]: Left, so the tape is the constant alone
    let tape = Tape::new(vec![Op::Const(imm(5.0)), Op::Input(0), Op::Binary(BinaryOpcode::Min, 0, 1)], 0, 8).unwrap();
    let s = simplify_tape(&tape, &vec![Choice::Left], 8);
    assert_eq!(s.ops(), &vec![Op::Const(imm(5.0))]);
    assert_eq!(eval_regs(&s, [10.5, 0.0, 0.0], &[]), 5.0);
}

#[test]
fn deep_sum_spills_under_eight_registers() {
    // ((x + 1) + ...) built so that 40 partial sums stay live at once
    let mut ops = vec![Op::Input(0)];
    let mut terms = Vec::new();
    for k in 0..40u32 {
        ops.push(Op::BinaryImm(BinaryOpcode::Add, 0, imm(k as f32)));
        terms.push(ops.len() - 1);
    }
    let mut acc = terms[0];
    for &t in &terms[1..] {
        ops.push(Op::Binary(BinaryOpcode::Add, acc, t));
        acc = ops.len() - 1;
    }
    let tape = Tape::new(ops.clone(), 0, 8).unwrap();
    assert!(tape.slot_count() > 0);
    for op in tape.prog() {
        if let RegOp::Binary(_, d, a, b) = *op {
            assert!(d < 8 && a < 8 && b < 8);
        }
    }
    let expected = 40.0 * 3.0 + (0..40).sum::<i32>() as f32;
    assert_eq!(eval_ssa(&ops, [3.0, 0.0, 0.0], &[]), expected);
    assert_eq!(eval_regs(&tape, [3.0, 0.0, 0.0], &[]), expected);
}

#[test]
fn allocation_without_spills_when_registers_suffice() {
    let ops = vec![Op::Input(0), Op::Var(0), Op::Binary(BinaryOpcode::Mul, 0, 1)];
    let a = allocate(&ops, 8);
    assert_eq!(a.slot_count, 0);
    assert_eq!(a.prog.len(), 3);
    assert!(a.result_reg < 8);
    let tape = Tape::new(ops, 1, 2).unwrap();
    assert_eq!(eval_regs(&tape, [3.0, 0.0, 0.0], &[2.5]), 7.5);
}

#[test]
fn evaluator_trail_reset_and_merge() {
    let tape = Tape::new(
        vec![
            Op::Input(0),
            Op::Input(1),
            Op::Binary(BinaryOpcode::Min, 0, 1),
            Op::Binary(BinaryOpcode::Max, 0, 2),
        ],
        0,
        8,
    )
    .unwrap();
    let func = IntervalFunc::new(&tape, NoEval);
    assert_eq!(func.tape().len(), 4);
    let mut e = func.get_evaluator();
    assert_eq!(e.choices(), &vec![Choice::Unknown, Choice::Unknown]);
    assert!(!e.simplify_requested());
    e.merge_choices(&vec![Choice::Left, Choice::Both]);
    e.merge_choices(&vec![Choice::Right, Choice::Unknown]);
    assert_eq!(e.choices(), &vec![Choice::Both, Choice::Both]);
    assert!(e.simplify_requested());
    e.reset_choices();
    assert_eq!(e.choices(), &vec![Choice::Unknown, Choice::Unknown]);
    assert!(!e.simplify_requested());
    e.merge_choices(&vec![Choice::Both, Choice::Both]);
    assert!(!e.simplify_requested());
    e.reset_choices();
    e.merge_choices(&vec![Choice::Left, Choice::Both]);
    assert!(e.simplify_requested());
    // min(x, y) -> x, so max(x, min(x, y)) reads x twice and becomes x
    let s = e.simplify(8);
    assert_eq!(s.choice_count(), 0);
    assert_eq!(s.ops(), &vec![Op::Input(0)]);
}

#[test]
fn min_of_one_value_twice_collapses() {
    // max(y, min(x, x)) with both choices undecided
    let tape = Tape::new(
        vec![
            Op::Input(0),
            Op::Input(1),
            Op::Binary(BinaryOpcode::Min, 0, 0),
            Op::Binary(BinaryOpcode::Max, 1, 2),
        ],
        0,
        8,
    )
    .unwrap();
    let s = simplify_tape(&tape, &vec![Choice::Both, Choice::Both], 8);
    assert_eq!(
        s.ops(),
        &vec![Op::Input(0), Op::Input(1), Op::Binary(BinaryOpcode::Max, 1, 0)]
    );
    assert_eq!(s.choice_count(), 1);
    assert_eq!(eval_regs(&s, [2.0, 1.0, 0.0], &[]), 2.0);
}

#[test]
fn result_aliasing_an_earlier_op_drops_later_ops() {
    // min(x + 1, y * 2) with Left: y * 2 is never emitted
    let tape = Tape::new(
        vec![
            Op::Input(0),
            Op::BinaryImm(BinaryOpcode::Add, 0, imm(1.0)),
            Op::Input(1),
            Op::BinaryImm(BinaryOpcode::Mul, 2, imm(2.0)),
            Op::Binary(BinaryOpcode::Min, 1, 3),
        ],
        0,
        8,
    )
    .unwrap();
    let s = simplify_tape(&tape, &vec![Choice::Left], 8);
    assert_eq!(
        s.ops(),
        &vec![Op::Input(0), Op::BinaryImm(BinaryOpcode::Add, 0, imm(1.0))]
    );
    assert_eq!(eval_regs(&s, [1.5, 9.0, 0.0], &[]), 2.5);
}

#[test]
fn copy_chains_collapse() {
    // -(copy(copy(x)))
    let tape = Tape::new(
        vec![
            Op::Input(0),
            Op::Unary(UnaryOpcode::Copy, 0),
            Op::Unary(UnaryOpcode::Copy, 1),
            Op::Unary(UnaryOpcode::Neg, 2),
        ],
        0,
        8,
    )
    .unwrap();
    let s = simplify_tape(&tape, &vec![], 8);
    assert_eq!(s.ops(), &vec![Op::Input(0), Op::Unary(UnaryOpcode::Neg, 0)]);
    assert_eq!(eval_regs(&s, [4.0, 0.0, 0.0], &[]), -4.0);
}

#[test]
fn simplifying_again_with_undecided_trail_changes_nothing() {
    // min(max(x, y), z + 1) with max -> Both, min -> Both, then again
    let tape = Tape::new(
        vec![
            Op::Input(0),
            Op::Input(1),
            Op::Binary(BinaryOpcode::Max, 0, 1),
            Op::Input(2),
            Op::BinaryImm(BinaryOpcode::Add, 3, imm(1.0)),
            Op::Binary(BinaryOpcode::Min, 2, 4),
            Op::Unary(UnaryOpcode::Copy, 5),
        ],
        0,
        8,
    )
    .unwrap();
    let once = simplify_tape(&tape, &vec![Choice::Both, Choice::Both], 8);
    assert_eq!(once.len(), 6);
    let twice = simplify_tape(&once, &vec![Choice::Both, Choice::Both], 8);
    assert_eq!(twice.ops(), once.ops());
    assert_eq!(twice.choice_count(), once.choice_count());
}
