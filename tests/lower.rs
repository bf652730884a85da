use fidget::lower::{build_tape, BuildError, Node};
use fidget::tape::{BinaryOpcode, Op, UnaryOpcode};

fn imm(v: f32) -> u32 {
    v.to_bits()
}

#[test]
fn build_tape_errors() {
    let dag = vec![Node::Input(0), Node::Var(0), Node::Binary(BinaryOpcode::Add, 0, 1)];
    assert_eq!(build_tape(&dag, 2, 1, 1).err(), Some(BuildError::RegisterLimit));
    assert_eq!(build_tape(&dag, 3, 1, 8).err(), Some(BuildError::BadRoot));
    assert_eq!(build_tape(&dag, 2, 0, 8).err(), Some(BuildError::UnknownVar));
    let cyclic = vec![Node::Unary(UnaryOpcode::Neg, 1), Node::Unary(UnaryOpcode::Neg, 0)];
    assert_eq!(build_tape(&cyclic, 1, 0, 8).err(), Some(BuildError::NotTopological));
    assert!(build_tape(&dag, 2, 1, 8).is_ok());
}

#[test]
fn build_tape_fuses_right_constants() {
    // x * 2
    let dag = vec![Node::Input(0), Node::Const(imm(2.0)), Node::Binary(BinaryOpcode::Mul, 0, 1)];
    let t = build_tape(&dag, 2, 0, 8).unwrap();
    assert_eq!(t.ops(), &vec![Op::Input(0), Op::BinaryImm(BinaryOpcode::Mul, 0, imm(2.0))]);
    assert_eq!(t.choice_count(), 0);
}

#[test]
fn build_tape_never_fuses_min_or_max() {
    // min(x, 2)
    let dag = vec![Node::Input(0), Node::Const(imm(2.0)), Node::Binary(BinaryOpcode::Min, 0, 1)];
    let t = build_tape(&dag, 2, 0, 8).unwrap();
    assert_eq!(
        t.ops(),
        &vec![Op::Input(0), Op::Const(imm(2.0)), Op::Binary(BinaryOpcode::Min, 0, 1)]
    );
    assert_eq!(t.choice_count(), 1);
}

#[test]
fn build_tape_drops_unreachable_nodes() {
    // sqrt(x^2 + y^2) - 1, with an unused z node in the middle
    let dag = vec![
        Node::Input(0),
        Node::Unary(UnaryOpcode::Square, 0),
        Node::Input(2),
        Node::Input(1),
        Node::Unary(UnaryOpcode::Square, 3),
        Node::Binary(BinaryOpcode::Add, 1, 4),
        Node::Unary(UnaryOpcode::Sqrt, 5),
        Node::Const(imm(1.0)),
        Node::Binary(BinaryOpcode::Sub, 6, 7),
        Node::Input(2),
    ];
    let t = build_tape(&dag, 8, 0, 8).unwrap();
    assert_eq!(
        t.ops(),
        &vec![
            Op::Input(0),
            Op::Unary(UnaryOpcode::Square, 0),
            Op::Input(1),
            Op::Unary(UnaryOpcode::Square, 2),
            Op::Binary(BinaryOpcode::Add, 1, 3),
            Op::Unary(UnaryOpcode::Sqrt, 4),
            Op::BinaryImm(BinaryOpcode::Sub, 5, imm(1.0)),
        ]
    );
}

#[test]
fn build_tape_left_constant_stays_an_op() {
    // 2 - x keeps the constant as an op: immediates go on the right only
    let dag = vec![Node::Const(imm(2.0)), Node::Input(0), Node::Binary(BinaryOpcode::Sub, 0, 1)];
    let t = build_tape(&dag, 2, 0, 8).unwrap();
    assert_eq!(
        t.ops(),
        &vec![Op::Const(imm(2.0)), Op::Input(0), Op::Binary(BinaryOpcode::Sub, 0, 1)]
    );
}
