//! Lowering an expression graph to a tape.
use vstd::prelude::*;
use crate::simplify::eval_term;
use crate::tape::{
    BinaryOpcode, Op, Tape, Term, UnaryOpcode, count_choices, is_choice_opcode,
    lemma_count_choices_push, lemma_term_of_extend, operands_before, ops_wf, term_of, vars_below,
};

verus! {

/// A node of an expression graph; children are named by node index.
#[derive(Copy, Clone, Debug, PartialEq, Eq, Structural)]
pub enum Node {
    Input(u8),
    Var(u32),
    Const(u32),
    Unary(UnaryOpcode, usize),
    Binary(BinaryOpcode, usize, usize),
}

/// Why a graph could not be lowered.
#[derive(Copy, Clone, Debug, PartialEq, Eq, Structural)]
pub enum BuildError {
    /// Fewer than two registers were allowed.
    RegisterLimit,
    /// The root is not a node of the graph.
    BadRoot,
    /// Some node has a child that is not below it, so the graph is not in
    /// topological order (a cycle shows up this way).
    NotTopological,
    /// Some node reads a variable at or above the variable count.
    UnknownVar,
}

/// Whether every child of `n` is below index `i`.
pub open spec fn children_before(n: Node, i: int) -> bool {
    match n {
        Node::Unary(_, a) => a < i,
        Node::Binary(_, a, b) => a < i && b < i,
        _ => true,
    }
}

pub open spec fn dag_ordered(dag: Seq<Node>) -> bool {
    forall|i: int| 0 <= i < dag.len() ==> children_before(#[trigger] dag[i], i)
}

pub open spec fn dag_vars_below(dag: Seq<Node>, n: nat) -> bool {
    forall|i: int| 0 <= i < dag.len() ==> match #[trigger] dag[i] {
        Node::Var(v) => v < n,
        _ => true,
    }
}

/// The term that node `i` denotes.
pub open spec fn dag_term(dag: Seq<Node>, i: int) -> Term
    decreases i,
{
    if i < 0 || i >= dag.len() {
        Term::Const(0)
    } else {
        match dag[i] {
            Node::Input(a) => Term::Input(a),
            Node::Var(v) => Term::Var(v),
            Node::Const(c) => Term::Const(c),
            Node::Unary(o, a) => if 0 <= a < i {
                Term::Unary(o, Box::new(dag_term(dag, a as int)))
            } else {
                Term::Const(0)
            },
            Node::Binary(o, a, b) => if 0 <= a < i && 0 <= b < i {
                Term::Binary(o, Box::new(dag_term(dag, a as int)), Box::new(dag_term(dag, b as int)))
            } else {
                Term::Const(0)
            },
        }
    }
}

/// Whether a binary node with opcode `o` and right child `rhs` takes its
/// right operand as an immediate: a constant, and not under `min` / `max`.
pub open spec fn fuses(dag: Seq<Node>, o: BinaryOpcode, rhs: int) -> bool {
    !is_choice_opcode(o) && dag[rhs] is Const
}

/// The term that node `i` denotes with right-hand constants taken as
/// immediates.
pub open spec fn fused_term(dag: Seq<Node>, i: int) -> Term
    decreases i,
{
    if i < 0 || i >= dag.len() {
        Term::Const(0)
    } else {
        match dag[i] {
            Node::Input(a) => Term::Input(a),
            Node::Var(v) => Term::Var(v),
            Node::Const(c) => Term::Const(c),
            Node::Unary(o, a) => if 0 <= a < i {
                Term::Unary(o, Box::new(fused_term(dag, a as int)))
            } else {
                Term::Const(0)
            },
            Node::Binary(o, a, b) => if 0 <= a < i && 0 <= b < i {
                if fuses(dag, o, b as int) {
                    Term::BinaryImm(o, Box::new(fused_term(dag, a as int)), dag[b as int]->Const_0)
                } else {
                    Term::Binary(
                        o,
                        Box::new(fused_term(dag, a as int)),
                        Box::new(fused_term(dag, b as int)),
                    )
                }
            } else {
                Term::Const(0)
            },
        }
    }
}

/// Fusing constants into immediates keeps the value of every node under
/// every valuation.
pub proof fn law_fusion_preserves_value<V>(
    dag: Seq<Node>,
    leaf: spec_fn(Term) -> V,
    unary: spec_fn(UnaryOpcode, V) -> V,
    binary: spec_fn(BinaryOpcode, V, V) -> V,
    i: int,
)
    requires
        0 <= i < dag.len(),
    ensures
        eval_term(fused_term(dag, i), leaf, unary, binary) == eval_term(
            dag_term(dag, i),
            leaf,
            unary,
            binary,
        ),
    decreases i,
{
    match dag[i] {
        Node::Unary(_, a) => if 0 <= a < i {
            law_fusion_preserves_value(dag, leaf, unary, binary, a as int);
        },
        Node::Binary(_, a, b) => if 0 <= a < i && 0 <= b < i {
            law_fusion_preserves_value(dag, leaf, unary, binary, a as int);
            law_fusion_preserves_value(dag, leaf, unary, binary, b as int);
        },
        _ => {},
    }
}

/// Whether node `k` is read by the lowering of a live node: as an
/// operand, not as a fused immediate.
pub open spec fn needs_ok(dag: Seq<Node>, live: Seq<bool>, k: int) -> bool {
    match dag[k] {
        Node::Unary(_, a) => live[a as int],
        Node::Binary(o, a, b) => live[a as int] && (fuses(dag, o, b as int) || live[b as int]),
        _ => true,
    }
}

/// Lowers the graph below `root` to a tape allocated onto `reg_limit`
/// registers.  Only nodes that the root reads are emitted, in index order;
/// a constant right operand of an op other than `min` / `max` becomes an
/// immediate.
pub fn build_tape(dag: &Vec<Node>, root: usize, var_count: usize, reg_limit: u8) -> (r: Result<
    Tape,
    BuildError,
>)
    ensures
        reg_limit < 2 ==> r == Err::<Tape, BuildError>(BuildError::RegisterLimit),
        reg_limit >= 2 && root >= dag@.len() ==> r == Err::<Tape, BuildError>(BuildError::BadRoot),
        reg_limit >= 2 && root < dag@.len() && !dag_ordered(dag@) ==> r == Err::<Tape, BuildError>(
            BuildError::NotTopological,
        ),
        reg_limit >= 2 && root < dag@.len() && dag_ordered(dag@) && !dag_vars_below(
            dag@,
            var_count as nat,
        ) ==> r == Err::<Tape, BuildError>(BuildError::UnknownVar),
        r is Ok <==> reg_limit >= 2 && root < dag@.len() && dag_ordered(dag@) && dag_vars_below(
            dag@,
            var_count as nat,
        ),
        r matches Ok(t) ==> {
            &&& t.wf()
            &&& t.spec_var_count() == var_count
            &&& t.spec_reg_limit() == reg_limit
            &&& t.spec_ops().len() <= root + 1
            &&& term_of(t.spec_ops(), t.spec_ops().len() - 1) == fused_term(dag@, root as int)
        },
{
    if reg_limit < 2 {
        return Err(BuildError::RegisterLimit);
    }
    let n = dag.len();
    if root >= n {
        return Err(BuildError::BadRoot);
    }
    let mut i: usize = 0;
    while i < n
        invariant
            i <= n,
            n == dag@.len(),
            reg_limit >= 2,
            root < n,
            forall|k: int| 0 <= k < i ==> children_before(#[trigger] dag@[k], k),
        decreases n - i,
    {
        let ok = match dag[i] {
            Node::Unary(_, a) => a < i,
            Node::Binary(_, a, b) => a < i && b < i,
            _ => true,
        };
        if !ok {
            assert(!children_before(dag@[i as int], i as int));
            return Err(BuildError::NotTopological);
        }
        i = i + 1;
    }
    i = 0;
    while i < n
        invariant
            i <= n,
            n == dag@.len(),
            reg_limit >= 2,
            root < n,
            dag_ordered(dag@),
            forall|k: int|
                0 <= k < i ==> match #[trigger] dag@[k] {
                    Node::Var(v) => v < var_count,
                    _ => true,
                },
        decreases n - i,
    {
        if let Node::Var(v) = dag[i] {
            if v as usize >= var_count {
                assert(!dag_vars_below(dag@, var_count as nat)) by {
                    assert(dag@[i as int] == Node::Var(v));
                }
                return Err(BuildError::UnknownVar);
            }
        }
        i = i + 1;
    }
    let ghost d = dag@;

    // Nodes that the root reads, walking down from it.
    let mut live: Vec<bool> = Vec::new();
    i = 0;
    while i < n
        invariant
            i <= n,
            live@.len() == i,
            forall|k: int| 0 <= k < i ==> !live@[k],
        decreases n - i,
    {
        live.push(false);
        i = i + 1;
    }
    live.set(root, true);
    i = root + 1;
    while i > 0
        invariant
            i <= root + 1,
            root < n,
            n == d.len(),
            dag@ == d,
            dag_ordered(d),
            live@.len() == n,
            live@[root as int],
            forall|k: int| i <= k < n && #[trigger] live@[k] ==> needs_ok(d, live@, k),
        decreases i,
    {
        i = i - 1;
        if live[i] {
            let ghost live0 = live@;
            proof {
                assert(children_before(d[i as int], i as int));
            }
            match dag[i] {
                Node::Unary(_, a) => {
                    live.set(a, true);
                },
                Node::Binary(o, a, b) => {
                    live.set(a, true);
                    let fused = !matches!(o, BinaryOpcode::Min | BinaryOpcode::Max)
                        && matches!(dag[b], Node::Const(_));
                    if !fused {
                        live.set(b, true);
                    }
                },
                _ => {},
            }
            assert forall|k: int| i <= k < n && #[trigger] live@[k] implies needs_ok(
                d,
                live@,
                k,
            ) by {
                if k > i {
                    assert(live0[k]);
                    assert(needs_ok(d, live0, k));
                }
            }
        }
    }

    // Live nodes in index order.
    let mut ops: Vec<Op> = Vec::new();
    let mut remap: Vec<usize> = Vec::new();
    let mut count: usize = 0;
    let mut j: usize = 0;
    while j <= root
        invariant
            j <= root + 1,
            root < n,
            n == d.len(),
            dag@ == d,
            dag_ordered(d),
            dag_vars_below(d, var_count as nat),
            live@.len() == n,
            live@[root as int],
            forall|k: int| 0 <= k < n && #[trigger] live@[k] ==> needs_ok(d, live@, k),
            remap@.len() == j,
            forall|k: int| 0 <= k < ops@.len() ==> operands_before(#[trigger] ops@[k], k),
            vars_below(ops@, var_count as nat),
            ops@.len() <= j,
            count == count_choices(ops@),
            forall|k: int|
                0 <= k < j && #[trigger] live@[k] ==> remap@[k] < ops@.len() && term_of(
                    ops@,
                    remap@[k] as int,
                ) == fused_term(d, k),
            j > root ==> ops@.len() > 0 && remap@[root as int] == ops@.len() - 1,
        decreases root + 1 - j,
    {
        if live[j] {
            let ghost before = ops@;
            proof {
                assert(children_before(d[j as int], j as int));
                assert(needs_ok(d, live@, j as int));
            }
            let op = match dag[j] {
                Node::Input(a) => Op::Input(a),
                Node::Var(v) => Op::Var(v),
                Node::Const(c) => Op::Const(c),
                Node::Unary(o, a) => Op::Unary(o, remap[a]),
                Node::Binary(o, a, b) => {
                    let choice = matches!(o, BinaryOpcode::Min | BinaryOpcode::Max);
                    match dag[b] {
                        Node::Const(c) => if choice {
                            Op::Binary(o, remap[a], remap[b])
                        } else {
                            Op::BinaryImm(o, remap[a], c)
                        },
                        _ => Op::Binary(o, remap[a], remap[b]),
                    }
                },
            };
            let is_choice = matches!(
                op,
                Op::Binary(BinaryOpcode::Min, _, _) | Op::Binary(BinaryOpcode::Max, _, _)
            );
            remap.push(ops.len());
            ops.push(op);
            proof {
                lemma_count_choices_push(before, op);
                crate::tape::lemma_count_choices_bounded(before);
                assert forall|k: int| 0 <= k < j && #[trigger] live@[k] implies term_of(
                    ops@,
                    remap@[k] as int,
                ) == fused_term(d, k) by {
                    lemma_term_of_extend(before, ops@, remap@[k] as int);
                }
                match d[j as int] {
                    Node::Unary(_, a) => {
                        lemma_term_of_extend(before, ops@, remap@[a as int] as int);
                    },
                    Node::Binary(o, a, b) => {
                        lemma_term_of_extend(before, ops@, remap@[a as int] as int);
                        if !fuses(d, o, b as int) {
                            lemma_term_of_extend(before, ops@, remap@[b as int] as int);
                        }
                    },
                    _ => {},
                }
            }
            if is_choice {
                count = count + 1;
            }
        } else {
            remap.push(0);
        }
        j = j + 1;
    }
    Ok(Tape::from_parts(ops, count, var_count, reg_limit))
}

} // verus!
