//! The flat logic buffer the gates hand out: formula nodes in one vector, children
//! before parents, names spelled out. Biconditional and exclusive-or are written with
//! `and`, `or` and `not`.

use vstd::prelude::*;
use crate::form::{LogicalForm, Term};
use crate::interner::{interned, rodeo_len, rodeo_resolve};
use lasso::Rodeo;

verus! {

/// A term of a flat formula, names spelled out.
#[derive(Debug)]
pub enum LogicalTerm {
    Variable(String),
    Constant(String),
    Number(u32),
    Unspecified,
}

/// A node of a flat formula. Children are indices of earlier nodes.
#[derive(Debug)]
pub enum LogicNode {
    Predicate((String, Vec<LogicalTerm>)),
    AndNode((u32, u32)),
    OrNode((u32, u32)),
    NotNode(u32),
    ExistsNode((String, u32)),
    ForAllNode((String, u32)),
    /// Exactly `count` values of the variable satisfy the body.
    CountNode((String, u32, u32)),
    PastNode(u32),
    PresentNode(u32),
    FutureNode(u32),
    ObligatoryNode(u32),
    PermittedNode(u32),
}

/// A set of flat formulas: the nodes, and the node of each formula's root.
#[derive(Debug)]
pub struct LogicBuffer {
    pub nodes: Vec<LogicNode>,
    pub roots: Vec<u32>,
}

/// The kind of a flat node, without its names.
pub enum NodeShape {
    Predicate(nat),
    And(u32, u32),
    Or(u32, u32),
    Not(u32),
    Exists(u32),
    ForAll(u32),
    Count(u32, u32),
    Past(u32),
    Present(u32),
    Future(u32),
    Obligatory(u32),
    Permitted(u32),
}

/// The shape of a node: its kind, its children and, for a predicate, its arity.
pub open spec fn shape(n: LogicNode) -> NodeShape {
    match n {
        LogicNode::Predicate((_, args)) => NodeShape::Predicate(args@.len()),
        LogicNode::AndNode((l, r)) => NodeShape::And(l, r),
        LogicNode::OrNode((l, r)) => NodeShape::Or(l, r),
        LogicNode::NotNode(b) => NodeShape::Not(b),
        LogicNode::ExistsNode((_, b)) => NodeShape::Exists(b),
        LogicNode::ForAllNode((_, b)) => NodeShape::ForAll(b),
        LogicNode::CountNode((_, c, b)) => NodeShape::Count(c, b),
        LogicNode::PastNode(b) => NodeShape::Past(b),
        LogicNode::PresentNode(b) => NodeShape::Present(b),
        LogicNode::FutureNode(b) => NodeShape::Future(b),
        LogicNode::ObligatoryNode(b) => NodeShape::Obligatory(b),
        LogicNode::PermittedNode(b) => NodeShape::Permitted(b),
    }
}

/// A flat term spells term `t`: a variable or constant by the name its key has in
/// `names`, a number as itself.
pub open spec fn term_spelled(lt: LogicalTerm, t: Term, names: Seq<Seq<char>>) -> bool {
    match (lt, t) {
        (LogicalTerm::Variable(s), Term::Variable(k)) => k < names.len() && s@ == names[k as int],
        (LogicalTerm::Constant(s), Term::Constant(k)) => k < names.len() && s@ == names[k as int],
        (LogicalTerm::Number(a), Term::Number(b)) => a == b,
        (LogicalTerm::Unspecified, Term::Unspecified) => true,
        _ => false,
    }
}

/// The names a node spells for the top of formula `f`: a predicate's relation and
/// arguments, a quantifier's variable.
pub open spec fn names_spelled(node: LogicNode, f: LogicalForm, names: Seq<Seq<char>>) -> bool {
    match f {
        LogicalForm::Predicate { relation, args } => match node {
            LogicNode::Predicate((n, a)) => {
                &&& relation < names.len()
                &&& n@ == names[relation as int]
                &&& a@.len() == args@.len()
                &&& forall|i: int| 0 <= i < a@.len() ==> #[trigger] term_spelled(a@[i], args@[i], names)
            },
            _ => false,
        },
        LogicalForm::Exists(v, _) => match node {
            LogicNode::ExistsNode((n, _)) => v < names.len() && n@ == names[v as int],
            _ => false,
        },
        LogicalForm::ForAll(v, _) => match node {
            LogicNode::ForAllNode((n, _)) => v < names.len() && n@ == names[v as int],
            _ => false,
        },
        LogicalForm::Count { var, .. } => match node {
            LogicNode::CountNode((n, _, _)) => var < names.len() && n@ == names[var as int],
            _ => false,
        },
        _ => true,
    }
}

/// The node at `id` and the nodes below it spell formula `f`, names read through
/// `names`, with biconditional and exclusive-or in their `and`/`or`/`not` spelling.
pub open spec fn flat_shape(nodes: Seq<LogicNode>, names: Seq<Seq<char>>, id: int, f: LogicalForm) -> bool
    decreases f,
{
    0 <= id < nodes.len() && names_spelled(nodes[id], f, names) && match f {
        LogicalForm::Predicate { relation, args } => shape(nodes[id]) == NodeShape::Predicate(
            args@.len(),
        ),
        LogicalForm::And(a, b) => match shape(nodes[id]) {
            NodeShape::And(l, r) => l < id && r < id && flat_shape(nodes, names, l as int, *a)
                && flat_shape(nodes, names, r as int, *b),
            _ => false,
        },
        LogicalForm::Or(a, b) => match shape(nodes[id]) {
            NodeShape::Or(l, r) => l < id && r < id && flat_shape(nodes, names, l as int, *a)
                && flat_shape(nodes, names, r as int, *b),
            _ => false,
        },
        LogicalForm::Not(a) => match shape(nodes[id]) {
            NodeShape::Not(b) => b < id && flat_shape(nodes, names, b as int, *a),
            _ => false,
        },
        LogicalForm::Exists(_, a) => match shape(nodes[id]) {
            NodeShape::Exists(b) => b < id && flat_shape(nodes, names, b as int, *a),
            _ => false,
        },
        LogicalForm::ForAll(_, a) => match shape(nodes[id]) {
            NodeShape::ForAll(b) => b < id && flat_shape(nodes, names, b as int, *a),
            _ => false,
        },
        LogicalForm::Count { count, body, .. } => match shape(nodes[id]) {
            NodeShape::Count(c, b) => c == count && b < id && flat_shape(nodes, names, b as int, *body),
            _ => false,
        },
        LogicalForm::Past(a) => match shape(nodes[id]) {
            NodeShape::Past(b) => b < id && flat_shape(nodes, names, b as int, *a),
            _ => false,
        },
        LogicalForm::Present(a) => match shape(nodes[id]) {
            NodeShape::Present(b) => b < id && flat_shape(nodes, names, b as int, *a),
            _ => false,
        },
        LogicalForm::Future(a) => match shape(nodes[id]) {
            NodeShape::Future(b) => b < id && flat_shape(nodes, names, b as int, *a),
            _ => false,
        },
        LogicalForm::Obligatory(a) => match shape(nodes[id]) {
            NodeShape::Obligatory(b) => b < id && flat_shape(nodes, names, b as int, *a),
            _ => false,
        },
        LogicalForm::Permitted(a) => match shape(nodes[id]) {
            NodeShape::Permitted(b) => b < id && flat_shape(nodes, names, b as int, *a),
            _ => false,
        },
        // (a ∨ ¬b)-free spelling: (¬a ∨ b) ∧ (a ∨ ¬b).
        LogicalForm::Biconditional(a, b) => match shape(nodes[id]) {
            NodeShape::And(l, r) => l < id && r < id && match (shape(nodes[l as int]), shape(
                nodes[r as int],
            )) {
                (NodeShape::Or(x, y), NodeShape::Or(u, w)) => x < l && y < l && u < r && w < r
                    && match (shape(nodes[x as int]), shape(nodes[w as int])) {
                    (NodeShape::Not(na), NodeShape::Not(nb)) => na < x && nb < w && flat_shape(nodes, names, na as int, *a,
                    ) && flat_shape(nodes, names, y as int, *b) && flat_shape(nodes, names, u as int, *a)
                        && flat_shape(nodes, names, nb as int, *b),
                    _ => false,
                },
                _ => false,
            },
            _ => false,
        },
        // (a ∨ b) ∧ ¬(a ∧ b).
        LogicalForm::Xor(a, b) => match shape(nodes[id]) {
            NodeShape::And(l, r) => l < id && r < id && match (shape(nodes[l as int]), shape(
                nodes[r as int],
            )) {
                (NodeShape::Or(x, y), NodeShape::Not(n)) => x < l && y < l && n < r && match shape(
                    nodes[n as int],
                ) {
                    NodeShape::And(u, w) => u < n && w < n && flat_shape(nodes, names, x as int, *a)
                        && flat_shape(nodes, names, y as int, *b) && flat_shape(nodes, names, u as int, *a)
                        && flat_shape(nodes, names, w as int, *b),
                    _ => false,
                },
                _ => false,
            },
            _ => false,
        },
    }
}

/// A flat shape only looks at its own node and earlier ones, so appending nodes keeps it.
pub proof fn lemma_flat_shape_extend(
    nodes: Seq<LogicNode>,
    more: Seq<LogicNode>,
    names: Seq<Seq<char>>,
    id: int,
    f: LogicalForm,
)
    requires
        flat_shape(nodes, names, id, f),
        nodes.len() <= more.len(),
        forall|i: int| 0 <= i < nodes.len() ==> #[trigger] more[i] == nodes[i],
    ensures
        flat_shape(more, names, id, f),
    decreases f,
{
    match f {
        LogicalForm::Predicate { .. } => {},
        LogicalForm::And(a, b) => {
            if let NodeShape::And(l, r) = shape(nodes[id]) {
                lemma_flat_shape_extend(nodes, more, names, l as int, *a);
                lemma_flat_shape_extend(nodes, more, names, r as int, *b);
            }
        },
        LogicalForm::Or(a, b) => {
            if let NodeShape::Or(l, r) = shape(nodes[id]) {
                lemma_flat_shape_extend(nodes, more, names, l as int, *a);
                lemma_flat_shape_extend(nodes, more, names, r as int, *b);
            }
        },
        LogicalForm::Not(a) => {
            if let NodeShape::Not(c) = shape(nodes[id]) {
                lemma_flat_shape_extend(nodes, more, names, c as int, *a);
            }
        },
        LogicalForm::Exists(_, a) => {
            if let NodeShape::Exists(c) = shape(nodes[id]) {
                lemma_flat_shape_extend(nodes, more, names, c as int, *a);
            }
        },
        LogicalForm::ForAll(_, a) => {
            if let NodeShape::ForAll(c) = shape(nodes[id]) {
                lemma_flat_shape_extend(nodes, more, names, c as int, *a);
            }
        },
        LogicalForm::Count { body, .. } => {
            if let NodeShape::Count(_, c) = shape(nodes[id]) {
                lemma_flat_shape_extend(nodes, more, names, c as int, *body);
            }
        },
        LogicalForm::Past(a) => {
            if let NodeShape::Past(c) = shape(nodes[id]) {
                lemma_flat_shape_extend(nodes, more, names, c as int, *a);
            }
        },
        LogicalForm::Present(a) => {
            if let NodeShape::Present(c) = shape(nodes[id]) {
                lemma_flat_shape_extend(nodes, more, names, c as int, *a);
            }
        },
        LogicalForm::Future(a) => {
            if let NodeShape::Future(c) = shape(nodes[id]) {
                lemma_flat_shape_extend(nodes, more, names, c as int, *a);
            }
        },
        LogicalForm::Obligatory(a) => {
            if let NodeShape::Obligatory(c) = shape(nodes[id]) {
                lemma_flat_shape_extend(nodes, more, names, c as int, *a);
            }
        },
        LogicalForm::Permitted(a) => {
            if let NodeShape::Permitted(c) = shape(nodes[id]) {
                lemma_flat_shape_extend(nodes, more, names, c as int, *a);
            }
        },
        LogicalForm::Biconditional(a, b) => {
            if let NodeShape::And(l, r) = shape(nodes[id]) {
                if let (NodeShape::Or(x, y), NodeShape::Or(u, w)) = (shape(nodes[l as int]), shape(nodes[r as int])) {
                    if let (NodeShape::Not(na), NodeShape::Not(nb)) = (shape(nodes[x as int]), shape(nodes[w as int])) {
                        lemma_flat_shape_extend(nodes, more, names, na as int, *a);
                        lemma_flat_shape_extend(nodes, more, names, y as int, *b);
                        lemma_flat_shape_extend(nodes, more, names, u as int, *a);
                        lemma_flat_shape_extend(nodes, more, names, nb as int, *b);
                    }
                }
            }
        },
        LogicalForm::Xor(a, b) => {
            if let NodeShape::And(l, r) = shape(nodes[id]) {
                if let (NodeShape::Or(x, y), NodeShape::Not(n)) = (shape(nodes[l as int]), shape(nodes[r as int])) {
                    if let NodeShape::And(u, w) = shape(nodes[n as int]) {
                        lemma_flat_shape_extend(nodes, more, names, x as int, *a);
                        lemma_flat_shape_extend(nodes, more, names, y as int, *b);
                        lemma_flat_shape_extend(nodes, more, names, u as int, *a);
                        lemma_flat_shape_extend(nodes, more, names, w as int, *b);
                    }
                }
            }
        },
    }
}

/// How many nodes the flat spelling of `f` takes.
pub open spec fn flat_size(f: LogicalForm) -> nat
    decreases f,
{
    match f {
        LogicalForm::Predicate { .. } => 1,
        LogicalForm::And(a, b) => flat_size(*a) + flat_size(*b) + 1,
        LogicalForm::Or(a, b) => flat_size(*a) + flat_size(*b) + 1,
        LogicalForm::Biconditional(a, b) => 2 * flat_size(*a) + 2 * flat_size(*b) + 5,
        LogicalForm::Xor(a, b) => 2 * flat_size(*a) + 2 * flat_size(*b) + 4,
        LogicalForm::Not(a) => flat_size(*a) + 1,
        LogicalForm::Exists(_, a) => flat_size(*a) + 1,
        LogicalForm::ForAll(_, a) => flat_size(*a) + 1,
        LogicalForm::Count { body, .. } => flat_size(*body) + 1,
        LogicalForm::Past(a) => flat_size(*a) + 1,
        LogicalForm::Present(a) => flat_size(*a) + 1,
        LogicalForm::Future(a) => flat_size(*a) + 1,
        LogicalForm::Obligatory(a) => flat_size(*a) + 1,
        LogicalForm::Permitted(a) => flat_size(*a) + 1,
    }
}

/// A key names something among the first `n`.
pub open spec fn term_held(t: Term, n: nat) -> bool {
    match t {
        Term::Variable(k) => k < n,
        Term::Constant(k) => k < n,
        _ => true,
    }
}

/// Every key of `f`, relation, variable or constant, is among the first `n`.
pub open spec fn keys_held(f: LogicalForm, n: nat) -> bool
    decreases f,
{
    match f {
        LogicalForm::Predicate { relation, args } => relation < n && forall|i: int|
            0 <= i < args@.len() ==> #[trigger] term_held(args@[i], n),
        LogicalForm::And(a, b) => keys_held(*a, n) && keys_held(*b, n),
        LogicalForm::Or(a, b) => keys_held(*a, n) && keys_held(*b, n),
        LogicalForm::Biconditional(a, b) => keys_held(*a, n) && keys_held(*b, n),
        LogicalForm::Xor(a, b) => keys_held(*a, n) && keys_held(*b, n),
        LogicalForm::Not(a) => keys_held(*a, n),
        LogicalForm::Exists(v, a) => v < n && keys_held(*a, n),
        LogicalForm::ForAll(v, a) => v < n && keys_held(*a, n),
        LogicalForm::Count { var, body, .. } => var < n && keys_held(*body, n),
        LogicalForm::Past(a) => keys_held(*a, n),
        LogicalForm::Present(a) => keys_held(*a, n),
        LogicalForm::Future(a) => keys_held(*a, n),
        LogicalForm::Obligatory(a) => keys_held(*a, n),
        LogicalForm::Permitted(a) => keys_held(*a, n),
    }
}

/// The most nodes a buffer takes.
pub const MAX_NODES: usize = 0xffff_fff0;

/// The spelled-out name of an interner key, `None` when the key is not held.
fn name_of(r: &Rodeo, k: u32) -> (s: Option<String>)
    ensures
        match s {
            Some(s) => k < interned(*r).len() && s@ == interned(*r)[k as int],
            None => k >= interned(*r).len(),
        },
{
    if (k as usize) < rodeo_len(r) {
        Some(rodeo_resolve(r, k))
    } else {
        None
    }
}

/// A term with its name spelled out.
fn flat_term(r: &Rodeo, t: Term) -> (f: Option<LogicalTerm>)
    ensures
        match f {
            Some(lt) => term_spelled(lt, t, interned(*r)),
            None => !term_held(t, interned(*r).len()),
        },
{
    match t {
        Term::Variable(k) => match name_of(r, k) {
            Some(s) => Some(LogicalTerm::Variable(s)),
            None => None,
        },
        Term::Constant(k) => match name_of(r, k) {
            Some(s) => Some(LogicalTerm::Constant(s)),
            None => None,
        },
        Term::Number(n) => Some(LogicalTerm::Number(n)),
        Term::Unspecified => Some(LogicalTerm::Unspecified),
    }
}

/// Append a node, returning its index; `None` when the buffer is full.
fn push_node(nodes: &mut Vec<LogicNode>, n: LogicNode) -> (id: Option<u32>)
    ensures
        old(nodes)@.len() < MAX_NODES ==> id is Some,
        match id {
            Some(id) => id == old(nodes)@.len() && final(nodes)@ == old(nodes)@.push(n),
            None => final(nodes)@ == old(nodes)@,
        },
{
    if nodes.len() >= MAX_NODES {
        return None;
    }
    let id = nodes.len() as u32;
    nodes.push(n);
    Some(id)
}

/// Append the flat spelling of `f` to `nodes`, children first, and return its root.
/// `None` when a name of `f` is not held by the interner, or the buffer is full.
#[verifier::spinoff_prover]
pub fn flatten(r: &Rodeo, nodes: &mut Vec<LogicNode>, f: &LogicalForm) -> (id: Option<u32>)
    ensures
        old(nodes)@.len() <= final(nodes)@.len(),
        forall|i: int| 0 <= i < old(nodes)@.len() ==> #[trigger] final(nodes)@[i] == old(nodes)@[i],
        id matches Some(id) ==> {
            &&& flat_shape(final(nodes)@, interned(*r), id as int, *f)
            &&& final(nodes)@.len() == old(nodes)@.len() + flat_size(*f)
            &&& id == final(nodes)@.len() - 1
        },
        keys_held(*f, interned(*r).len()) && old(nodes)@.len() + flat_size(*f) <= MAX_NODES ==> id is Some,
    decreases f, 1int,
{
    match f {
        LogicalForm::Predicate { relation, args } => {
            let name = name_of(r, *relation)?;
            let mut flat: Vec<LogicalTerm> = Vec::new();
            let mut i: usize = 0;
            while i < args.len()
                invariant
                    i <= args@.len(),
                    flat@.len() == i,
                    nodes@ == old(nodes)@,
                    forall|j: int| 0 <= j < i ==> #[trigger] term_spelled(flat@[j], args@[j], interned(*r)),
                    keys_held(*f, interned(*r).len()) ==> forall|j: int| 0 <= j < args@.len() ==> #[trigger] term_held(args@[j], interned(*r).len()),
                decreases args@.len() - i,
            {
                let t = flat_term(r, args[i])?;
                flat.push(t);
                i = i + 1;
            }
            push_node(nodes, LogicNode::Predicate((name, flat)))
        },
        LogicalForm::And(a, b) => {
            let l = flatten(r, nodes, a)?;
            let ghost mid = nodes@;
            let rr = flatten(r, nodes, b)?;
            proof { lemma_flat_shape_extend(mid, nodes@, interned(*r), l as int, **a); }
            let ghost last = nodes@;
            let id = push_node(nodes, LogicNode::AndNode((l, rr)))?;
            proof {
                lemma_flat_shape_extend(last, nodes@, interned(*r), l as int, **a);
                lemma_flat_shape_extend(last, nodes@, interned(*r), rr as int, **b);
            }
            Some(id)
        },
        LogicalForm::Or(a, b) => {
            let l = flatten(r, nodes, a)?;
            let ghost mid = nodes@;
            let rr = flatten(r, nodes, b)?;
            proof { lemma_flat_shape_extend(mid, nodes@, interned(*r), l as int, **a); }
            let ghost last = nodes@;
            let id = push_node(nodes, LogicNode::OrNode((l, rr)))?;
            proof {
                lemma_flat_shape_extend(last, nodes@, interned(*r), l as int, **a);
                lemma_flat_shape_extend(last, nodes@, interned(*r), rr as int, **b);
            }
            Some(id)
        },
        LogicalForm::Not(a) => {
            let c = flatten(r, nodes, a)?;
            let ghost last = nodes@;
            let id = push_node(nodes, LogicNode::NotNode(c))?;
            proof { lemma_flat_shape_extend(last, nodes@, interned(*r), c as int, **a); }
            Some(id)
        },
        LogicalForm::Exists(v, a) => {
            let name = name_of(r, *v)?;
            let c = flatten(r, nodes, a)?;
            let ghost last = nodes@;
            let id = push_node(nodes, LogicNode::ExistsNode((name, c)))?;
            proof { lemma_flat_shape_extend(last, nodes@, interned(*r), c as int, **a); }
            Some(id)
        },
        LogicalForm::ForAll(v, a) => {
            let name = name_of(r, *v)?;
            let c = flatten(r, nodes, a)?;
            let ghost last = nodes@;
            let id = push_node(nodes, LogicNode::ForAllNode((name, c)))?;
            proof { lemma_flat_shape_extend(last, nodes@, interned(*r), c as int, **a); }
            Some(id)
        },
        LogicalForm::Count { var, count, body } => {
            let name = name_of(r, *var)?;
            let c = flatten(r, nodes, body)?;
            let ghost last = nodes@;
            let id = push_node(nodes, LogicNode::CountNode((name, *count, c)))?;
            proof { lemma_flat_shape_extend(last, nodes@, interned(*r), c as int, **body); }
            Some(id)
        },
        LogicalForm::Past(a) => {
            let c = flatten(r, nodes, a)?;
            let ghost last = nodes@;
            let id = push_node(nodes, LogicNode::PastNode(c))?;
            proof { lemma_flat_shape_extend(last, nodes@, interned(*r), c as int, **a); }
            Some(id)
        },
        LogicalForm::Present(a) => {
            let c = flatten(r, nodes, a)?;
            let ghost last = nodes@;
            let id = push_node(nodes, LogicNode::PresentNode(c))?;
            proof { lemma_flat_shape_extend(last, nodes@, interned(*r), c as int, **a); }
            Some(id)
        },
        LogicalForm::Future(a) => {
            let c = flatten(r, nodes, a)?;
            let ghost last = nodes@;
            let id = push_node(nodes, LogicNode::FutureNode(c))?;
            proof { lemma_flat_shape_extend(last, nodes@, interned(*r), c as int, **a); }
            Some(id)
        },
        LogicalForm::Obligatory(a) => {
            let c = flatten(r, nodes, a)?;
            let ghost last = nodes@;
            let id = push_node(nodes, LogicNode::ObligatoryNode(c))?;
            proof { lemma_flat_shape_extend(last, nodes@, interned(*r), c as int, **a); }
            Some(id)
        },
        LogicalForm::Permitted(a) => {
            let c = flatten(r, nodes, a)?;
            let ghost last = nodes@;
            let id = push_node(nodes, LogicNode::PermittedNode(c))?;
            proof { lemma_flat_shape_extend(last, nodes@, interned(*r), c as int, **a); }
            Some(id)
        },
        LogicalForm::Biconditional(..) => flatten_pair(r, nodes, f),
        LogicalForm::Xor(..) => flatten_pair(r, nodes, f),
    }
}

/// The flat spelling of a biconditional, `(¬a ∨ b) ∧ (a ∨ ¬b)`, or an exclusive or,
/// `(a ∨ b) ∧ ¬(a ∧ b)`; see [`flatten`].
#[verifier::spinoff_prover]
fn flatten_pair(r: &Rodeo, nodes: &mut Vec<LogicNode>, f: &LogicalForm) -> (id: Option<u32>)
    requires
        f is Biconditional || f is Xor,
    ensures
        old(nodes)@.len() <= final(nodes)@.len(),
        forall|i: int| 0 <= i < old(nodes)@.len() ==> #[trigger] final(nodes)@[i] == old(nodes)@[i],
        id matches Some(id) ==> {
            &&& flat_shape(final(nodes)@, interned(*r), id as int, *f)
            &&& final(nodes)@.len() == old(nodes)@.len() + flat_size(*f)
            &&& id == final(nodes)@.len() - 1
        },
        keys_held(*f, interned(*r).len()) && old(nodes)@.len() + flat_size(*f) <= MAX_NODES ==> id is Some,
    decreases f, 0int,
{
    match f {
        LogicalForm::Biconditional(a, b) => {
            // (¬a ∨ b) ∧ (a ∨ ¬b)
            let a1 = flatten(r, nodes, a)?;
            let ghost s1 = nodes@;
            let na = push_node(nodes, LogicNode::NotNode(a1))?;
            proof { lemma_flat_shape_extend(s1, nodes@, interned(*r), a1 as int, **a); }
            let ghost s2 = nodes@;
            let b1 = flatten(r, nodes, b)?;
            let ghost s3 = nodes@;
            let x = push_node(nodes, LogicNode::OrNode((na, b1)))?;
            let ghost s4 = nodes@;
            let a2 = flatten(r, nodes, a)?;
            let ghost s5 = nodes@;
            let b2 = flatten(r, nodes, b)?;
            let ghost s6 = nodes@;
            let nb = push_node(nodes, LogicNode::NotNode(b2))?;
            let ghost s7 = nodes@;
            let y = push_node(nodes, LogicNode::OrNode((a2, nb)))?;
            let ghost s8 = nodes@;
            let id = push_node(nodes, LogicNode::AndNode((x, y)))?;
            proof {
                lemma_flat_shape_extend(s2, nodes@, interned(*r), a1 as int, **a);
                lemma_flat_shape_extend(s3, nodes@, interned(*r), b1 as int, **b);
                lemma_flat_shape_extend(s5, nodes@, interned(*r), a2 as int, **a);
                lemma_flat_shape_extend(s6, nodes@, interned(*r), b2 as int, **b);
                assert(nodes@[na as int] == s2[na as int]);
                assert(nodes@[x as int] == s4[x as int]);
                assert(nodes@[nb as int] == s7[nb as int]);
                assert(nodes@[y as int] == s8[y as int]);
            }
            Some(id)
        },
        LogicalForm::Xor(a, b) => {
            // (a ∨ b) ∧ ¬(a ∧ b)
            let a1 = flatten(r, nodes, a)?;
            let ghost s1 = nodes@;
            let b1 = flatten(r, nodes, b)?;
            let ghost s2 = nodes@;
            let x = push_node(nodes, LogicNode::OrNode((a1, b1)))?;
            let ghost s3 = nodes@;
            let a2 = flatten(r, nodes, a)?;
            let ghost s4 = nodes@;
            let b2 = flatten(r, nodes, b)?;
            let ghost s5 = nodes@;
            let both = push_node(nodes, LogicNode::AndNode((a2, b2)))?;
            let ghost s6 = nodes@;
            let n = push_node(nodes, LogicNode::NotNode(both))?;
            let ghost s7 = nodes@;
            let id = push_node(nodes, LogicNode::AndNode((x, n)))?;
            proof {
                lemma_flat_shape_extend(s1, nodes@, interned(*r), a1 as int, **a);
                lemma_flat_shape_extend(s2, nodes@, interned(*r), b1 as int, **b);
                lemma_flat_shape_extend(s4, nodes@, interned(*r), a2 as int, **a);
                lemma_flat_shape_extend(s5, nodes@, interned(*r), b2 as int, **b);
                assert(nodes@[x as int] == s3[x as int]);
                assert(nodes@[both as int] == s6[both as int]);
                assert(nodes@[n as int] == s7[n as int]);
            }
            Some(id)
        },
        _ => None,
    }
}

} // verus!
