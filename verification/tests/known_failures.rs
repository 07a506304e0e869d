//! Compile-time regression guards: each case parses a text, compiles it to first-order
//! logic and checks the flat buffer.

use fanva::gates::{compile_from_ast, local_gates};
use fanva::logic::{LogicBuffer, LogicNode};
use fanva::parser::parse_checked;

/// True if the compiled buffer contains the `base` predicate or any of its role
/// predicates (`base_xN`).
fn has_predicate_base(buf: &LogicBuffer, base: &str) -> bool {
    let role_prefix = format!("{base}_x");
    buf.nodes.iter().any(|n| match n {
        LogicNode::Predicate((rel, _)) => rel == base || rel.starts_with(&role_prefix),
        _ => false,
    })
}

fn has_node(buf: &LogicBuffer, pred: impl Fn(&LogicNode) -> bool) -> bool {
    buf.nodes.iter().any(pred)
}

/// Follow the child indices from `id`; true if the subtree holds an `ExistsNode`.
fn subtree_has_exists(buf: &LogicBuffer, id: u32) -> bool {
    match &buf.nodes[id as usize] {
        LogicNode::ExistsNode(_) => true,
        LogicNode::ForAllNode((_, b))
        | LogicNode::NotNode(b)
        | LogicNode::PastNode(b)
        | LogicNode::PresentNode(b)
        | LogicNode::FutureNode(b)
        | LogicNode::ObligatoryNode(b)
        | LogicNode::PermittedNode(b) => subtree_has_exists(buf, *b),
        LogicNode::CountNode((_, _, b)) => subtree_has_exists(buf, *b),
        LogicNode::AndNode((l, r)) | LogicNode::OrNode((l, r)) => {
            subtree_has_exists(buf, *l) || subtree_has_exists(buf, *r)
        }
        LogicNode::Predicate(_) => false,
    }
}

/// True if some `ForAllNode`'s body holds an `ExistsNode`: a `∃` inside a `∀`.
fn exists_under_forall(buf: &LogicBuffer) -> bool {
    buf.nodes.iter().any(|n| match n {
        LogicNode::ForAllNode((_, body)) => subtree_has_exists(buf, *body),
        _ => false,
    })
}

fn is_or(n: &LogicNode) -> bool {
    matches!(n, LogicNode::OrNode(_))
}
fn is_not(n: &LogicNode) -> bool {
    matches!(n, LogicNode::NotNode(_))
}
fn is_past(n: &LogicNode) -> bool {
    matches!(n, LogicNode::PastNode(_))
}

#[test]
fn abstraction_body_over_connected_keeps_consequent() {
    let buf = local_gates("mi djica lo nu ganai la .adam. gerku gi la .adam. klama kei")
        .expect("should compile");
    assert!(
        has_predicate_base(&buf, "klama"),
        "the abstraction body's consequent `klama` was dropped. FOL: {:?}",
        buf.nodes
    );
}

#[test]
fn abstraction_body_over_rel_clause_keeps_head() {
    let buf =
        local_gates("mi djica lo nu lo gerku poi ke'a barda cu klama kei").expect("should compile");
    assert!(
        has_predicate_base(&buf, "klama"),
        "the abstraction body head `klama` was dropped. FOL: {:?}",
        buf.nodes
    );
}

#[test]
fn rel_clause_on_name_keeps_both_conjuncts() {
    let buf = local_gates("la .adam. poi gerku cu klama").expect("should compile");
    assert!(
        has_predicate_base(&buf, "gerku") && has_predicate_base(&buf, "klama"),
        "the `poi gerku` restriction was dropped. FOL: {:?}",
        buf.nodes
    );
}

#[test]
fn disjunction_ija_compiles_both_operands() {
    let buf = local_gates("la .adam. cu gerku .i ja la .adam. cu mlatu").expect("should compile");
    assert!(has_node(&buf, is_or), "`.i ja` did not compile to a disjunction");
    assert!(
        has_predicate_base(&buf, "gerku") && has_predicate_base(&buf, "mlatu"),
        "`.i ja` dropped an operand. FOL: {:?}",
        buf.nodes
    );
}

#[test]
fn xor_iju_compiles_both_operands() {
    let buf = local_gates("la .adam. cu gerku .i ju la .adam. cu mlatu").expect("should compile");
    assert!(
        has_node(&buf, is_or) && has_node(&buf, is_not),
        "`.i ju` did not compile to the xor shape"
    );
    assert!(
        has_predicate_base(&buf, "gerku") && has_predicate_base(&buf, "mlatu"),
        "`.i ju` dropped an operand. FOL: {:?}",
        buf.nodes
    );
}

#[test]
fn ganai_tensed_antecedent_survives() {
    if let Ok(buf) = local_gates("ganai la .adam. pu bajra gi la .adam. danlu") {
        assert!(
            has_predicate_base(&buf, "bajra") && has_node(&buf, is_past),
            "the tensed antecedent (`pu bajra`) was dropped from the rule. FOL: {:?}",
            buf.nodes
        );
    }
}

#[test]
fn ganai_disjunctive_antecedent_survives() {
    if let Ok(buf) = local_gates("ganai ga la .adam. gerku gi la .adam. mlatu gi la .adam. danlu") {
        assert!(
            has_node(&buf, is_or)
                && has_predicate_base(&buf, "gerku")
                && has_predicate_base(&buf, "mlatu"),
            "the disjunctive antecedent was dropped from the rule. FOL: {:?}",
            buf.nodes
        );
    }
}

#[test]
fn negated_ground_fact_compiles_to_not() {
    if let Ok(buf) = local_gates("la .adam. na gerku") {
        assert!(
            has_node(&buf, is_not) && has_predicate_base(&buf, "gerku"),
            "the negative fact `na gerku` did not compile to a Not. FOL: {:?}",
            buf.nodes
        );
    }
}

#[test]
fn fa_tag_beyond_arity_errors() {
    assert!(
        local_gates("fu do gerku").is_err(),
        "an over-arity FA tag (`fu` = x5 on 2-place `gerku`) must error, not silently drop"
    );
}

#[test]
fn tanru_in_poi_compiles() {
    assert!(
        local_gates("lo gerku poi sutra bajra cu klama").is_ok(),
        "a valid tanru-in-poi relative clause was rejected"
    );
}

#[test]
fn lexer_truncation_surfaces_error() {
    let s = "mi klama 7 do prami .i lo gerku cu danlu";
    match parse_checked(s) {
        Err(_) => {}
        Ok(ast) => {
            let buf = compile_from_ast(ast).expect("should compile if it parsed");
            assert!(
                has_predicate_base(&buf, "danlu"),
                "input was silently truncated at `7`; the trailing sentence vanished. FOL: {:?}",
                buf.nodes
            );
        }
    }
}

#[test]
fn da_after_universal_scopes_exists_inside_forall() {
    let buf = local_gates("ro lo gerku cu citka da").expect("should compile");
    assert!(
        matches!(buf.nodes[buf.roots[0] as usize], LogicNode::ForAllNode(_)),
        "`ro lo … da` root must be a universal (∀ outermost). FOL: {:?}",
        buf.nodes
    );
    assert!(
        exists_under_forall(&buf),
        "the `da` existential closed OUTSIDE the universal — rule scope lost. FOL: {:?}",
        buf.nodes
    );
}

#[test]
fn ch12_consent_sentences_compile() {
    for s in [
        ".i lo prenu cu ponse lo datni",
        ".i lo prenu cu curmi lo nu lo datni cu se pilno",
        ".i ro lo prenu poi curmi lo nu lo datni cu se pilno cu se bilga lo nu lo datni cu se pilno",
    ] {
        assert!(
            local_gates(s).is_ok(),
            "Ch-12 consent sentence failed to compile: {s:?} → {:?}",
            local_gates(s).err()
        );
    }
}
