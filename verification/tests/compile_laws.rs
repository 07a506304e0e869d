//! The compiler's laws on concrete sentences: event decomposition, place filling,
//! conversions, modal predicates, distribution and how a text splits into sentences.

use fanva::gates::{local_gates, validate_kb};
use fanva::logic::{LogicBuffer, LogicNode, LogicalTerm};
use fanva::parser::parse_checked;

fn predicate<'a>(buf: &'a LogicBuffer, name: &str) -> Option<&'a Vec<LogicalTerm>> {
    buf.nodes.iter().find_map(|n| match n {
        LogicNode::Predicate((rel, args)) if rel == name => Some(args),
        _ => None,
    })
}

fn is_var(t: &LogicalTerm, name: &str) -> bool {
    matches!(t, LogicalTerm::Variable(v) if v == name)
}

fn is_const(t: &LogicalTerm, name: &str) -> bool {
    matches!(t, LogicalTerm::Constant(c) if c == name)
}

#[test]
fn event_decomposition_spells_each_filled_place() {
    let buf = local_gates("mi klama").expect("compiles");
    assert_eq!(buf.roots, vec![3]);
    assert_eq!(buf.nodes.len(), 4);
    assert!(matches!(&buf.nodes[0], LogicNode::Predicate((r, a)) if r == "klama" && a.len() == 1 && is_var(&a[0], "_v0")));
    assert!(matches!(&buf.nodes[1], LogicNode::Predicate((r, a))
        if r == "klama_x1" && a.len() == 2 && is_var(&a[0], "_v0") && is_const(&a[1], "mi")));
    assert!(matches!(buf.nodes[2], LogicNode::AndNode((0, 1))));
    assert!(matches!(&buf.nodes[3], LogicNode::ExistsNode((v, 2)) if v == "_v0"));
}

#[test]
fn untagged_terms_fill_places_in_order_and_tags_jump() {
    let buf = local_gates("mi klama do").expect("compiles");
    let x1 = predicate(&buf, "klama_x1").expect("x1 filled");
    let x2 = predicate(&buf, "klama_x2").expect("x2 filled");
    assert!(is_const(&x1[1], "mi"));
    assert!(is_const(&x2[1], "do"));
    assert!(predicate(&buf, "klama_x3").is_none());

    let buf = local_gates("fi mi klama do").expect("compiles");
    let x3 = predicate(&buf, "klama_x3").expect("x3 filled by the tag");
    let x4 = predicate(&buf, "klama_x4").expect("x4 filled after the tag");
    assert!(is_const(&x3[1], "mi"));
    assert!(is_const(&x4[1], "do"));
    assert!(predicate(&buf, "klama_x1").is_none());
}

#[test]
fn conversion_swaps_the_first_place() {
    let buf = local_gates("mi se klama do").expect("compiles");
    let x1 = predicate(&buf, "klama_x1").expect("x1 filled");
    let x2 = predicate(&buf, "klama_x2").expect("x2 filled");
    assert!(is_const(&x1[1], "do"));
    assert!(is_const(&x2[1], "mi"));
}

#[test]
fn modal_predicate_links_the_tagged_term_to_the_main_x1() {
    let buf = local_gates("mi klama ri'a do").expect("compiles");
    let rinka = predicate(&buf, "rinka").expect("the modal's predicate");
    assert_eq!(rinka.len(), 4);
    assert!(is_const(&rinka[0], "do"));
    assert!(is_const(&rinka[1], "mi"));
    assert!(matches!(rinka[2], LogicalTerm::Unspecified));
    assert!(matches!(rinka[3], LogicalTerm::Unspecified));
    match &buf.nodes[buf.roots[0] as usize] {
        LogicNode::AndNode((l, r)) => {
            assert!(matches!(&buf.nodes[*l as usize], LogicNode::ExistsNode(_)));
            assert!(matches!(&buf.nodes[*r as usize], LogicNode::Predicate((n, _)) if n == "rinka"));
        },
        other => panic!("expected the event conjoined with the modal, got {:?}", other),
    }
}

#[test]
fn connected_sumti_distribute_over_the_predication() {
    let buf = local_gates("mi .a do klama").expect("compiles");
    match &buf.nodes[buf.roots[0] as usize] {
        LogicNode::OrNode((l, r)) => {
            assert!(matches!(&buf.nodes[*l as usize], LogicNode::ExistsNode(_)));
            assert!(matches!(&buf.nodes[*r as usize], LogicNode::ExistsNode(_)));
        },
        other => panic!("expected a disjunction of two predications, got {:?}", other),
    }
    let firsts: Vec<&LogicalTerm> = buf
        .nodes
        .iter()
        .filter_map(|n| match n {
            LogicNode::Predicate((rel, a)) if rel == "klama_x1" => Some(&a[1]),
            _ => None,
        })
        .collect();
    assert_eq!(firsts.len(), 2);
    assert!(is_const(firsts[0], "mi"));
    assert!(is_const(firsts[1], "do"));
}

#[test]
fn bare_i_starts_a_sentence_and_joined_i_extends_one() {
    let ast = parse_checked(".i mi klama .i do klama").expect("parses");
    assert_eq!(ast.roots.len(), 2);
    let ast = parse_checked("mi klama .i ja do klama .i ti klama").expect("parses");
    assert_eq!(ast.roots.len(), 2);
    let buf = local_gates("mi klama .i ja do klama").expect("compiles");
    assert_eq!(buf.roots.len(), 1);
    assert!(matches!(buf.nodes[buf.roots[0] as usize], LogicNode::OrNode(_)));
}

#[test]
fn unknown_word_is_reported_with_its_index() {
    let e = parse_checked("mi klama zzz7 do").unwrap_err();
    assert_eq!(e.position, 2);
    assert_eq!(e.message, "unknown word `zzz7`");
}

#[test]
fn a_knowledge_base_with_an_unknown_word_fails() {
    assert!(validate_kb("mi klama\ndo klama").is_ok());
    assert!(validate_kb("mi klama\ndo 7").is_err());
}

#[test]
fn prenex_variables_are_bound_universally_and_never_existentially() {
    let buf = local_gates("ro da ro de zo'u da prami de").expect("compiles");
    let root = &buf.nodes[buf.roots[0] as usize];
    let inner = match root {
        LogicNode::ForAllNode((v, body)) if v == "da" => *body,
        other => panic!("expected the prenex's first universal, got {:?}", other),
    };
    assert!(matches!(&buf.nodes[inner as usize], LogicNode::ForAllNode((v, _)) if v == "de"));
    let rebound = buf.nodes.iter().any(|n| matches!(n, LogicNode::ExistsNode((v, _)) if v == "da" || v == "de"));
    assert!(!rebound);
    let x1 = predicate(&buf, "prami_x1").expect("x1 filled");
    let x2 = predicate(&buf, "prami_x2").expect("x2 filled");
    assert!(is_var(&x1[1], "da"));
    assert!(is_var(&x2[1], "de"));
}

fn free_vars(buf: &LogicBuffer, node: usize, bound: &mut Vec<String>, out: &mut Vec<String>) {
    match &buf.nodes[node] {
        LogicNode::Predicate((_, args)) => {
            for a in args {
                if let LogicalTerm::Variable(v) = a {
                    if !bound.contains(v) && !out.contains(v) {
                        out.push(v.clone());
                    }
                }
            }
        }
        LogicNode::ExistsNode((v, b)) | LogicNode::ForAllNode((v, b)) => {
            bound.push(v.clone());
            free_vars(buf, *b as usize, bound, out);
            bound.pop();
        }
        LogicNode::CountNode((v, _, b)) => {
            bound.push(v.clone());
            free_vars(buf, *b as usize, bound, out);
            bound.pop();
        }
        LogicNode::AndNode((a, b)) | LogicNode::OrNode((a, b)) => {
            free_vars(buf, *a as usize, bound, out);
            free_vars(buf, *b as usize, bound, out);
        }
        LogicNode::NotNode(a)
        | LogicNode::PastNode(a)
        | LogicNode::PresentNode(a)
        | LogicNode::FutureNode(a)
        | LogicNode::ObligatoryNode(a)
        | LogicNode::PermittedNode(a) => free_vars(buf, *a as usize, bound, out),
    }
}

#[test]
fn compiled_sentences_leave_no_variable_free() {
    for text in [
        "da klama",
        "mi prami lo gerku poi da nelci ke'a",
        "ro da zo'u da prami de",
        "lo gerku cu klama gi'e citka lo plise",
        "mi klama ri'a da",
    ] {
        let buf = local_gates(text).expect("compiles");
        for &root in &buf.roots {
            let mut out = Vec::new();
            free_vars(&buf, root as usize, &mut Vec::new(), &mut out);
            assert!(out.is_empty(), "{text}: free {out:?}");
        }
    }
}
