//! Checks of the library's parts on concrete values.

use fanva::ast::{Connective, Sentence, Tense};
use fanva::compile::SemanticCompiler;
use fanva::dictionary::{bai_to_gismu, get_arity, get_arity_or_default, get_gloss};
use fanva::ast::Bai;
use fanva::gates::{local_gates, validate, validate_kb, GateError, GateKind};
use fanva::lexer::{lex, Cmavo, Token};
use fanva::logic::{LogicBuffer, LogicNode, LogicalTerm};
use fanva::parser::{giha_safe_head, head_has_connective, parse_checked, Parser};
use fanva::report::{
    active_proxy_url, camxes_ok, first_line, gate_chips, outcome_attempts, outcome_kind,
    three_gate_ok, tool_summary, trace_rows, Attempt, Outcome,
};
use fanva::text::{escape_json, kb_lines, kb_to_tersmu_text, truncate};

fn root(buf: &LogicBuffer) -> &LogicNode {
    &buf.nodes[buf.roots[0] as usize]
}

fn child(buf: &LogicBuffer, n: &LogicNode) -> u32 {
    match n {
        LogicNode::NotNode(b)
        | LogicNode::PastNode(b)
        | LogicNode::PresentNode(b)
        | LogicNode::FutureNode(b)
        | LogicNode::ObligatoryNode(b)
        | LogicNode::PermittedNode(b) => *b,
        LogicNode::ExistsNode((_, b)) | LogicNode::ForAllNode((_, b)) => *b,
        LogicNode::CountNode((_, _, b)) => *b,
        _ => panic!("no single child: {:?} in {:?}", n, buf.nodes),
    }
}

fn parser_for(text: &str) -> Parser {
    Parser::new(lex(text).expect("lexes"))
}

#[test]
fn lex_classifies_words() {
    let toks = lex(".i la .adam. cu klama").expect("lexes");
    assert_eq!(toks.len(), 5);
    assert!(matches!(toks[0], Token::Cmavo(Cmavo::I)));
    assert!(matches!(&toks[1], Token::Cmavo(Cmavo::La)));
    assert!(matches!(&toks[2], Token::Cmevla(n) if n == "adam"));
    assert!(matches!(&toks[3], Token::Cmavo(Cmavo::Cu)));
    assert!(matches!(&toks[4], Token::Brivla(b) if b == "klama"));
}

#[test]
fn lex_reports_first_unknown_word() {
    let e = lex("mi klama 7 do").unwrap_err();
    assert_eq!(e.index, 2);
    assert_eq!(e.word, "7");
}

#[test]
fn prenex_restores_position_on_universal_description() {
    let mut p = parser_for("ro lo gerku cu klama");
    assert!(p.try_parse_prenex().is_none());
    assert_eq!(p.pos, 0);
    let mut q = parser_for("ro da ro de zo'u da prami de");
    let vars = q.try_parse_prenex().expect("a prenex");
    assert_eq!(vars, vec![Cmavo::Da, Cmavo::De]);
    assert_eq!(q.pos, 5);
    let mut r = parser_for("ro da ro de da prami de");
    assert!(r.try_parse_prenex().is_none());
    assert_eq!(r.pos, 0);
}

#[test]
fn tense_and_attitudinal_are_consumed() {
    let mut p = parser_for("pu ei mi klama");
    assert_eq!(p.try_parse_tense(), Some(Tense::Pu));
    assert_eq!(p.pos, 1);
    assert!(p.try_parse_tense().is_none());
    assert!(p.try_parse_attitudinal().is_some());
    assert_eq!(p.pos, 2);
}

#[test]
fn bridi_tail_refuses_a_tense() {
    let mut p = parser_for("pu citka");
    assert!(p.parse_bridi_tail(Connective::Je, false).is_err());
}

#[test]
fn parse_sentence_kinds() {
    let ast = parse_checked("ro da zo'u da gerku").expect("parses");
    assert!(matches!(&ast.sentences[ast.roots[0] as usize], Sentence::Prenex(v, _) if v == &vec![Cmavo::Da]));
    let ast = parse_checked("ganai mi klama gi do klama").expect("parses");
    assert!(matches!(&ast.sentences[ast.roots[0] as usize], Sentence::Connected(_, _, _)));
    let ast = parse_checked("lo gerku cu klama gi'e citka").expect("parses");
    assert!(matches!(&ast.sentences[ast.roots[0] as usize], Sentence::SharedHead(_, _)));
    let ast = parse_checked("mi klama gi'e citka").expect("parses");
    assert!(matches!(&ast.sentences[ast.roots[0] as usize], Sentence::Connected(_, _, _)));
}

#[test]
fn parse_errors() {
    assert!(parse_checked("lo").is_err());
    assert!(parse_checked("ganai mi klama").is_err());
    assert!(parse_checked("mi klama gi'e pu citka").is_err());
    assert!(parse_checked("mi klama .e").is_err());
    assert!(parse_checked("").is_err());
}

#[test]
fn safe_heads_and_connected_heads() {
    let ast = parse_checked("la .adam. fe lo gerku .e mi da klama").expect("parses");
    let safe: Vec<bool> = (0..ast.sumtis.len() as u32).map(|i| giha_safe_head(&ast.sumtis, i)).collect();
    let conn: Vec<bool> = (0..ast.sumtis.len() as u32).map(|i| head_has_connective(&ast.sumtis, i)).collect();
    for i in 0..safe.len() {
        assert!(!(safe[i] && conn[i]), "a term is never both constant and connected");
    }
    assert!(safe.iter().any(|s| *s));
    assert!(conn.iter().any(|c| *c));
}

#[test]
fn wrappers_nest_attitudinal_tense_negation() {
    let buf = local_gates("pu ei la .adam. na gerku").expect("compiles");
    let r = root(&buf);
    assert!(matches!(r, LogicNode::ObligatoryNode(_)), "{:?}", buf.nodes);
    let t = &buf.nodes[child(&buf, r) as usize];
    assert!(matches!(t, LogicNode::PastNode(_)), "{:?}", buf.nodes);
    let n = &buf.nodes[child(&buf, t) as usize];
    assert!(matches!(n, LogicNode::NotNode(_)), "{:?}", buf.nodes);
}

#[test]
fn names_are_spelled_out() {
    let buf = local_gates("la .adam. cu gerku").expect("compiles");
    let found = buf.nodes.iter().any(|n| {
        matches!(n, LogicNode::Predicate((rel, args))
            if rel == "gerku_x1" && matches!(args.get(1), Some(LogicalTerm::Constant(c)) if c == "adam"))
    });
    assert!(found, "{:?}", buf.nodes);
}

#[test]
fn sentence_connectives_map_to_formulas() {
    let je = local_gates("mi klama .i je do klama").expect("compiles");
    assert!(matches!(root(&je), LogicNode::AndNode(_)));
    let ganai = local_gates("ganai mi klama gi do klama").expect("compiles");
    match root(&ganai) {
        LogicNode::OrNode((l, _)) => assert!(matches!(ganai.nodes[*l as usize], LogicNode::NotNode(_))),
        other => panic!("ganai must give ¬a ∨ b, got {other:?}"),
    }
    let jo = local_gates("mi klama .i jo do klama").expect("compiles");
    match root(&jo) {
        LogicNode::AndNode((l, r)) => {
            assert!(matches!(jo.nodes[*l as usize], LogicNode::OrNode(_)));
            assert!(matches!(jo.nodes[*r as usize], LogicNode::OrNode(_)));
        }
        other => panic!("jo must give (¬a ∨ b) ∧ (a ∨ ¬b), got {other:?}"),
    }
}

#[test]
fn prenex_binds_its_variable_universally() {
    let buf = local_gates("ro da zo'u da gerku").expect("compiles");
    assert!(matches!(root(&buf), LogicNode::ForAllNode((v, _)) if v == "da"));
    assert!(!buf.nodes.iter().any(|n| matches!(n, LogicNode::ExistsNode((v, _)) if v == "da")));
}

#[test]
fn bare_logic_variable_is_closed_existentially() {
    let buf = local_gates("da gerku").expect("compiles");
    assert!(matches!(root(&buf), LogicNode::ExistsNode((v, _)) if v == "da"));
}

#[test]
fn quantifier_kinds() {
    let every = local_gates("ro lo gerku cu klama").expect("compiles");
    assert!(matches!(root(&every), LogicNode::ForAllNode(_)));
    let two = local_gates("re lo gerku cu klama").expect("compiles");
    assert!(matches!(root(&two), LogicNode::CountNode((_, 2, _))));
    let some = local_gates("lo gerku cu klama").expect("compiles");
    assert!(matches!(root(&some), LogicNode::ExistsNode(_)));
}

#[test]
fn semantic_errors_fail_closed() {
    assert!(local_gates("fa mi fa do klama").is_err(), "a place set twice");
    assert!(local_gates("mi klama fi'o prenu do").is_err(), "a modal over a 1-place selbri");
    assert!(local_gates("ke'a klama").is_err(), "ke'a outside a relative clause");
    assert!(local_gates("mi prenu do").is_err(), "untagged overflow of a known word");
    assert!(local_gates("mi broda do ti").is_ok(), "an unknown word's arity is not known");
    assert!(local_gates("la .adam. poi mi prenu cu klama").is_err(), "no place for the clause's subject");
}

#[test]
fn gate_error_kinds_and_messages() {
    let e: GateError = local_gates("mi 7").unwrap_err();
    assert_eq!(e.kind, GateKind::Syntax);
    assert_eq!(e.gate(), "gerna");
    assert_eq!(e.message(), "[Syntax Error] unknown word `7`");
    let e = local_gates("fu do gerku").unwrap_err();
    assert_eq!(e.kind, GateKind::Semantic);
    assert_eq!(e.gate(), "smuni");
    assert!(e.message().starts_with("[Semantic Error] Place tag `fu`"));
    assert!(validate("mi klama").is_ok());
}

#[test]
fn compiler_starts_empty() {
    let c = SemanticCompiler::new();
    assert!(c.errors.is_empty());
    assert!(c.prenex_vars.is_empty());
}

#[test]
fn dictionary_lookups() {
    assert_eq!(get_arity("klama"), Some(5));
    assert_eq!(get_arity("gerku"), Some(2));
    assert_eq!(get_arity("broda"), None);
    assert_eq!(get_arity_or_default("broda"), 2);
    assert!(get_gloss("lo").is_some());
    assert!(get_gloss("dunda").is_some());
    assert!(get_gloss("broda").is_none());
    assert_eq!(bai_to_gismu(Bai::Riha), "rinka");
}

#[test]
fn escape_json_values() {
    assert_eq!(escape_json("a\"b\\c\nd\re\tf"), "a\\\"b\\\\c\\nd\\re\\tf");
    assert_eq!(escape_json("lo gerku"), "lo gerku");
    assert_eq!(escape_json(""), "");
}

#[test]
fn kb_lines_and_tersmu_text() {
    let kb = "  la .adam. cu gerku \n# a comment\n\n mi klama\r\n";
    assert_eq!(kb_lines(kb), vec!["la .adam. cu gerku".to_string(), "mi klama".to_string()]);
    assert_eq!(kb_to_tersmu_text(kb), "la .adam. cu gerku .i mi klama");
    assert_eq!(kb_to_tersmu_text("# only\n\n"), "");
}

#[test]
fn validate_kb_checks_every_line() {
    assert!(validate_kb("ro lo gerku cu danlu\n# note\nla .adam. cu gerku").is_ok());
    assert!(validate_kb("la .adam. cu gerku\nfu do gerku").is_err());
}

#[test]
fn truncate_values() {
    assert_eq!(truncate("abcdef", 3), "abc…");
    assert_eq!(truncate("abc", 3), "abc");
    assert_eq!(truncate("", 0), "");
}

#[test]
fn gate_chip_states() {
    let chips = gate_chips(Some("smuni"));
    let labels: Vec<&str> = chips.iter().map(|c| c.0.as_str()).collect();
    assert_eq!(labels, vec!["gerna ✓", "smuni ✗", "camxes ·"]);
    assert_eq!(chips[1].1, "gate-chip fail");
    let all_pass = gate_chips(Some("verify"));
    assert!(all_pass.iter().all(|c| c.1 == "gate-chip pass"));
    assert!(gate_chips(None).iter().all(|c| c.1 == "gate-chip pass"));
    let first = gate_chips(Some("gerna"));
    assert_eq!(first[0].1, "gate-chip fail");
    assert_eq!(first[2].1, "gate-chip skip");
}

#[test]
fn outcome_reporting() {
    let a = Attempt { n: 1, candidate: "mi klama".to_string(), error: None };
    let o = Outcome::Success { lojban: "mi klama".to_string(), attempts: vec![a], degraded: false };
    assert_eq!(outcome_kind(&o), "success");
    assert_eq!(outcome_attempts(&o).len(), 1);
    let last_error = GateError { kind: GateKind::Syntax, detail: "expected selbri or terms".to_string() };
    let o = Outcome::Exhausted { best: "mi".to_string(), last_error, attempts: vec![], degraded: true };
    assert_eq!(outcome_kind(&o), "exhausted");
    let o = Outcome::ChatFailed { error: "no network".to_string(), attempts: vec![] };
    assert_eq!(outcome_kind(&o), "chat_failed");
    assert!(outcome_attempts(&o).is_empty());
}

#[test]
fn camxes_and_three_gates() {
    assert!(camxes_ok(&vec![Some(true), Some(true)]));
    assert!(!camxes_ok(&vec![Some(true), None]));
    assert!(!camxes_ok(&vec![Some(false)]));
    assert!(three_gate_ok("mi klama", &vec![Some(true)]));
    assert!(!three_gate_ok("mi klama", &vec![Some(false)]));
    assert!(!three_gate_ok("fu do gerku", &vec![Some(true)]));
}

#[test]
fn ui_text_helpers() {
    assert_eq!(tool_summary("{\"q\":1}", "a\nb"), "{\"q\":1} → a b");
    assert_eq!(active_proxy_url(false, " https://proxy "), "");
    assert_eq!(active_proxy_url(true, " https://proxy "), "https://proxy");
    assert_eq!(first_line("one\r\ntwo"), "one");
    assert_eq!(first_line("single"), "single");
}

#[test]
fn trace_rows_from_attempts() {
    let attempts = vec![
        Attempt { n: 1, candidate: "mi 7".to_string(), error: Some(local_gates("mi 7").unwrap_err()) },
        Attempt { n: 2, candidate: "mi klama".to_string(), error: None },
    ];
    let rows = trace_rows(&attempts);
    assert_eq!(rows.len(), 2);
    assert_eq!(rows[0].detail, "gerna: [Syntax Error] unknown word `7`");
    assert!(!rows[0].ok);
    assert_eq!(rows[1].detail, "valid — passed the gates");
    assert!(rows[1].ok);
}
