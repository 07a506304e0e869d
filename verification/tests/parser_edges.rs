//! Where the parser is owed a parse, and where it must refuse.

use fanva::dictionary::get_gloss;
use fanva::gates::validate_kb;
use fanva::lexer::lex;
use fanva::parser::{parse_tokens, Parser, MAX_DEPTH};
use fanva::report::{active_proxy_url, first_line, three_gate_ok};
use fanva::text::{escape_json, kb_lines};

fn parser_for(text: &str) -> Parser {
    Parser::new(lex(text).expect("lexes"))
}

#[test]
fn a_bare_predicate_text_parses() {
    let ast = parse_tokens(lex("klama").expect("lexes")).expect("parses");
    assert_eq!(ast.roots.len(), 1);
    let ast = parse_tokens(lex(".i klama gerku vau").expect("lexes")).expect("parses");
    assert_eq!(ast.roots.len(), 1);
    assert_eq!(ast.selbris.len(), 3);
}

#[test]
fn a_text_that_opens_no_sentence_is_refused() {
    assert!(parse_tokens(Vec::new()).is_err());
    assert!(parse_tokens(lex(".i").expect("lexes")).is_err());
    assert!(parse_tokens(lex("gi klama").expect("lexes")).is_err());
}

#[test]
fn a_sentence_past_the_depth_limit_is_refused() {
    let mut p = parser_for("klama");
    p.depth = MAX_DEPTH;
    assert!(p.parse_sentence().is_err());
    assert_eq!(p.pos, 0);
}

#[test]
fn a_bare_predicate_sentence_ends_past_vau() {
    let mut p = parser_for("klama vau");
    let id = p.parse_sentence().expect("parses");
    assert_eq!(id, 0);
    assert_eq!(p.pos, 2);
    assert_eq!(p.sentences.len(), 1);
}

#[test]
fn a_simple_sentence_needs_an_opening() {
    let mut p = parser_for("gi'e klama");
    assert!(p.parse_simple_sentence().is_err());
    let mut p = parser_for("klama gerku");
    let b = p.parse_simple_sentence().expect("parses");
    assert!(b.head_terms.is_empty());
    assert!(b.tail_terms.is_empty());
    assert_eq!(p.pos, 2);
}

#[test]
fn a_selbri_is_tried_only_where_one_can_start() {
    let mut p = parser_for("mi klama");
    assert!(matches!(p.try_parse_selbri(), Ok(None)));
    assert_eq!(p.pos, 0);
    let mut p = parser_for("klama gerku mi");
    assert!(matches!(p.try_parse_selbri(), Ok(Some(_))));
    assert_eq!(p.pos, 2);
    let mut p = parser_for("na mi");
    assert!(p.try_parse_selbri().is_err());
}

#[test]
fn a_bridi_tail_without_selbri_is_refused() {
    let mut p = parser_for("mi");
    assert!(p.parse_bridi_tail(fanva::ast::Connective::Je, false).is_err());
    let mut p = parser_for("citka");
    let t = p.parse_bridi_tail(fanva::ast::Connective::Je, true).expect("parses");
    assert!(t.right_negated);
    assert_eq!(p.pos, 1);
}

#[test]
fn an_empty_knowledge_base_passes() {
    assert!(validate_kb("").is_ok());
    assert!(validate_kb("# only a note").is_ok());
    assert!(three_gate_ok("", &vec![]));
    assert!(!three_gate_ok("mi klama\n# note", &vec![Some(false)]));
}

#[test]
fn a_structure_word_has_its_gloss() {
    assert_eq!(get_gloss("ro").as_deref(), Some("every"));
    assert_eq!(get_gloss("pu").as_deref(), Some("past tense"));
}

#[test]
fn json_escape_covers_every_control_character() {
    assert_eq!(escape_json("\u{8}"), "\\u0008");
    assert_eq!(escape_json("a\u{1f}b\u{c}"), "a\\u001fb\\u000c");
    assert_eq!(escape_json("\u{7f}é"), "\u{7f}é");
}

#[test]
fn trimming_strips_all_unicode_whitespace() {
    assert_eq!(active_proxy_url(true, "\u{c}"), "");
    assert_eq!(active_proxy_url(true, "\u{a0} http://x \u{3000}"), "http://x");
    assert_eq!(active_proxy_url(false, "http://x"), "");
    assert_eq!(kb_lines("\u{c}\n  mi klama\u{2003}\n\u{85}# c"), vec!["mi klama".to_string()]);
}

#[test]
fn first_line_keeps_a_bare_trailing_carriage_return() {
    assert_eq!(first_line("one\r"), "one\r");
    assert_eq!(first_line("one\r\ntwo"), "one");
    assert_eq!(first_line(""), "");
}

#[test]
fn place_errors_name_the_place_and_the_arity() {
    let e = fanva::gates::local_gates("fu do gerku").unwrap_err();
    assert_eq!(
        e.detail,
        "Place tag `fu` targets place x5, but the selbri only has 2 place(s); the tagged term cannot be placed."
    );
    let e = fanva::gates::local_gates("fe do fe mi klama").unwrap_err();
    assert_eq!(
        e.detail,
        "Place tag `fe` targets place x2, which is already filled; the same place cannot be set twice."
    );
    let e = fanva::gates::local_gates("mi prenu do").unwrap_err();
    assert_eq!(
        e.detail,
        "1 untagged sumti overflow the selbri `prenu`'s 1 place(s); the extra sumti cannot be placed."
    );
}

#[test]
fn a_missing_selbri_is_reported_where_it_is_missing() {
    let e = parse_tokens(Vec::new()).unwrap_err();
    assert_eq!(e.message, "expected selbri or terms");
    assert_eq!(e.position, 0);
    let e = parse_tokens(lex(".i gi").expect("lexes")).unwrap_err();
    assert_eq!(e.message, "expected selbri or terms");
    assert_eq!(e.position, 1);
    let mut p = parser_for("mi");
    let e = p.parse_bridi_tail(fanva::ast::Connective::Je, false).unwrap_err();
    assert_eq!(e.message, "expected selbri after bridi-tail connective");
    assert_eq!(e.position, 0);
    let mut p = parser_for("pu klama");
    let e = p.parse_bridi_tail(fanva::ast::Connective::Je, false).unwrap_err();
    assert!(e.message.starts_with("a tense marker on a GIhA bridi-tail is not supported"));
}

#[test]
fn an_exhausted_run_shows_its_count_and_last_error() {
    let e = fanva::gates::GateError {
        kind: fanva::gates::GateKind::Semantic,
        detail: "untagged overflow".to_string(),
    };
    assert_eq!(
        fanva::report::exhausted_notice(3, &e),
        "Couldn't fully validate after 3 attempts — showing best effort. Last: [Semantic Error] untagged overflow"
    );
}

#[test]
fn settings_and_translation_guards() {
    assert!(fanva::report::save_needs_key("  \u{a0}", false));
    assert!(!fanva::report::save_needs_key("", true));
    assert!(!fanva::report::save_needs_key(" sk-1 ", false));
    assert!(!fanva::report::translate_ready(" \n ", false));
    assert!(!fanva::report::translate_ready("dog", true));
    assert!(fanva::report::translate_ready(" dog ", false));
}

#[test]
fn a_pro_sumti_head_text_parses() {
    let ast = parse_tokens(lex("mi klama").expect("lexes")).expect("parses");
    assert_eq!(ast.roots.len(), 1);
    assert_eq!(ast.sumtis.len(), 1);
    let ast = parse_tokens(lex(".i do cu citka gerku vau").expect("lexes")).expect("parses");
    assert_eq!(ast.roots.len(), 1);
    let mut p = parser_for("mi cu klama gi'e citka");
    assert!(p.parse_simple_sentence().is_ok());
    assert_eq!(p.pos, 3);
}
