//! The system prompt embeds the parser's grammar, and its few-shot examples pass the
//! gates with dictionary vocabulary.

use fanva::dictionary::{get_arity, get_gloss};
use fanva::gates::validate;
use fanva::prompt::{system_prompt, GRAMMAR_EBNF};

#[test]
fn grammar_block_is_gernas_ebnf() {
    assert!(
        system_prompt().contains(GRAMMAR_EBNF),
        "the prompt must embed gerna::GRAMMAR_EBNF verbatim"
    );
}

/// A cmevla (name) is dot-delimited on both sides, e.g. ".adam.".
fn is_cmevla(word: &str) -> bool {
    word.len() > 2 && word.starts_with('.') && word.ends_with('.')
}

#[test]
fn shipped_examples_are_gate_valid() {
    let prompt = system_prompt();
    let examples = prompt
        .split("Examples:")
        .nth(1)
        .expect("the prompt has an Examples section");

    let mut checked = 0;
    let mut missing: Vec<String> = Vec::new();
    for line in examples.lines() {
        let Some((_, rhs)) = line.split_once('→') else {
            continue;
        };
        let text = rhs.trim().trim_matches('"');
        if text.is_empty() {
            continue;
        }
        assert!(
            validate(text).is_ok(),
            "shipped few-shot example is not gate-valid: {text:?} — {:?}",
            validate(text).err()
        );
        for word in text.split_whitespace() {
            if is_cmevla(word) {
                continue;
            }
            let key = word.trim_start_matches('.');
            if get_gloss(key).is_none() && get_arity(key).is_none() {
                missing.push(format!("{word:?} (in {text:?})"));
            }
        }
        checked += 1;
    }

    assert!(
        missing.is_empty(),
        "prompt words absent from the dictionary (add them, or use supported words):\n{}",
        missing.join("\n")
    );
    assert!(checked >= 5, "expected to check the few-shot examples, got {checked}");
}
