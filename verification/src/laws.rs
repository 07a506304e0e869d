//! What the fragment's structure words mean: the logical operator each connective,
//! tense, attitudinal and quantifier compiles to, the place each place tag and
//! conversion names, and which chip marks the failed check. Connectives are stated
//! by their truth tables, over [`truth`].

use vstd::prelude::*;
use crate::ast::{Attitudinal, Bai, Connective, Conversion, PlaceTag, Quantifier, SentenceConnective, Tense, spec_tag_index};
use crate::compile::{
    QuantKind, QuantifierEntry, chain_form, spec_attituded, spec_close_quantifier, spec_conversion_place, spec_join,
    spec_exists_all, spec_forall_all, spec_modal_args, spec_quant_kind, spec_sentence_join, spec_swapped,
    spec_tensed, spec_wrapped, spec_role_name, spec_decimal,
};
use crate::ast::GihaTail;
use crate::form::Term;
use crate::derive::forethought;
use crate::dictionary::{spec_arity, spec_bai_gismu};
use crate::form::LogicalForm;
use crate::lexer::{Cmavo, spec_cmavo_of, spec_cmavo_text};
use crate::parser::{
    spec_attitudinal, spec_bai, spec_conversion, spec_digit, spec_giha, spec_joik, spec_place_tag,
    spec_sumti_connective, spec_tense,
};
use crate::report::{ChipState, spec_chip_class, spec_chip_state, spec_gate_index, spec_gate_name, spec_glyph};

verus! {

/// Whether `f` holds when its truth-functional connectives (`∧ ∨ ↔ ⊕ ¬`) are read by
/// their truth tables and every other formula (a predication, a quantifier, a tense or
/// deontic operator) is given its value by `atom`.
pub open spec fn truth(f: LogicalForm, atom: spec_fn(LogicalForm) -> bool) -> bool
    decreases f,
{
    match f {
        LogicalForm::And(l, r) => truth(*l, atom) && truth(*r, atom),
        LogicalForm::Or(l, r) => truth(*l, atom) || truth(*r, atom),
        LogicalForm::Biconditional(l, r) => truth(*l, atom) == truth(*r, atom),
        LogicalForm::Xor(l, r) => truth(*l, atom) != truth(*r, atom),
        LogicalForm::Not(b) => !truth(*b, atom),
        _ => atom(f),
    }
}

/// The truth table of a logical connective: `je` both, `ja` either, `jo` both or
/// neither, `ju` exactly one.
pub open spec fn connective_table(c: Connective, a: bool, b: bool) -> bool {
    match c {
        Connective::Je => a && b,
        Connective::Ja => a || b,
        Connective::Jo => a == b,
        Connective::Ju => a != b,
    }
}

/// `je`, `ja`, `jo` and `ju` join two formulas into one that holds exactly when both,
/// either, both or neither, and exactly one of them hold.
pub proof fn law_connective_truth(c: Connective, l: LogicalForm, r: LogicalForm, atom: spec_fn(LogicalForm) -> bool)
    ensures
        truth(spec_join(Connective::Je, l, r), atom) == (truth(l, atom) && truth(r, atom)),
        truth(spec_join(Connective::Ja, l, r), atom) == (truth(l, atom) || truth(r, atom)),
        truth(spec_join(Connective::Jo, l, r), atom) == (truth(l, atom) == truth(r, atom)),
        truth(spec_join(Connective::Ju, l, r), atom) == (truth(l, atom) != truth(r, atom)),
        truth(spec_join(c, l, r), atom) == connective_table(c, truth(l, atom), truth(r, atom)),
{
}

/// The sentence connectives: `ganai a gi b` holds when `a` implies `b`, `ge a gi b`
/// when both hold, `ga a gi b` when either holds, `go a gi b` when both or neither
/// hold; an afterthought `.i` connective joins its sides by its truth table, each side
/// negated when its `nai` marks it.
pub proof fn law_sentence_connective_truth(
    l: LogicalForm,
    r: LogicalForm,
    atom: spec_fn(LogicalForm) -> bool,
    left_negated: bool,
    c: Connective,
    right_negated: bool,
)
    ensures
        truth(spec_sentence_join(SentenceConnective::GanaiGi, l, r), atom) == (truth(l, atom) ==> truth(r, atom)),
        truth(spec_sentence_join(SentenceConnective::GeGi, l, r), atom) == (truth(l, atom) && truth(r, atom)),
        truth(spec_sentence_join(SentenceConnective::GaGi, l, r), atom) == (truth(l, atom) || truth(r, atom)),
        truth(spec_sentence_join(SentenceConnective::GoGi, l, r), atom) == (truth(l, atom) == truth(r, atom)),
        truth(
            spec_sentence_join(SentenceConnective::Afterthought { left_negated, connective: c, right_negated }, l, r),
            atom,
        ) == connective_table(c, truth(l, atom) != left_negated, truth(r, atom) != right_negated),
{
    reveal_with_fuel(truth, 3);
}

/// The forethought cmavo each open their own connective: `ganai` the conditional, `ge`
/// the conjunction, `ga` the disjunction, `go` the biconditional; no other cmavo opens
/// one.
pub proof fn law_forethought_words(c: Cmavo)
    ensures
        forethought(Some(c)) == Some(SentenceConnective::GanaiGi) <==> c == Cmavo::Ganai,
        forethought(Some(c)) == Some(SentenceConnective::GeGi) <==> c == Cmavo::Ge,
        forethought(Some(c)) == Some(SentenceConnective::GaGi) <==> c == Cmavo::Ga,
        forethought(Some(c)) == Some(SentenceConnective::GoGi) <==> c == Cmavo::Go,
        forethought(Some(c)) is Some ==> !(forethought(Some(c)) matches Some(
            SentenceConnective::Afterthought { .. },
        )),
{
}

/// The connective cmavo after `.i` (`je ja jo ju`), the sumti connectives
/// (`.e .a .o .u`) and the GIhA connectives each name the connective of their own
/// vowel, the GIhA forms with `nai` fused negating their right side.
pub proof fn law_connective_words(c: Cmavo, k: Connective)
    ensures
        spec_joik(c) == Some(Connective::Je) <==> c == Cmavo::Je,
        spec_joik(c) == Some(Connective::Ja) <==> c == Cmavo::Ja,
        spec_joik(c) == Some(Connective::Jo) <==> c == Cmavo::Jo,
        spec_joik(c) == Some(Connective::Ju) <==> c == Cmavo::Ju,
        spec_sumti_connective(c) == Some(Connective::Je) <==> c == Cmavo::E,
        spec_sumti_connective(c) == Some(Connective::Ja) <==> c == Cmavo::A,
        spec_sumti_connective(c) == Some(Connective::Jo) <==> c == Cmavo::O,
        spec_sumti_connective(c) == Some(Connective::Ju) <==> c == Cmavo::U,
        spec_giha(c) == Some((Connective::Je, false)) <==> c == Cmavo::Gihe,
        spec_giha(c) == Some((Connective::Ja, false)) <==> c == Cmavo::Giha,
        spec_giha(c) == Some((Connective::Jo, false)) <==> c == Cmavo::Giho,
        spec_giha(c) == Some((Connective::Ju, false)) <==> c == Cmavo::Gihu,
        spec_giha(c) == Some((Connective::Je, true)) <==> c == Cmavo::Gihenai,
        spec_giha(c) == Some((Connective::Ja, true)) <==> c == Cmavo::Gihanai,
        spec_giha(c) == Some((Connective::Jo, true)) <==> c == Cmavo::Gihonai,
        spec_giha(c) == Some((Connective::Ju, true)) <==> c == Cmavo::Gihunai,
{
}

/// The tense cmavo each wrap the untensed formula in their own operator: `pu` past,
/// `ca` present, `ba` future; no other cmavo is a tense, and no tense leaves the formula
/// as it is.
pub proof fn law_tense_words(c: Cmavo, m: LogicalForm)
    ensures
        (spec_tense(c) is Some && spec_tensed(spec_tense(c), m) == LogicalForm::Past(Box::new(m))) <==> c == Cmavo::Pu,
        (spec_tense(c) is Some && spec_tensed(spec_tense(c), m) == LogicalForm::Present(Box::new(m))) <==> c
            == Cmavo::Ca,
        (spec_tense(c) is Some && spec_tensed(spec_tense(c), m) == LogicalForm::Future(Box::new(m))) <==> c
            == Cmavo::Ba,
        spec_tense(c) is None ==> spec_tensed(spec_tense(c), m) == m,
        spec_tense(c) is Some ==> spec_tensed(spec_tense(c), m) != m,
{
    if spec_tense(c) is Some {
        lemma_wrapper_not_self(spec_tensed(spec_tense(c), m), m);
    }
}

/// The attitudinal cmavo each wrap the formula in their own deontic operator: `ei`
/// obligation, `e'e` permission; no other cmavo is one.
pub proof fn law_attitudinal_words(c: Cmavo, m: LogicalForm)
    ensures
        (spec_attitudinal(c) is Some && spec_attituded(spec_attitudinal(c), m) == LogicalForm::Obligatory(
            Box::new(m),
        )) <==> c == Cmavo::Ei,
        (spec_attitudinal(c) is Some && spec_attituded(spec_attitudinal(c), m) == LogicalForm::Permitted(
            Box::new(m),
        )) <==> c == Cmavo::Ehe,
        spec_attitudinal(c) is None ==> spec_attituded(spec_attitudinal(c), m) == m,
{
}

/// A formula wrapped in one more operator is a different formula.
proof fn lemma_wrapper_not_self(w: LogicalForm, m: LogicalForm)
    requires
        w == LogicalForm::Past(Box::new(m)) || w == LogicalForm::Present(Box::new(m)) || w == LogicalForm::Future(
            Box::new(m),
        ),
    ensures
        w != m,
{
    if w == m {
        match w {
            LogicalForm::Past(b) => assert(decreases_to!(w => *b)),
            LogicalForm::Present(b) => assert(decreases_to!(w => *b)),
            LogicalForm::Future(b) => assert(decreases_to!(w => *b)),
            _ => {},
        }
    }
}

/// How a predication's wrappers stack: `na` negates the matrix; a tense (`pu`, `ca`,
/// `ba`: past, present, future) wraps the negated matrix; an attitudinal (`ei`, `e'e`:
/// obligatory, permitted) wraps the tensed one.
pub proof fn law_bridi_wrappers(
    negated: bool,
    t: Option<Tense>,
    a: Option<Attitudinal>,
    m: LogicalForm,
    atom: spec_fn(LogicalForm) -> bool,
)
    ensures
        spec_wrapped(false, None, None, m) == m,
        truth(spec_wrapped(true, None, None, m), atom) == !truth(m, atom),
        spec_wrapped(true, None, None, m) == LogicalForm::Not(Box::new(m)),
        spec_wrapped(negated, Some(Tense::Pu), None, m) == LogicalForm::Past(
            Box::new(spec_wrapped(negated, None, None, m)),
        ),
        spec_wrapped(negated, Some(Tense::Ca), None, m) == LogicalForm::Present(
            Box::new(spec_wrapped(negated, None, None, m)),
        ),
        spec_wrapped(negated, Some(Tense::Ba), None, m) == LogicalForm::Future(
            Box::new(spec_wrapped(negated, None, None, m)),
        ),
        spec_wrapped(negated, t, Some(Attitudinal::Ei), m) == LogicalForm::Obligatory(
            Box::new(spec_wrapped(negated, t, None, m)),
        ),
        spec_wrapped(negated, t, Some(Attitudinal::Ehe), m) == LogicalForm::Permitted(
            Box::new(spec_wrapped(negated, t, None, m)),
        ),
{
}

/// A description's quantifier closes around the formula it scopes: a plain `lo`
/// binds its variable existentially to a formula true when the restrictor and the body
/// both hold; `ro lo` binds it universally to a formula true when the restrictor implies
/// the body, so values outside the restrictor satisfy it vacuously; `<n> lo` counts the
/// values for which both hold, exactly `n` of them.
pub proof fn law_close_quantifier(e: QuantifierEntry, body: LogicalForm, atom: spec_fn(LogicalForm) -> bool)
    ensures
        e.kind == QuantKind::Existential ==> (spec_close_quantifier(e, body) matches LogicalForm::Exists(v, inner)
            && v == e.var && truth(*inner, atom) == (truth(e.restrictor, atom) && truth(body, atom))),
        e.kind == QuantKind::Universal ==> (spec_close_quantifier(e, body) matches LogicalForm::ForAll(v, inner)
            && v == e.var && truth(*inner, atom) == (truth(e.restrictor, atom) ==> truth(body, atom))),
        e.kind matches QuantKind::Count(n) ==> (spec_close_quantifier(e, body) matches LogicalForm::Count {
            var,
            count,
            body: inner,
        } && var == e.var && count == n && truth(*inner, atom) == (truth(e.restrictor, atom) && truth(body, atom))),
{
    reveal_with_fuel(truth, 3);
}

/// A description without a quantifier is existential, `ro` universal, and a number
/// counts exactly that many.
pub proof fn law_quantifier_kinds(n: u32)
    ensures
        spec_quant_kind(None) == QuantKind::Existential,
        spec_quant_kind(Some(Quantifier::Ro)) == QuantKind::Universal,
        spec_quant_kind(Some(Quantifier::Number(n))) == QuantKind::Count(n),
{
}

/// The place tags `fa fe fi fo fu` name places x1 to x5, in that order.
pub proof fn law_place_tag_words(c: Cmavo)
    ensures
        (spec_place_tag(c) is Some && spec_tag_index(spec_place_tag(c)->0) == 0) <==> c == Cmavo::Fa,
        (spec_place_tag(c) is Some && spec_tag_index(spec_place_tag(c)->0) == 1) <==> c == Cmavo::Fe,
        (spec_place_tag(c) is Some && spec_tag_index(spec_place_tag(c)->0) == 2) <==> c == Cmavo::Fi,
        (spec_place_tag(c) is Some && spec_tag_index(spec_place_tag(c)->0) == 3) <==> c == Cmavo::Fo,
        (spec_place_tag(c) is Some && spec_tag_index(spec_place_tag(c)->0) == 4) <==> c == Cmavo::Fu,
        spec_place_tag(c) is Some ==> spec_tag_index(spec_place_tag(c)->0) < 5,
{
}

/// The conversions `se te ve xe` swap the first place with places x2 to x5, in that
/// order.
pub proof fn law_conversion_words(c: Cmavo)
    ensures
        (spec_conversion(c) is Some && spec_conversion_place(spec_conversion(c)->0) == 1) <==> c == Cmavo::Se,
        (spec_conversion(c) is Some && spec_conversion_place(spec_conversion(c)->0) == 2) <==> c == Cmavo::Te,
        (spec_conversion(c) is Some && spec_conversion_place(spec_conversion(c)->0) == 3) <==> c == Cmavo::Ve,
        (spec_conversion(c) is Some && spec_conversion_place(spec_conversion(c)->0) == 4) <==> c == Cmavo::Xe,
{
}

/// The digit cmavo `no pa re ci vo mu xa ze bi so` stand for 0 to 9, in that order.
pub proof fn law_digit_words(c: Cmavo)
    ensures
        spec_digit(c) == Some(0u32) <==> c == Cmavo::No,
        spec_digit(c) == Some(1u32) <==> c == Cmavo::Pa,
        spec_digit(c) == Some(2u32) <==> c == Cmavo::Re,
        spec_digit(c) == Some(3u32) <==> c == Cmavo::Ci,
        spec_digit(c) == Some(4u32) <==> c == Cmavo::Vo,
        spec_digit(c) == Some(5u32) <==> c == Cmavo::Mu,
        spec_digit(c) == Some(6u32) <==> c == Cmavo::Xa,
        spec_digit(c) == Some(7u32) <==> c == Cmavo::Ze,
        spec_digit(c) == Some(8u32) <==> c == Cmavo::Bi,
        spec_digit(c) == Some(9u32) <==> c == Cmavo::So,
        spec_digit(c) matches Some(d) ==> d < 10,
{
}

/// The BAI modals each stand for their own predicate: `ri'a` cause (`rinka`), `ki'u`
/// reason (`krinu`), `pi'o` tool (`pilno`), `mu'i` motive (`mukti`), `gau` agent
/// (`gasnu`).
pub proof fn law_bai_words(c: Cmavo)
    ensures
        (spec_bai(c) is Some && spec_bai_gismu(spec_bai(c)->0) == "rinka"@) <==> c == Cmavo::Riha,
        (spec_bai(c) is Some && spec_bai_gismu(spec_bai(c)->0) == "krinu"@) <==> c == Cmavo::Kihu,
        (spec_bai(c) is Some && spec_bai_gismu(spec_bai(c)->0) == "pilno"@) <==> c == Cmavo::Piho,
        (spec_bai(c) is Some && spec_bai_gismu(spec_bai(c)->0) == "mukti"@) <==> c == Cmavo::Muhi,
        (spec_bai(c) is Some && spec_bai_gismu(spec_bai(c)->0) == "gasnu"@) <==> c == Cmavo::Gau,
{
    reveal_strlit("rinka");
    reveal_strlit("krinu");
    reveal_strlit("pilno");
    reveal_strlit("mukti");
    reveal_strlit("gasnu");
    assert("rinka"@[0] == 'r' && "krinu"@[0] == 'k' && "pilno"@[0] == 'p' && "mukti"@[0] == 'm'
        && "gasnu"@[0] == 'g');
}

/// The tense and attitudinal words read as the cmavo of their own meaning: `pu`, `ca`
/// and `ba` as the past, present and future tenses, `ei` and `e'e` as obligation and
/// permission, `ro` as the universal quantifier; each spells back as itself.
pub proof fn law_tense_spellings()
    ensures
        spec_cmavo_of("pu"@) == Some(Cmavo::Pu) && spec_tense(Cmavo::Pu) == Some(Tense::Pu),
        spec_cmavo_of("ca"@) == Some(Cmavo::Ca) && spec_tense(Cmavo::Ca) == Some(Tense::Ca),
        spec_cmavo_of("ba"@) == Some(Cmavo::Ba) && spec_tense(Cmavo::Ba) == Some(Tense::Ba),
        spec_cmavo_of("ei"@) == Some(Cmavo::Ei) && spec_attitudinal(Cmavo::Ei) == Some(Attitudinal::Ei),
        spec_cmavo_of("e'e"@) == Some(Cmavo::Ehe) && spec_attitudinal(Cmavo::Ehe) == Some(Attitudinal::Ehe),
        spec_cmavo_of("ro"@) == Some(Cmavo::Ro),
        spec_cmavo_text(Cmavo::Pu) == "pu"@ && spec_cmavo_text(Cmavo::Ca) == "ca"@ && spec_cmavo_text(Cmavo::Ba)
            == "ba"@,
        spec_cmavo_text(Cmavo::Ei) == "ei"@ && spec_cmavo_text(Cmavo::Ehe) == "e'e"@ && spec_cmavo_text(Cmavo::Ro)
            == "ro"@,
{
    law_cmavo_spellings(Cmavo::Pu);
}

/// The chips mark a failure in the fail-fast order `gerna`, `smuni`, `camxes`:
/// each gate has its own position; when gate `i` failed, the gates before it passed, it
/// failed and the later ones were skipped; with no failure all passed. The three states
/// show three different glyphs and style classes, the failed one marked `✗` and
/// `gate-chip fail`.
pub proof fn law_gate_chips(i: nat, j: nat)
    requires
        i < 3,
        j < 3,
    ensures
        spec_gate_index(spec_gate_name(i)) == Some(i),
        i != j ==> spec_gate_name(i) != spec_gate_name(j),
        spec_chip_state(Some(spec_gate_name(i)), j) == if j < i {
            ChipState::Pass
        } else if j == i {
            ChipState::Fail
        } else {
            ChipState::Skip
        },
        spec_chip_state(None, j) == ChipState::Pass,
        spec_glyph(ChipState::Fail) == "✗"@,
        spec_chip_class(ChipState::Fail) == "gate-chip fail"@,
        spec_glyph(ChipState::Pass) != spec_glyph(ChipState::Fail),
        spec_glyph(ChipState::Pass) != spec_glyph(ChipState::Skip),
        spec_glyph(ChipState::Fail) != spec_glyph(ChipState::Skip),
        spec_chip_class(ChipState::Pass) != spec_chip_class(ChipState::Fail),
        spec_chip_class(ChipState::Pass) != spec_chip_class(ChipState::Skip),
        spec_chip_class(ChipState::Fail) != spec_chip_class(ChipState::Skip),
{
    reveal_strlit("gerna");
    reveal_strlit("smuni");
    reveal_strlit("camxes");
    assert("gerna"@[0] == 'g' && "smuni"@[0] == 's' && "camxes"@[0] == 'c');
    reveal_strlit("✓");
    reveal_strlit("✗");
    reveal_strlit("·");
    assert("✓"@[0] != "✗"@[0] && "✓"@[0] != "·"@[0] && "✗"@[0] != "·"@[0]);
    reveal_strlit("gate-chip pass");
    reveal_strlit("gate-chip fail");
    reveal_strlit("gate-chip skip");
    assert("gate-chip pass"@[10] == 'p' && "gate-chip fail"@[10] == 'f' && "gate-chip skip"@[10] == 's');
}

/// A conversion swaps the first place with place `k`: the converted argument list has
/// the old place `k` (unfilled when there was none) first and the old first place at
/// `k`, every other place as it was, and at least `k + 1` places.
pub proof fn law_conversion_swaps(args: Seq<Term>, k: int, j: int)
    requires
        1 <= k,
        args.len() > 0,
    ensures
        spec_swapped(args, k).len() == if args.len() > k {
            args.len() as int
        } else {
            k + 1
        },
        spec_swapped(args, k)[0] == if k < args.len() {
            args[k]
        } else {
            Term::Unspecified
        },
        spec_swapped(args, k)[k] == args[0],
        0 < j < args.len() && j != k ==> spec_swapped(args, k)[j] == args[j],
        args.len() <= j < k ==> spec_swapped(args, k)[j] == Term::Unspecified,
{
}

/// A modal predicate takes the tagged sumti as its x1, the main bridi's x1 as its x2,
/// and leaves its other places unfilled.
pub proof fn law_modal_places(tagged: Term, x1: Term, arity: nat, j: int)
    requires
        arity >= 2,
    ensures
        spec_modal_args(tagged, x1, arity).len() == arity,
        spec_modal_args(tagged, x1, arity)[0] == tagged,
        spec_modal_args(tagged, x1, arity)[1] == x1,
        2 <= j < arity ==> spec_modal_args(tagged, x1, arity)[j] == Term::Unspecified,
{
}

/// A GIhA chain holds as its tails join it, left to right: the chain up to tail `n`
/// holds when the chain before it and the `n`-th branch (negated by a `nai` on its
/// connective) satisfy that tail's connective, by its truth table.
pub proof fn law_giha_chain_truth(
    branches: Seq<LogicalForm>,
    tails: Seq<GihaTail>,
    n: int,
    atom: spec_fn(LogicalForm) -> bool,
)
    requires
        0 < n,
    ensures
        truth(chain_form(branches, tails, n), atom) == connective_table(
            tails[n - 1].connective,
            truth(chain_form(branches, tails, n - 1), atom),
            truth(branches[n], atom) != tails[n - 1].right_negated,
        ),
        truth(chain_form(branches, tails, 0), atom) == truth(branches[0], atom),
{
    let a = chain_form(branches, tails, n - 1);
    let b = if tails[n - 1].right_negated {
        LogicalForm::Not(Box::new(branches[n]))
    } else {
        branches[n]
    };
    law_connective_truth(tails[n - 1].connective, a, b, atom);
}

/// A prenex binds its variables universally, the first outermost: the formula is a
/// `∀` over the first variable of one over the rest.
pub proof fn law_prenex_universal(vars: Seq<u32>, f: LogicalForm)
    ensures
        vars.len() == 0 ==> spec_forall_all(vars, f) == f,
        vars.len() > 0 ==> (spec_forall_all(vars, f) matches LogicalForm::ForAll(v, inner) && v == vars[0]
            && *inner == spec_forall_all(vars.drop_first(), f)),
{
}

/// Leftover variables close existentially, the last outermost: the formula is an `∃`
/// over the last variable of one over the others.
pub proof fn law_residual_existential(vs: Seq<u32>, f: LogicalForm)
    ensures
        vs.len() == 0 ==> spec_exists_all(vs, f) == f,
        vs.len() > 0 ==> (spec_exists_all(vs, f) matches LogicalForm::Exists(v, inner) && v == vs.last()
            && *inner == spec_exists_all(vs.drop_last(), f)),
{
}

/// The forethought words read as the cmavo of their own connective: `ganai` the
/// conditional, `ge` the conjunction, `ga` the disjunction, `go` the biconditional.
pub proof fn law_forethought_spellings()
    ensures
        forethought(spec_cmavo_of("ganai"@)) == Some(SentenceConnective::GanaiGi),
        forethought(spec_cmavo_of("ge"@)) == Some(SentenceConnective::GeGi),
        forethought(spec_cmavo_of("ga"@)) == Some(SentenceConnective::GaGi),
        forethought(spec_cmavo_of("go"@)) == Some(SentenceConnective::GoGi),
{
    law_cmavo_spellings(Cmavo::Pu);
}

/// Each cmavo of the fragment is read from its own spelling: the lexer's table, word by
/// word, and every cmavo spells back as itself.
#[verifier::rlimit(100)]
pub proof fn law_cmavo_spellings(c: Cmavo)
    ensures
        spec_cmavo_of("pu"@) == Some(Cmavo::Pu),
        spec_cmavo_of("ca"@) == Some(Cmavo::Ca),
        spec_cmavo_of("ba"@) == Some(Cmavo::Ba),
        spec_cmavo_of("ei"@) == Some(Cmavo::Ei),
        spec_cmavo_of("e'e"@) == Some(Cmavo::Ehe),
        spec_cmavo_of("ro"@) == Some(Cmavo::Ro),
        spec_cmavo_of("da"@) == Some(Cmavo::Da),
        spec_cmavo_of("de"@) == Some(Cmavo::De),
        spec_cmavo_of("di"@) == Some(Cmavo::Di),
        spec_cmavo_of("zo'u"@) == Some(Cmavo::Zohu),
        spec_cmavo_of("ganai"@) == Some(Cmavo::Ganai),
        spec_cmavo_of("ge"@) == Some(Cmavo::Ge),
        spec_cmavo_of("ga"@) == Some(Cmavo::Ga),
        spec_cmavo_of("go"@) == Some(Cmavo::Go),
        spec_cmavo_of("gi"@) == Some(Cmavo::Gi),
        spec_cmavo_of("gi'e"@) == Some(Cmavo::Gihe),
        spec_cmavo_of("gi'a"@) == Some(Cmavo::Giha),
        spec_cmavo_of("gi'o"@) == Some(Cmavo::Giho),
        spec_cmavo_of("gi'u"@) == Some(Cmavo::Gihu),
        spec_cmavo_of("gi'enai"@) == Some(Cmavo::Gihenai),
        spec_cmavo_of("gi'anai"@) == Some(Cmavo::Gihanai),
        spec_cmavo_of("gi'onai"@) == Some(Cmavo::Gihonai),
        spec_cmavo_of("gi'unai"@) == Some(Cmavo::Gihunai),
        spec_cmavo_of("nai"@) == Some(Cmavo::Nai),
        spec_cmavo_of("cu"@) == Some(Cmavo::Cu),
        spec_cmavo_of("vau"@) == Some(Cmavo::Vau),
        spec_cmavo_of("na"@) == Some(Cmavo::Na),
        spec_cmavo_of("se"@) == Some(Cmavo::Se),
        spec_cmavo_of("te"@) == Some(Cmavo::Te),
        spec_cmavo_of("ve"@) == Some(Cmavo::Ve),
        spec_cmavo_of("xe"@) == Some(Cmavo::Xe),
        spec_cmavo_of("lo"@) == Some(Cmavo::Lo),
        spec_cmavo_of("le"@) == Some(Cmavo::Le),
        spec_cmavo_of("la"@) == Some(Cmavo::La),
        spec_cmavo_of("ku"@) == Some(Cmavo::Ku),
        spec_cmavo_of("poi"@) == Some(Cmavo::Poi),
        spec_cmavo_of("noi"@) == Some(Cmavo::Noi),
        spec_cmavo_of("ku'o"@) == Some(Cmavo::Kuho),
        spec_cmavo_of("nu"@) == Some(Cmavo::Nu),
        spec_cmavo_of("kei"@) == Some(Cmavo::Kei),
        spec_cmavo_of("fa"@) == Some(Cmavo::Fa),
        spec_cmavo_of("fe"@) == Some(Cmavo::Fe),
        spec_cmavo_of("fi"@) == Some(Cmavo::Fi),
        spec_cmavo_of("fo"@) == Some(Cmavo::Fo),
        spec_cmavo_of("fu"@) == Some(Cmavo::Fu),
        spec_cmavo_of("fi'o"@) == Some(Cmavo::Fiho),
        spec_cmavo_of("fe'u"@) == Some(Cmavo::Fehu),
        spec_cmavo_of("ri'a"@) == Some(Cmavo::Riha),
        spec_cmavo_of("ki'u"@) == Some(Cmavo::Kihu),
        spec_cmavo_of("pi'o"@) == Some(Cmavo::Piho),
        spec_cmavo_of("mu'i"@) == Some(Cmavo::Muhi),
        spec_cmavo_of("gau"@) == Some(Cmavo::Gau),
        spec_cmavo_of("i"@) == Some(Cmavo::I),
        spec_cmavo_of("je"@) == Some(Cmavo::Je),
        spec_cmavo_of("ja"@) == Some(Cmavo::Ja),
        spec_cmavo_of("jo"@) == Some(Cmavo::Jo),
        spec_cmavo_of("ju"@) == Some(Cmavo::Ju),
        spec_cmavo_of("e"@) == Some(Cmavo::E),
        spec_cmavo_of("a"@) == Some(Cmavo::A),
        spec_cmavo_of("o"@) == Some(Cmavo::O),
        spec_cmavo_of("u"@) == Some(Cmavo::U),
        spec_cmavo_of("mi"@) == Some(Cmavo::Mi),
        spec_cmavo_of("do"@) == Some(Cmavo::Do),
        spec_cmavo_of("ko'a"@) == Some(Cmavo::Koha),
        spec_cmavo_of("ko'e"@) == Some(Cmavo::Kohe),
        spec_cmavo_of("ko'i"@) == Some(Cmavo::Kohi),
        spec_cmavo_of("ti"@) == Some(Cmavo::Ti),
        spec_cmavo_of("ta"@) == Some(Cmavo::Ta),
        spec_cmavo_of("tu"@) == Some(Cmavo::Tu),
        spec_cmavo_of("ke'a"@) == Some(Cmavo::Keha),
        spec_cmavo_of("li"@) == Some(Cmavo::Li),
        spec_cmavo_of("zo"@) == Some(Cmavo::Zo),
        spec_cmavo_of("no"@) == Some(Cmavo::No),
        spec_cmavo_of("pa"@) == Some(Cmavo::Pa),
        spec_cmavo_of("re"@) == Some(Cmavo::Re),
        spec_cmavo_of("ci"@) == Some(Cmavo::Ci),
        spec_cmavo_of("vo"@) == Some(Cmavo::Vo),
        spec_cmavo_of("mu"@) == Some(Cmavo::Mu),
        spec_cmavo_of("xa"@) == Some(Cmavo::Xa),
        spec_cmavo_of("ze"@) == Some(Cmavo::Ze),
        spec_cmavo_of("bi"@) == Some(Cmavo::Bi),
        spec_cmavo_of("so"@) == Some(Cmavo::So),
        spec_cmavo_of(spec_cmavo_text(c)) == Some(c),
{
    reveal_strlit("pu");
    assert("pu"@[0] == 'p' && "pu"@[1] == 'u' && "pu"@.len() == 2);
    reveal_strlit("ca");
    assert("ca"@[0] == 'c' && "ca"@[1] == 'a' && "ca"@.len() == 2);
    reveal_strlit("ba");
    assert("ba"@[0] == 'b' && "ba"@[1] == 'a' && "ba"@.len() == 2);
    reveal_strlit("ei");
    assert("ei"@[0] == 'e' && "ei"@[1] == 'i' && "ei"@.len() == 2);
    reveal_strlit("e'e");
    assert("e'e"@[0] == 'e' && "e'e"@[1] == '\'' && "e'e"@[2] == 'e' && "e'e"@.len() == 3);
    reveal_strlit("ro");
    assert("ro"@[0] == 'r' && "ro"@[1] == 'o' && "ro"@.len() == 2);
    reveal_strlit("da");
    assert("da"@[0] == 'd' && "da"@[1] == 'a' && "da"@.len() == 2);
    reveal_strlit("de");
    assert("de"@[0] == 'd' && "de"@[1] == 'e' && "de"@.len() == 2);
    reveal_strlit("di");
    assert("di"@[0] == 'd' && "di"@[1] == 'i' && "di"@.len() == 2);
    reveal_strlit("zo'u");
    assert("zo'u"@[0] == 'z' && "zo'u"@[1] == 'o' && "zo'u"@[2] == '\'' && "zo'u"@[3] == 'u' && "zo'u"@.len() == 4);
    reveal_strlit("ganai");
    assert("ganai"@[0] == 'g' && "ganai"@[1] == 'a' && "ganai"@[2] == 'n' && "ganai"@[3] == 'a' && "ganai"@[4] == 'i' && "ganai"@.len() == 5);
    reveal_strlit("ge");
    assert("ge"@[0] == 'g' && "ge"@[1] == 'e' && "ge"@.len() == 2);
    reveal_strlit("ga");
    assert("ga"@[0] == 'g' && "ga"@[1] == 'a' && "ga"@.len() == 2);
    reveal_strlit("go");
    assert("go"@[0] == 'g' && "go"@[1] == 'o' && "go"@.len() == 2);
    reveal_strlit("gi");
    assert("gi"@[0] == 'g' && "gi"@[1] == 'i' && "gi"@.len() == 2);
    reveal_strlit("gi'e");
    assert("gi'e"@[0] == 'g' && "gi'e"@[1] == 'i' && "gi'e"@[2] == '\'' && "gi'e"@[3] == 'e' && "gi'e"@.len() == 4);
    reveal_strlit("gi'a");
    assert("gi'a"@[0] == 'g' && "gi'a"@[1] == 'i' && "gi'a"@[2] == '\'' && "gi'a"@[3] == 'a' && "gi'a"@.len() == 4);
    reveal_strlit("gi'o");
    assert("gi'o"@[0] == 'g' && "gi'o"@[1] == 'i' && "gi'o"@[2] == '\'' && "gi'o"@[3] == 'o' && "gi'o"@.len() == 4);
    reveal_strlit("gi'u");
    assert("gi'u"@[0] == 'g' && "gi'u"@[1] == 'i' && "gi'u"@[2] == '\'' && "gi'u"@[3] == 'u' && "gi'u"@.len() == 4);
    reveal_strlit("gi'enai");
    assert("gi'enai"@[0] == 'g' && "gi'enai"@[1] == 'i' && "gi'enai"@[2] == '\'' && "gi'enai"@[3] == 'e' && "gi'enai"@[4] == 'n' && "gi'enai"@[5] == 'a' && "gi'enai"@[6] == 'i' && "gi'enai"@.len() == 7);
    reveal_strlit("gi'anai");
    assert("gi'anai"@[0] == 'g' && "gi'anai"@[1] == 'i' && "gi'anai"@[2] == '\'' && "gi'anai"@[3] == 'a' && "gi'anai"@[4] == 'n' && "gi'anai"@[5] == 'a' && "gi'anai"@[6] == 'i' && "gi'anai"@.len() == 7);
    reveal_strlit("gi'onai");
    assert("gi'onai"@[0] == 'g' && "gi'onai"@[1] == 'i' && "gi'onai"@[2] == '\'' && "gi'onai"@[3] == 'o' && "gi'onai"@[4] == 'n' && "gi'onai"@[5] == 'a' && "gi'onai"@[6] == 'i' && "gi'onai"@.len() == 7);
    reveal_strlit("gi'unai");
    assert("gi'unai"@[0] == 'g' && "gi'unai"@[1] == 'i' && "gi'unai"@[2] == '\'' && "gi'unai"@[3] == 'u' && "gi'unai"@[4] == 'n' && "gi'unai"@[5] == 'a' && "gi'unai"@[6] == 'i' && "gi'unai"@.len() == 7);
    reveal_strlit("nai");
    assert("nai"@[0] == 'n' && "nai"@[1] == 'a' && "nai"@[2] == 'i' && "nai"@.len() == 3);
    reveal_strlit("cu");
    assert("cu"@[0] == 'c' && "cu"@[1] == 'u' && "cu"@.len() == 2);
    reveal_strlit("vau");
    assert("vau"@[0] == 'v' && "vau"@[1] == 'a' && "vau"@[2] == 'u' && "vau"@.len() == 3);
    reveal_strlit("na");
    assert("na"@[0] == 'n' && "na"@[1] == 'a' && "na"@.len() == 2);
    reveal_strlit("se");
    assert("se"@[0] == 's' && "se"@[1] == 'e' && "se"@.len() == 2);
    reveal_strlit("te");
    assert("te"@[0] == 't' && "te"@[1] == 'e' && "te"@.len() == 2);
    reveal_strlit("ve");
    assert("ve"@[0] == 'v' && "ve"@[1] == 'e' && "ve"@.len() == 2);
    reveal_strlit("xe");
    assert("xe"@[0] == 'x' && "xe"@[1] == 'e' && "xe"@.len() == 2);
    reveal_strlit("lo");
    assert("lo"@[0] == 'l' && "lo"@[1] == 'o' && "lo"@.len() == 2);
    reveal_strlit("le");
    assert("le"@[0] == 'l' && "le"@[1] == 'e' && "le"@.len() == 2);
    reveal_strlit("la");
    assert("la"@[0] == 'l' && "la"@[1] == 'a' && "la"@.len() == 2);
    reveal_strlit("ku");
    assert("ku"@[0] == 'k' && "ku"@[1] == 'u' && "ku"@.len() == 2);
    reveal_strlit("poi");
    assert("poi"@[0] == 'p' && "poi"@[1] == 'o' && "poi"@[2] == 'i' && "poi"@.len() == 3);
    reveal_strlit("noi");
    assert("noi"@[0] == 'n' && "noi"@[1] == 'o' && "noi"@[2] == 'i' && "noi"@.len() == 3);
    reveal_strlit("ku'o");
    assert("ku'o"@[0] == 'k' && "ku'o"@[1] == 'u' && "ku'o"@[2] == '\'' && "ku'o"@[3] == 'o' && "ku'o"@.len() == 4);
    reveal_strlit("nu");
    assert("nu"@[0] == 'n' && "nu"@[1] == 'u' && "nu"@.len() == 2);
    reveal_strlit("kei");
    assert("kei"@[0] == 'k' && "kei"@[1] == 'e' && "kei"@[2] == 'i' && "kei"@.len() == 3);
    reveal_strlit("fa");
    assert("fa"@[0] == 'f' && "fa"@[1] == 'a' && "fa"@.len() == 2);
    reveal_strlit("fe");
    assert("fe"@[0] == 'f' && "fe"@[1] == 'e' && "fe"@.len() == 2);
    reveal_strlit("fi");
    assert("fi"@[0] == 'f' && "fi"@[1] == 'i' && "fi"@.len() == 2);
    reveal_strlit("fo");
    assert("fo"@[0] == 'f' && "fo"@[1] == 'o' && "fo"@.len() == 2);
    reveal_strlit("fu");
    assert("fu"@[0] == 'f' && "fu"@[1] == 'u' && "fu"@.len() == 2);
    reveal_strlit("fi'o");
    assert("fi'o"@[0] == 'f' && "fi'o"@[1] == 'i' && "fi'o"@[2] == '\'' && "fi'o"@[3] == 'o' && "fi'o"@.len() == 4);
    reveal_strlit("fe'u");
    assert("fe'u"@[0] == 'f' && "fe'u"@[1] == 'e' && "fe'u"@[2] == '\'' && "fe'u"@[3] == 'u' && "fe'u"@.len() == 4);
    reveal_strlit("ri'a");
    assert("ri'a"@[0] == 'r' && "ri'a"@[1] == 'i' && "ri'a"@[2] == '\'' && "ri'a"@[3] == 'a' && "ri'a"@.len() == 4);
    reveal_strlit("ki'u");
    assert("ki'u"@[0] == 'k' && "ki'u"@[1] == 'i' && "ki'u"@[2] == '\'' && "ki'u"@[3] == 'u' && "ki'u"@.len() == 4);
    reveal_strlit("pi'o");
    assert("pi'o"@[0] == 'p' && "pi'o"@[1] == 'i' && "pi'o"@[2] == '\'' && "pi'o"@[3] == 'o' && "pi'o"@.len() == 4);
    reveal_strlit("mu'i");
    assert("mu'i"@[0] == 'm' && "mu'i"@[1] == 'u' && "mu'i"@[2] == '\'' && "mu'i"@[3] == 'i' && "mu'i"@.len() == 4);
    reveal_strlit("gau");
    assert("gau"@[0] == 'g' && "gau"@[1] == 'a' && "gau"@[2] == 'u' && "gau"@.len() == 3);
    reveal_strlit("i");
    assert("i"@[0] == 'i' && "i"@.len() == 1);
    reveal_strlit("je");
    assert("je"@[0] == 'j' && "je"@[1] == 'e' && "je"@.len() == 2);
    reveal_strlit("ja");
    assert("ja"@[0] == 'j' && "ja"@[1] == 'a' && "ja"@.len() == 2);
    reveal_strlit("jo");
    assert("jo"@[0] == 'j' && "jo"@[1] == 'o' && "jo"@.len() == 2);
    reveal_strlit("ju");
    assert("ju"@[0] == 'j' && "ju"@[1] == 'u' && "ju"@.len() == 2);
    reveal_strlit("e");
    assert("e"@[0] == 'e' && "e"@.len() == 1);
    reveal_strlit("a");
    assert("a"@[0] == 'a' && "a"@.len() == 1);
    reveal_strlit("o");
    assert("o"@[0] == 'o' && "o"@.len() == 1);
    reveal_strlit("u");
    assert("u"@[0] == 'u' && "u"@.len() == 1);
    reveal_strlit("mi");
    assert("mi"@[0] == 'm' && "mi"@[1] == 'i' && "mi"@.len() == 2);
    reveal_strlit("do");
    assert("do"@[0] == 'd' && "do"@[1] == 'o' && "do"@.len() == 2);
    reveal_strlit("ko'a");
    assert("ko'a"@[0] == 'k' && "ko'a"@[1] == 'o' && "ko'a"@[2] == '\'' && "ko'a"@[3] == 'a' && "ko'a"@.len() == 4);
    reveal_strlit("ko'e");
    assert("ko'e"@[0] == 'k' && "ko'e"@[1] == 'o' && "ko'e"@[2] == '\'' && "ko'e"@[3] == 'e' && "ko'e"@.len() == 4);
    reveal_strlit("ko'i");
    assert("ko'i"@[0] == 'k' && "ko'i"@[1] == 'o' && "ko'i"@[2] == '\'' && "ko'i"@[3] == 'i' && "ko'i"@.len() == 4);
    reveal_strlit("ti");
    assert("ti"@[0] == 't' && "ti"@[1] == 'i' && "ti"@.len() == 2);
    reveal_strlit("ta");
    assert("ta"@[0] == 't' && "ta"@[1] == 'a' && "ta"@.len() == 2);
    reveal_strlit("tu");
    assert("tu"@[0] == 't' && "tu"@[1] == 'u' && "tu"@.len() == 2);
    reveal_strlit("ke'a");
    assert("ke'a"@[0] == 'k' && "ke'a"@[1] == 'e' && "ke'a"@[2] == '\'' && "ke'a"@[3] == 'a' && "ke'a"@.len() == 4);
    reveal_strlit("li");
    assert("li"@[0] == 'l' && "li"@[1] == 'i' && "li"@.len() == 2);
    reveal_strlit("zo");
    assert("zo"@[0] == 'z' && "zo"@[1] == 'o' && "zo"@.len() == 2);
    reveal_strlit("no");
    assert("no"@[0] == 'n' && "no"@[1] == 'o' && "no"@.len() == 2);
    reveal_strlit("pa");
    assert("pa"@[0] == 'p' && "pa"@[1] == 'a' && "pa"@.len() == 2);
    reveal_strlit("re");
    assert("re"@[0] == 'r' && "re"@[1] == 'e' && "re"@.len() == 2);
    reveal_strlit("ci");
    assert("ci"@[0] == 'c' && "ci"@[1] == 'i' && "ci"@.len() == 2);
    reveal_strlit("vo");
    assert("vo"@[0] == 'v' && "vo"@[1] == 'o' && "vo"@.len() == 2);
    reveal_strlit("mu");
    assert("mu"@[0] == 'm' && "mu"@[1] == 'u' && "mu"@.len() == 2);
    reveal_strlit("xa");
    assert("xa"@[0] == 'x' && "xa"@[1] == 'a' && "xa"@.len() == 2);
    reveal_strlit("ze");
    assert("ze"@[0] == 'z' && "ze"@[1] == 'e' && "ze"@.len() == 2);
    reveal_strlit("bi");
    assert("bi"@[0] == 'b' && "bi"@[1] == 'i' && "bi"@.len() == 2);
    reveal_strlit("so");
    assert("so"@[0] == 's' && "so"@[1] == 'o' && "so"@.len() == 2);
}

/// The role predicate of place `k` of a word is the word followed by `_x` and the
/// place's number, 1 to 5: each place has its own role.
pub proof fn law_role_names(name: Seq<char>, k: int)
    requires
        0 <= k < 5,
    ensures
        spec_role_name(name, k) == name + "_x"@ + spec_decimal((k + 1) as nat),
{
    reveal_strlit("_x");
    reveal_strlit("_x1");
    reveal_strlit("_x2");
    reveal_strlit("_x3");
    reveal_strlit("_x4");
    reveal_strlit("_x5");
    assert(spec_decimal((k + 1) as nat) == seq![crate::compile::spec_digit_char((k + 1) as nat)]);
    assert(spec_role_name(name, k) =~= name + "_x"@ + spec_decimal((k + 1) as nat));
}

/// The place counts of the fragment's predicate words, as the dictionary gives them.
#[verifier::rlimit(100)]
pub proof fn law_dictionary_arities()
    ensures
        spec_arity("gerku"@) == Some(2nat),
        spec_arity("mlatu"@) == Some(2nat),
        spec_arity("citka"@) == Some(2nat),
        spec_arity("sutra"@) == Some(2nat),
        spec_arity("prami"@) == Some(2nat),
        spec_arity("cidja"@) == Some(2nat),
        spec_arity("kunti"@) == Some(2nat),
        spec_arity("plise"@) == Some(2nat),
        spec_arity("badna"@) == Some(2nat),
        spec_arity("danlu"@) == Some(2nat),
        spec_arity("krinu"@) == Some(2nat),
        spec_arity("gasnu"@) == Some(2nat),
        spec_arity("nelci"@) == Some(2nat),
        spec_arity("barda"@) == Some(3nat),
        spec_arity("ponse"@) == Some(3nat),
        spec_arity("datni"@) == Some(3nat),
        spec_arity("curmi"@) == Some(3nat),
        spec_arity("pilno"@) == Some(3nat),
        spec_arity("bilga"@) == Some(3nat),
        spec_arity("djica"@) == Some(3nat),
        spec_arity("viska"@) == Some(3nat),
        spec_arity("dunda"@) == Some(3nat),
        spec_arity("tarmi"@) == Some(3nat),
        spec_arity("mukti"@) == Some(3nat),
        spec_arity("zarci"@) == Some(3nat),
        spec_arity("cmene"@) == Some(3nat),
        spec_arity("bajra"@) == Some(4nat),
        spec_arity("rinka"@) == Some(4nat),
        spec_arity("klama"@) == Some(5nat),
        spec_arity("cukta"@) == Some(5nat),
        spec_arity("prenu"@) == Some(1nat),
        spec_arity("terdi"@) == Some(1nat),
{
    reveal_strlit("gerku");
    assert("gerku"@[0] == 'g' && "gerku"@[1] == 'e' && "gerku"@[2] == 'r' && "gerku"@[3] == 'k' && "gerku"@[4] == 'u' && "gerku"@.len() == 5);
    reveal_strlit("mlatu");
    assert("mlatu"@[0] == 'm' && "mlatu"@[1] == 'l' && "mlatu"@[2] == 'a' && "mlatu"@[3] == 't' && "mlatu"@[4] == 'u' && "mlatu"@.len() == 5);
    reveal_strlit("citka");
    assert("citka"@[0] == 'c' && "citka"@[1] == 'i' && "citka"@[2] == 't' && "citka"@[3] == 'k' && "citka"@[4] == 'a' && "citka"@.len() == 5);
    reveal_strlit("sutra");
    assert("sutra"@[0] == 's' && "sutra"@[1] == 'u' && "sutra"@[2] == 't' && "sutra"@[3] == 'r' && "sutra"@[4] == 'a' && "sutra"@.len() == 5);
    reveal_strlit("prami");
    assert("prami"@[0] == 'p' && "prami"@[1] == 'r' && "prami"@[2] == 'a' && "prami"@[3] == 'm' && "prami"@[4] == 'i' && "prami"@.len() == 5);
    reveal_strlit("cidja");
    assert("cidja"@[0] == 'c' && "cidja"@[1] == 'i' && "cidja"@[2] == 'd' && "cidja"@[3] == 'j' && "cidja"@[4] == 'a' && "cidja"@.len() == 5);
    reveal_strlit("kunti");
    assert("kunti"@[0] == 'k' && "kunti"@[1] == 'u' && "kunti"@[2] == 'n' && "kunti"@[3] == 't' && "kunti"@[4] == 'i' && "kunti"@.len() == 5);
    reveal_strlit("plise");
    assert("plise"@[0] == 'p' && "plise"@[1] == 'l' && "plise"@[2] == 'i' && "plise"@[3] == 's' && "plise"@[4] == 'e' && "plise"@.len() == 5);
    reveal_strlit("badna");
    assert("badna"@[0] == 'b' && "badna"@[1] == 'a' && "badna"@[2] == 'd' && "badna"@[3] == 'n' && "badna"@[4] == 'a' && "badna"@.len() == 5);
    reveal_strlit("danlu");
    assert("danlu"@[0] == 'd' && "danlu"@[1] == 'a' && "danlu"@[2] == 'n' && "danlu"@[3] == 'l' && "danlu"@[4] == 'u' && "danlu"@.len() == 5);
    reveal_strlit("krinu");
    assert("krinu"@[0] == 'k' && "krinu"@[1] == 'r' && "krinu"@[2] == 'i' && "krinu"@[3] == 'n' && "krinu"@[4] == 'u' && "krinu"@.len() == 5);
    reveal_strlit("gasnu");
    assert("gasnu"@[0] == 'g' && "gasnu"@[1] == 'a' && "gasnu"@[2] == 's' && "gasnu"@[3] == 'n' && "gasnu"@[4] == 'u' && "gasnu"@.len() == 5);
    reveal_strlit("nelci");
    assert("nelci"@[0] == 'n' && "nelci"@[1] == 'e' && "nelci"@[2] == 'l' && "nelci"@[3] == 'c' && "nelci"@[4] == 'i' && "nelci"@.len() == 5);
    reveal_strlit("barda");
    assert("barda"@[0] == 'b' && "barda"@[1] == 'a' && "barda"@[2] == 'r' && "barda"@[3] == 'd' && "barda"@[4] == 'a' && "barda"@.len() == 5);
    reveal_strlit("ponse");
    assert("ponse"@[0] == 'p' && "ponse"@[1] == 'o' && "ponse"@[2] == 'n' && "ponse"@[3] == 's' && "ponse"@[4] == 'e' && "ponse"@.len() == 5);
    reveal_strlit("datni");
    assert("datni"@[0] == 'd' && "datni"@[1] == 'a' && "datni"@[2] == 't' && "datni"@[3] == 'n' && "datni"@[4] == 'i' && "datni"@.len() == 5);
    reveal_strlit("curmi");
    assert("curmi"@[0] == 'c' && "curmi"@[1] == 'u' && "curmi"@[2] == 'r' && "curmi"@[3] == 'm' && "curmi"@[4] == 'i' && "curmi"@.len() == 5);
    reveal_strlit("pilno");
    assert("pilno"@[0] == 'p' && "pilno"@[1] == 'i' && "pilno"@[2] == 'l' && "pilno"@[3] == 'n' && "pilno"@[4] == 'o' && "pilno"@.len() == 5);
    reveal_strlit("bilga");
    assert("bilga"@[0] == 'b' && "bilga"@[1] == 'i' && "bilga"@[2] == 'l' && "bilga"@[3] == 'g' && "bilga"@[4] == 'a' && "bilga"@.len() == 5);
    reveal_strlit("djica");
    assert("djica"@[0] == 'd' && "djica"@[1] == 'j' && "djica"@[2] == 'i' && "djica"@[3] == 'c' && "djica"@[4] == 'a' && "djica"@.len() == 5);
    reveal_strlit("viska");
    assert("viska"@[0] == 'v' && "viska"@[1] == 'i' && "viska"@[2] == 's' && "viska"@[3] == 'k' && "viska"@[4] == 'a' && "viska"@.len() == 5);
    reveal_strlit("dunda");
    assert("dunda"@[0] == 'd' && "dunda"@[1] == 'u' && "dunda"@[2] == 'n' && "dunda"@[3] == 'd' && "dunda"@[4] == 'a' && "dunda"@.len() == 5);
    reveal_strlit("tarmi");
    assert("tarmi"@[0] == 't' && "tarmi"@[1] == 'a' && "tarmi"@[2] == 'r' && "tarmi"@[3] == 'm' && "tarmi"@[4] == 'i' && "tarmi"@.len() == 5);
    reveal_strlit("mukti");
    assert("mukti"@[0] == 'm' && "mukti"@[1] == 'u' && "mukti"@[2] == 'k' && "mukti"@[3] == 't' && "mukti"@[4] == 'i' && "mukti"@.len() == 5);
    reveal_strlit("zarci");
    assert("zarci"@[0] == 'z' && "zarci"@[1] == 'a' && "zarci"@[2] == 'r' && "zarci"@[3] == 'c' && "zarci"@[4] == 'i' && "zarci"@.len() == 5);
    reveal_strlit("cmene");
    assert("cmene"@[0] == 'c' && "cmene"@[1] == 'm' && "cmene"@[2] == 'e' && "cmene"@[3] == 'n' && "cmene"@[4] == 'e' && "cmene"@.len() == 5);
    reveal_strlit("bajra");
    assert("bajra"@[0] == 'b' && "bajra"@[1] == 'a' && "bajra"@[2] == 'j' && "bajra"@[3] == 'r' && "bajra"@[4] == 'a' && "bajra"@.len() == 5);
    reveal_strlit("rinka");
    assert("rinka"@[0] == 'r' && "rinka"@[1] == 'i' && "rinka"@[2] == 'n' && "rinka"@[3] == 'k' && "rinka"@[4] == 'a' && "rinka"@.len() == 5);
    reveal_strlit("klama");
    assert("klama"@[0] == 'k' && "klama"@[1] == 'l' && "klama"@[2] == 'a' && "klama"@[3] == 'm' && "klama"@[4] == 'a' && "klama"@.len() == 5);
    reveal_strlit("cukta");
    assert("cukta"@[0] == 'c' && "cukta"@[1] == 'u' && "cukta"@[2] == 'k' && "cukta"@[3] == 't' && "cukta"@[4] == 'a' && "cukta"@.len() == 5);
    reveal_strlit("prenu");
    assert("prenu"@[0] == 'p' && "prenu"@[1] == 'r' && "prenu"@[2] == 'e' && "prenu"@[3] == 'n' && "prenu"@[4] == 'u' && "prenu"@.len() == 5);
    reveal_strlit("terdi");
    assert("terdi"@[0] == 't' && "terdi"@[1] == 'e' && "terdi"@[2] == 'r' && "terdi"@[3] == 'd' && "terdi"@[4] == 'i' && "terdi"@.len() == 5);
}

} // verus!
