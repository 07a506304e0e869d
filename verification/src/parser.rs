//! A recursive-descent parser for the fragment: sentences (prenex, forethought
//! connectives, simple bridi and GIhA bridi-tail chains), terms, sumti and selbri.

use vstd::prelude::*;
use crate::ast::{
    lemma_wf_empty, lemma_wf_nodes, Ast, ast_wf, bridi_wf, copy_ids, sentence_wf, selbri_wf, sumti_wf, tail_wf, terms_wf, Bai, Bridi,
    Connective, Conversion, Gadri, GihaTail, ModalTag, PlaceTag, Quantifier, Selbri, Sentence,
    SentenceConnective, Sumti, Tense, Attitudinal,
};
use crate::lexer::{Cmavo, Token, TokenV, cmavo_text, lex, spec_classify, spec_words};
use crate::derive::{
    all_safe, chain, first_head_connective, lemma_chain_mono, lemma_lowered_mono, lemma_selbri_mono,
    lemma_sentence_mono, lemma_sumti_mono, lemma_terms_mono, split_heads, tail_bridi_node,
    lemma_first_connective_at, lemma_split_heads_mono, lemma_first_connective_mono,
    lemma_all_safe_mono, lemma_predicate_intro, lemma_bridi_intro, lemma_tails_push,
    lemma_sentence_bridi_intro, lemma_sentence_forethought_intro, lemma_bridi_mono, lemma_tails_mono,
    forethought,
};
use crate::derive::{
    after_opt, brivla_at, cmevla_at, cut, cut2, cut3, lowered, pick, predicate_d, selbri_d,
    sentence_d, sumti_d, tail_d, tails_d, terms_d, bridi_d, unwrap_negation, word_at,
};
use crate::derive::{
    afterthought_at, joik_at, joined_d, lemma_joined_mono, lemma_joined_push, lemma_roots_mono,
    lemma_roots_push, roots_d, text_d,
};

verus! {

/// A parse failure: a message and the token position it refers to.
#[derive(Debug)]
pub struct ParseError {
    pub message: String,
    pub position: usize,
}

/// How deeply sentences and simple sentences may nest before parsing fails closed.
pub const MAX_DEPTH: usize = 256;

/// The parser state: the token stream, the read position, the nesting depth and the
/// node buffers built so far.
#[derive(Debug)]
pub struct Parser {
    pub tokens: Vec<Token>,
    pub pos: usize,
    pub depth: usize,
    pub selbris: Vec<Selbri>,
    pub sumtis: Vec<Sumti>,
    pub sentences: Vec<Sentence>,
}

/// The cmavo at position `p` of the token stream, if there is one there.
pub open spec fn cmavo_at(toks: Seq<Token>, p: int) -> Option<Cmavo> {
    if 0 <= p < toks.len() {
        match toks[p] {
            Token::Cmavo(c) => Some(c),
            _ => None,
        }
    } else {
        None
    }
}

/// `a` is a prefix of `b`.
pub open spec fn prefix_of<T>(a: Seq<T>, b: Seq<T>) -> bool {
    &&& a.len() <= b.len()
    &&& forall|i: int| 0 <= i < a.len() ==> #[trigger] b[i] == a[i]
}

/// A simple sumti may start with cmavo `c`: a quantifier or gadri, `la`, a pro-sumti,
/// `li` or `zo`.
pub open spec fn simple_sumti_start(c: Option<Cmavo>) -> bool {
    c matches Some(c) && (c == Cmavo::Ro || spec_digit(c) is Some || c == Cmavo::Lo || c == Cmavo::Le
        || c == Cmavo::La || is_pro_sumti(c) || c == Cmavo::Li || c == Cmavo::Zo)
}

/// A pro-sumti stands at `p` with no relative clause after it.
pub open spec fn pro_sumti_alone(toks: Seq<Token>, p: int) -> bool {
    &&& cmavo_at(toks, p) is Some
    &&& is_pro_sumti(cmavo_at(toks, p)->0)
    &&& cmavo_at(toks, p + 1) != Some(Cmavo::Poi)
    &&& cmavo_at(toks, p + 1) != Some(Cmavo::Noi)
}

/// A sumti connective (`.e`, `.a`, `.o`, `.u`) stands at `p`.
pub open spec fn sumti_connective_at(toks: Seq<Token>, p: int) -> bool {
    cmavo_at(toks, p) matches Some(c) && spec_sumti_connective(c) is Some
}

/// A term may start with cmavo `c`: a place tag, a BAI modal, `fi'o`, or a sumti.
pub open spec fn term_start(c: Option<Cmavo>) -> bool {
    c matches Some(c) && (spec_place_tag(c) is Some || spec_bai(c) is Some || c == Cmavo::Fiho
        || starts_sumti(c))
}

/// A selbri may start at `p`: `na`, a conversion, `nu`, or a brivla.
pub open spec fn selbri_start(toks: Seq<Token>, p: int) -> bool {
    ||| cmavo_at(toks, p) == Some(Cmavo::Na)
    ||| cmavo_at(toks, p) matches Some(c) && spec_conversion(c) is Some
    ||| cmavo_at(toks, p) == Some(Cmavo::Nu)
    ||| brivla_at(toks, p) is Some
}

/// A simple sentence may open at `p`: a tense, an attitudinal, `cu`, a term or a selbri.
pub open spec fn bridi_opening(toks: Seq<Token>, p: int) -> bool {
    ||| cmavo_at(toks, p) matches Some(c) && (spec_tense(c) is Some || spec_attitudinal(c) is Some
        || c == Cmavo::Cu)
    ||| term_start(cmavo_at(toks, p))
    ||| selbri_start(toks, p)
}

/// A sentence may open at `p`: a prenex, a forethought connective or a simple sentence.
pub open spec fn sentence_opening(toks: Seq<Token>, p: int) -> bool {
    ||| spec_prenex(toks, p) is Some
    ||| forethought(cmavo_at(toks, p)) is Some
    ||| bridi_opening(toks, p)
}

/// Where the bridi-tail after the GIhA connective at `p` starts: past a spaced `nai`
/// unless the connective has it fused.
pub open spec fn giha_tail_start(toks: Seq<Token>, p: int, fused: bool) -> int {
    if !fused && cmavo_at(toks, p + 1) == Some(Cmavo::Nai) {
        p + 2
    } else {
        p + 1
    }
}

/// A GIhA connective stands at `p` and no selbri follows it.
pub open spec fn giha_without_tail(toks: Seq<Token>, p: int) -> bool {
    cmavo_at(toks, p) matches Some(c) && spec_giha(c) matches Some((_, fused)) && !selbri_start(
        toks,
        giha_tail_start(toks, p, fused),
    )
}

/// A simple bridi with a head of one pro-sumti stands at `p`: the pro-sumti, an elidable
/// `cu`, then a bare predicate.
pub open spec fn pro_head_bridi_at(toks: Seq<Token>, p: int) -> bool {
    &&& cmavo_at(toks, p) is Some
    &&& is_pro_sumti(cmavo_at(toks, p)->0)
    &&& bare_predicate_at(toks, after_opt(toks, p + 1, Cmavo::Cu))
}

/// Where the simple bridi with a pro-sumti head at `p` ends.
pub open spec fn pro_head_bridi_end(toks: Seq<Token>, p: int) -> int {
    bare_predicate_end(toks, after_opt(toks, p + 1, Cmavo::Cu))
}

/// A simple bridi that the parser is owed a parse of stands at `p`, with room for its
/// nodes beside `selbris` selbri and `sumtis` sumti: a bare predicate, or a pro-sumti
/// head, an elidable `cu` and a bare predicate.
pub open spec fn plain_bridi_at(toks: Seq<Token>, p: int, selbris: nat, sumtis: nat) -> bool {
    ||| bare_predicate_at(toks, p) && bare_predicate_fits(toks, p, selbris)
    ||| pro_head_bridi_at(toks, p) && sumtis < 0xffff_fff0 && bare_predicate_fits(
        toks,
        after_opt(toks, p + 1, Cmavo::Cu),
        selbris,
    )
}

/// Where the simple bridi of [`plain_bridi_at`] at `p` ends.
pub open spec fn plain_bridi_end(toks: Seq<Token>, p: int) -> int {
    if bare_predicate_at(toks, p) {
        bare_predicate_end(toks, p)
    } else {
        pro_head_bridi_end(toks, p)
    }
}

/// A bare predicate stands at `p`: a run of brivla with no term after it.
pub open spec fn bare_predicate_at(toks: Seq<Token>, p: int) -> bool {
    brivla_at(toks, p) is Some && !term_start(cmavo_at(toks, p + brivla_run(toks, p)))
}

/// Where the bare predicate at `p` ends: past its brivla and an elidable `vau`.
pub open spec fn bare_predicate_end(toks: Seq<Token>, p: int) -> int {
    after_opt(toks, p + brivla_run(toks, p), Cmavo::Vau)
}

/// The selbri nodes that the bare predicate at `p` takes fit the buffer.
pub open spec fn bare_predicate_fits(toks: Seq<Token>, p: int, selbris: nat) -> bool {
    selbris + 2 * brivla_run(toks, p) <= 0xffff_fff0 + 1
}

/// How many brivla follow one another from `p`.
pub open spec fn brivla_run(toks: Seq<Token>, p: int) -> nat
    decreases toks.len() - p,
{
    if 0 <= p < toks.len() && brivla_at(toks, p) is Some {
        1 + brivla_run(toks, p + 1)
    } else {
        0
    }
}

/// A run of brivla ends within the tokens.
pub proof fn lemma_brivla_run_bound(toks: Seq<Token>, p: int)
    requires
        0 <= p <= toks.len(),
    ensures
        p + brivla_run(toks, p) <= toks.len(),
    decreases toks.len() - p,
{
    if p < toks.len() && brivla_at(toks, p) is Some {
        lemma_brivla_run_bound(toks, p + 1);
    }
}

impl Parser {
    /// The position is within the stream and the node buffers are well formed.
    pub open spec fn inv(&self) -> bool {
        &&& self.pos <= self.tokens@.len()
        &&& self.tokens@.len() <= usize::MAX
        &&& ast_wf(self.selbris@, self.sumtis@, self.sentences@)
        &&& prenex_logic(self.sentences@)
    }
}

/// Every prenex of `sentences` binds logic variables only.
pub open spec fn prenex_logic(sentences: Seq<Sentence>) -> bool {
    forall|k: int|
        0 <= k < sentences.len() ==> (#[trigger] sentences[k] matches Sentence::Prenex(vars, _) ==> forall|i: int|
            0 <= i < vars@.len() ==> is_logic_var_cmavo(#[trigger] vars@[i]))
}

/// `after` continues `before`: the same tokens, a position not moved back, node buffers
/// only appended to, and the invariant kept.
pub open spec fn advanced(before: Parser, after: Parser) -> bool {
    &&& after.tokens@ == before.tokens@
    &&& before.pos <= after.pos
    &&& prefix_of(before.selbris@, after.selbris@)
    &&& prefix_of(before.sumtis@, after.sumtis@)
    &&& prefix_of(before.sentences@, after.sentences@)
    &&& after.inv()
}

/// Appending well-formed nodes to well-formed buffers keeps them well formed.
pub proof fn lemma_wf_grow(
    s1: Seq<Selbri>,
    u1: Seq<Sumti>,
    t1: Seq<Sentence>,
    s2: Seq<Selbri>,
    u2: Seq<Sumti>,
    t2: Seq<Sentence>,
)
    requires
        ast_wf(s1, u1, t1),
        prefix_of(s1, s2),
        prefix_of(u1, u2),
        prefix_of(t1, t2),
        forall|j: int| s1.len() <= j < s2.len() ==> #[trigger] selbri_wf(s2, t2.len(), j),
        forall|i: int| u1.len() <= i < u2.len() ==> #[trigger] sumti_wf(u2, s2.len(), t2.len(), i),
        forall|k: int|
            t1.len() <= k < t2.len() ==> #[trigger] sentence_wf(t2, s2.len(), u2.len(), k),
    ensures
        ast_wf(s2, u2, t2),
{
    reveal(ast_wf);
    assert forall|j: int| 0 <= j < s2.len() implies #[trigger] selbri_wf(s2, t2.len(), j) by {
        if j < s1.len() {
            assert(selbri_wf(s1, t1.len(), j));
            assert(s2[j] == s1[j]);
        }
    }
    assert forall|i: int| 0 <= i < u2.len() implies #[trigger] sumti_wf(
        u2,
        s2.len(),
        t2.len(),
        i,
    ) by {
        if i < u1.len() {
            assert(sumti_wf(u1, s1.len(), t1.len(), i));
            assert(u2[i] == u1[i]);
        }
    }
    assert forall|k: int| 0 <= k < t2.len() implies #[trigger] sentence_wf(
        t2,
        s2.len(),
        u2.len(),
        k,
    ) by {
        if k < t1.len() {
            assert(sentence_wf(t1, s1.len(), u1.len(), k));
            assert(t2[k] == t1[k]);
            match t2[k] {
                Sentence::Simple(b) => {
                    assert(terms_wf(b.head_terms@, u2.len()));
                    assert(terms_wf(b.tail_terms@, u2.len()));
                },
                Sentence::SharedHead(h, tails) => {
                    assert(terms_wf(h.head_terms@, u2.len()));
                    assert(terms_wf(h.tail_terms@, u2.len()));
                    assert forall|t: int| 0 <= t < tails@.len() implies tail_wf(
                        #[trigger] tails@[t],
                        s2.len(),
                        u2.len(),
                    ) by {
                        assert(tail_wf(tails@[t], s1.len(), u1.len()));
                        assert(terms_wf(tails@[t].tail_terms@, u2.len()));
                    }
                },
                _ => {},
            }
        }
    }
}

/// The GIhA connective and fused negation a cmavo stands for, if it is one.
pub open spec fn spec_giha(c: Cmavo) -> Option<(Connective, bool)> {
    match c {
        Cmavo::Gihe => Some((Connective::Je, false)),
        Cmavo::Giha => Some((Connective::Ja, false)),
        Cmavo::Giho => Some((Connective::Jo, false)),
        Cmavo::Gihu => Some((Connective::Ju, false)),
        Cmavo::Gihenai => Some((Connective::Je, true)),
        Cmavo::Gihanai => Some((Connective::Ja, true)),
        Cmavo::Gihonai => Some((Connective::Jo, true)),
        Cmavo::Gihunai => Some((Connective::Ju, true)),
        _ => None,
    }
}

/// The sumti connective a cmavo stands for (`.e`/`.a`/`.o`/`.u`), if it is one.
pub open spec fn spec_sumti_connective(c: Cmavo) -> Option<Connective> {
    match c {
        Cmavo::E => Some(Connective::Je),
        Cmavo::A => Some(Connective::Ja),
        Cmavo::O => Some(Connective::Jo),
        Cmavo::U => Some(Connective::Ju),
        _ => None,
    }
}

/// The sentence connective a cmavo stands for after `.i`, if it is one.
pub open spec fn spec_joik(c: Cmavo) -> Option<Connective> {
    match c {
        Cmavo::Je => Some(Connective::Je),
        Cmavo::Ja => Some(Connective::Ja),
        Cmavo::Jo => Some(Connective::Jo),
        Cmavo::Ju => Some(Connective::Ju),
        _ => None,
    }
}

/// The place tag a cmavo stands for, if it is one.
pub open spec fn spec_place_tag(c: Cmavo) -> Option<PlaceTag> {
    match c {
        Cmavo::Fa => Some(PlaceTag::Fa),
        Cmavo::Fe => Some(PlaceTag::Fe),
        Cmavo::Fi => Some(PlaceTag::Fi),
        Cmavo::Fo => Some(PlaceTag::Fo),
        Cmavo::Fu => Some(PlaceTag::Fu),
        _ => None,
    }
}

/// The BAI modal a cmavo stands for, if it is one.
pub open spec fn spec_bai(c: Cmavo) -> Option<Bai> {
    match c {
        Cmavo::Riha => Some(Bai::Riha),
        Cmavo::Kihu => Some(Bai::Kihu),
        Cmavo::Piho => Some(Bai::Piho),
        Cmavo::Muhi => Some(Bai::Muhi),
        Cmavo::Gau => Some(Bai::Gau),
        _ => None,
    }
}

/// The digit a number cmavo stands for, if it is one.
pub open spec fn spec_digit(c: Cmavo) -> Option<u32> {
    match c {
        Cmavo::No => Some(0),
        Cmavo::Pa => Some(1),
        Cmavo::Re => Some(2),
        Cmavo::Ci => Some(3),
        Cmavo::Vo => Some(4),
        Cmavo::Mu => Some(5),
        Cmavo::Xa => Some(6),
        Cmavo::Ze => Some(7),
        Cmavo::Bi => Some(8),
        Cmavo::So => Some(9),
        _ => None,
    }
}

/// The conversion a cmavo stands for, if it is one.
pub open spec fn spec_conversion(c: Cmavo) -> Option<Conversion> {
    match c {
        Cmavo::Se => Some(Conversion::Se),
        Cmavo::Te => Some(Conversion::Te),
        Cmavo::Ve => Some(Conversion::Ve),
        Cmavo::Xe => Some(Conversion::Xe),
        _ => None,
    }
}

/// The logic variables `da`/`de`/`di`.
pub open spec fn is_logic_var_cmavo(c: Cmavo) -> bool {
    c == Cmavo::Da || c == Cmavo::De || c == Cmavo::Di
}

/// The pro-sumti of the fragment.
pub open spec fn is_pro_sumti(c: Cmavo) -> bool {
    c == Cmavo::Mi || c == Cmavo::Do || c == Cmavo::Koha || c == Cmavo::Kohe || c == Cmavo::Kohi
        || c == Cmavo::Ti || c == Cmavo::Ta || c == Cmavo::Tu || c == Cmavo::Keha
        || is_logic_var_cmavo(c)
}

fn giha_of(c: Cmavo) -> (r: Option<(Connective, bool)>)
    ensures
        r == spec_giha(c),
{
    match c {
        Cmavo::Gihe => Some((Connective::Je, false)),
        Cmavo::Giha => Some((Connective::Ja, false)),
        Cmavo::Giho => Some((Connective::Jo, false)),
        Cmavo::Gihu => Some((Connective::Ju, false)),
        Cmavo::Gihenai => Some((Connective::Je, true)),
        Cmavo::Gihanai => Some((Connective::Ja, true)),
        Cmavo::Gihonai => Some((Connective::Jo, true)),
        Cmavo::Gihunai => Some((Connective::Ju, true)),
        _ => None,
    }
}

fn sumti_connective_of(c: Cmavo) -> (r: Option<Connective>)
    ensures
        r == spec_sumti_connective(c),
{
    match c {
        Cmavo::E => Some(Connective::Je),
        Cmavo::A => Some(Connective::Ja),
        Cmavo::O => Some(Connective::Jo),
        Cmavo::U => Some(Connective::Ju),
        _ => None,
    }
}

fn joik_of(c: Cmavo) -> (r: Option<Connective>)
    ensures
        r == spec_joik(c),
{
    match c {
        Cmavo::Je => Some(Connective::Je),
        Cmavo::Ja => Some(Connective::Ja),
        Cmavo::Jo => Some(Connective::Jo),
        Cmavo::Ju => Some(Connective::Ju),
        _ => None,
    }
}

fn place_tag_of(c: Cmavo) -> (r: Option<PlaceTag>)
    ensures
        r == spec_place_tag(c),
{
    match c {
        Cmavo::Fa => Some(PlaceTag::Fa),
        Cmavo::Fe => Some(PlaceTag::Fe),
        Cmavo::Fi => Some(PlaceTag::Fi),
        Cmavo::Fo => Some(PlaceTag::Fo),
        Cmavo::Fu => Some(PlaceTag::Fu),
        _ => None,
    }
}

fn bai_of(c: Cmavo) -> (r: Option<Bai>)
    ensures
        r == spec_bai(c),
{
    match c {
        Cmavo::Riha => Some(Bai::Riha),
        Cmavo::Kihu => Some(Bai::Kihu),
        Cmavo::Piho => Some(Bai::Piho),
        Cmavo::Muhi => Some(Bai::Muhi),
        Cmavo::Gau => Some(Bai::Gau),
        _ => None,
    }
}

fn digit_of(c: Cmavo) -> (r: Option<u32>)
    ensures
        r == spec_digit(c),
{
    match c {
        Cmavo::No => Some(0),
        Cmavo::Pa => Some(1),
        Cmavo::Re => Some(2),
        Cmavo::Ci => Some(3),
        Cmavo::Vo => Some(4),
        Cmavo::Mu => Some(5),
        Cmavo::Xa => Some(6),
        Cmavo::Ze => Some(7),
        Cmavo::Bi => Some(8),
        Cmavo::So => Some(9),
        _ => None,
    }
}

fn conversion_of(c: Cmavo) -> (r: Option<Conversion>)
    ensures
        r == spec_conversion(c),
{
    match c {
        Cmavo::Se => Some(Conversion::Se),
        Cmavo::Te => Some(Conversion::Te),
        Cmavo::Ve => Some(Conversion::Ve),
        Cmavo::Xe => Some(Conversion::Xe),
        _ => None,
    }
}

fn is_pro_sumti_cmavo(c: Cmavo) -> (r: bool)
    ensures
        r == is_pro_sumti(c),
{
    match c {
        Cmavo::Mi | Cmavo::Do | Cmavo::Koha | Cmavo::Kohe | Cmavo::Kohi | Cmavo::Ti | Cmavo::Ta
        | Cmavo::Tu | Cmavo::Keha | Cmavo::Da | Cmavo::De | Cmavo::Di => true,
        _ => false,
    }
}

/// A cmavo that can open a sumti.
pub open spec fn starts_sumti(c: Cmavo) -> bool {
    ||| c == Cmavo::Lo
    ||| c == Cmavo::Le
    ||| c == Cmavo::La
    ||| c == Cmavo::Ro
    ||| c == Cmavo::Li
    ||| c == Cmavo::Zo
    ||| spec_digit(c) is Some
    ||| is_pro_sumti(c)
}

fn starts_sumti_cmavo(c: Cmavo) -> (r: bool)
    ensures
        r == starts_sumti(c),
{
    match c {
        Cmavo::Lo | Cmavo::Le | Cmavo::La | Cmavo::Ro | Cmavo::Li | Cmavo::Zo => true,
        _ => digit_of(c).is_some() || is_pro_sumti_cmavo(c),
    }
}

/// `after` differs from `before` at most in its read position.
pub open spec fn same_nodes(before: Parser, after: Parser) -> bool {
    &&& after.tokens == before.tokens
    &&& after.depth == before.depth
    &&& after.selbris == before.selbris
    &&& after.sumtis == before.sumtis
    &&& after.sentences == before.sentences
}

/// The tense a cmavo stands for, if it is one.
pub open spec fn spec_tense(c: Cmavo) -> Option<Tense> {
    match c {
        Cmavo::Pu => Some(Tense::Pu),
        Cmavo::Ca => Some(Tense::Ca),
        Cmavo::Ba => Some(Tense::Ba),
        _ => None,
    }
}

/// The deontic attitudinal a cmavo stands for, if it is one.
pub open spec fn spec_attitudinal(c: Cmavo) -> Option<Attitudinal> {
    match c {
        Cmavo::Ei => Some(Attitudinal::Ei),
        Cmavo::Ehe => Some(Attitudinal::Ehe),
        _ => None,
    }
}

/// The run of `ro <variable>` pairs starting at `p`: the variables in order and the
/// position after the run, or `None` when a `ro` is not followed by a variable.
pub open spec fn ro_run(toks: Seq<Token>, p: int) -> Option<(Seq<Cmavo>, int)>
    decreases toks.len() - p,
{
    if 0 <= p < toks.len() && cmavo_at(toks, p) == Some(Cmavo::Ro) {
        match cmavo_at(toks, p + 1) {
            Some(v) => if is_logic_var_cmavo(v) {
                match ro_run(toks, p + 2) {
                    Some((vs, q)) => Some((seq![v] + vs, q)),
                    None => None,
                }
            } else {
                None
            },
            None => None,
        }
    } else {
        Some((Seq::empty(), p))
    }
}

/// A prenex at `p`: at least one `ro <variable>` pair, then `zo'u`. The variables and
/// the position after `zo'u`.
pub open spec fn spec_prenex(toks: Seq<Token>, p: int) -> Option<(Seq<Cmavo>, int)> {
    match ro_run(toks, p) {
        Some((vs, q)) => if vs.len() > 0 && cmavo_at(toks, q) == Some(Cmavo::Zohu) {
            Some((vs, q + 1))
        } else {
            None
        },
        None => None,
    }
}

/// A run of `ro <variable>` pairs ends two tokens per variable after its start.
pub proof fn lemma_ro_run_len(toks: Seq<Token>, p: int)
    ensures
        ro_run(toks, p) matches Some((vs, q)) ==> q == p + 2 * vs.len(),
    decreases toks.len() - p,
{
    if 0 <= p && p + 1 < toks.len() && cmavo_at(toks, p) == Some(Cmavo::Ro) {
        lemma_ro_run_len(toks, p + 2);
    }
}

/// A run of `ro <variable>` pairs holds logic variables only.
pub proof fn lemma_ro_run_logic(toks: Seq<Token>, p: int)
    ensures
        ro_run(toks, p) matches Some((vs, _)) ==> forall|i: int| 0 <= i < vs.len() ==> is_logic_var_cmavo(#[trigger] vs[i]),
    decreases toks.len() - p,
{
    if 0 <= p && p + 1 < toks.len() && cmavo_at(toks, p) == Some(Cmavo::Ro) {
        lemma_ro_run_logic(toks, p + 2);
        if let Some((vs, q)) = ro_run(toks, p) {
            let v = cmavo_at(toks, p + 1)->0;
            let (rest, _) = ro_run(toks, p + 2)->0;
            assert(vs == seq![v] + rest);
            assert forall|i: int| 0 <= i < vs.len() implies is_logic_var_cmavo(#[trigger] vs[i]) by {
                if i > 0 {
                    assert(vs[i] == rest[i - 1]);
                }
            }
        }
    }
}

/// A constant head term never holds a connected sumti: the two GIhA lowerings that
/// test them never both apply to one term.
pub proof fn lemma_safe_head_not_connective(sumtis: Seq<Sumti>, id: int)
    ensures
        spec_giha_safe_head(sumtis, id) ==> !spec_head_has_connective(sumtis, id),
    decreases id,
{
    if 0 <= id < sumtis.len() {
        if let Sumti::Tagged(_, inner) = sumtis[id] {
            if 0 <= inner < id {
                lemma_safe_head_not_connective(sumtis, inner as int);
            }
        }
    }
}

/// True if a head sumti denotes a CONSTANT that can be repeated per GIhA tail without
/// changing meaning: names, non-variable pro-sumti, quoted literals, numbers, `la`
/// descriptions (rigid names), and place-tagged wrappers of those. Everything that
/// mints a fresh witness or quantifier per compilation is not.
pub open spec fn spec_giha_safe_head(sumtis: Seq<Sumti>, id: int) -> bool
    decreases id,
{
    if 0 <= id < sumtis.len() {
        match sumtis[id] {
            Sumti::ProSumti(w) => !is_logic_var_cmavo(w),
            Sumti::Name(_) => true,
            Sumti::QuotedLiteral(_) => true,
            Sumti::Number(_) => true,
            Sumti::Description { gadri, .. } => gadri == Gadri::La,
            Sumti::Tagged(_, inner) => if 0 <= inner < id {
                spec_giha_safe_head(sumtis, inner as int)
            } else {
                false
            },
            _ => false,
        }
    } else {
        false
    }
}

/// True if a head term is (or wraps under place tags) a connected sumti.
pub open spec fn spec_head_has_connective(sumtis: Seq<Sumti>, id: int) -> bool
    decreases id,
{
    if 0 <= id < sumtis.len() {
        match sumtis[id] {
            Sumti::Connected(..) => true,
            Sumti::Tagged(_, inner) => if 0 <= inner < id {
                spec_head_has_connective(sumtis, inner as int)
            } else {
                false
            },
            _ => false,
        }
    } else {
        false
    }
}

/// True if a head sumti denotes a constant that can be repeated per GIhA tail (see
/// [`spec_giha_safe_head`]).
pub fn giha_safe_head(sumtis: &Vec<Sumti>, id: u32) -> (r: bool)
    ensures
        r == spec_giha_safe_head(sumtis@, id as int),
    decreases id,
{
    if id as usize >= sumtis.len() {
        return false;
    }
    match &sumtis[id as usize] {
        Sumti::ProSumti(w) => !(*w == Cmavo::Da || *w == Cmavo::De || *w == Cmavo::Di),
        Sumti::Name(_) | Sumti::QuotedLiteral(_) | Sumti::Number(_) => true,
        Sumti::Description { gadri, .. } => *gadri == Gadri::La,
        Sumti::Tagged(_, inner) => {
            if *inner < id {
                giha_safe_head(sumtis, *inner)
            } else {
                false
            }
        },
        _ => false,
    }
}

/// True if a GIhA shared-head term is (or wraps) a connected sumti.
pub fn head_has_connective(sumtis: &Vec<Sumti>, id: u32) -> (r: bool)
    ensures
        r == spec_head_has_connective(sumtis@, id as int),
    decreases id,
{
    if id as usize >= sumtis.len() {
        return false;
    }
    match &sumtis[id as usize] {
        Sumti::Connected(..) => true,
        Sumti::Tagged(_, inner) => {
            if *inner < id {
                head_has_connective(sumtis, *inner)
            } else {
                false
            }
        },
        _ => false,
    }
}

/// Every head term is a constant.
fn all_safe_heads(sumtis: &Vec<Sumti>, terms: &Vec<u32>) -> (r: bool)
    ensures
        r == forall|k: int| 0 <= k < terms@.len() ==> #[trigger] spec_giha_safe_head(sumtis@, terms@[k] as int),
{
    let mut i: usize = 0;
    while i < terms.len()
        invariant
            i <= terms@.len(),
            forall|k: int| 0 <= k < i ==> #[trigger] spec_giha_safe_head(sumtis@, terms@[k] as int),
        decreases terms@.len() - i,
    {
        if !giha_safe_head(sumtis, terms[i]) {
            return false;
        }
        i = i + 1;
    }
    true
}

/// The first head term that is (or wraps) a connected sumti.
fn find_head_connective(sumtis: &Vec<Sumti>, terms: &Vec<u32>) -> (r: Option<usize>)
    ensures
        match r {
            Some(k) => k < terms@.len() && spec_head_has_connective(sumtis@, terms@[k as int] as int),
            None => forall|k: int| 0 <= k < terms@.len() ==> !#[trigger] spec_head_has_connective(sumtis@, terms@[k] as int),
        },
        r matches Some(k) ==> forall|m: int| 0 <= m < k ==> !#[trigger] spec_head_has_connective(sumtis@, terms@[m] as int),
{
    let mut i: usize = 0;
    while i < terms.len()
        invariant
            i <= terms@.len(),
            forall|k: int| 0 <= k < i ==> !#[trigger] spec_head_has_connective(sumtis@, terms@[k] as int),
        decreases terms@.len() - i,
    {
        if head_has_connective(sumtis, terms[i]) {
            return Some(i);
        }
        i = i + 1;
    }
    None
}

/// Two GIhA tails with the same content.
pub open spec fn same_tail(a: GihaTail, b: GihaTail) -> bool {
    &&& a.connective == b.connective
    &&& a.right_negated == b.right_negated
    &&& a.relation == b.relation
    &&& a.tail_terms@ == b.tail_terms@
    &&& a.negated == b.negated
}

pub(crate) fn copy_tails(v: &Vec<GihaTail>) -> (r: Vec<GihaTail>)
    ensures
        r@.len() == v@.len(),
        forall|i: int| 0 <= i < v@.len() ==> same_tail(#[trigger] r@[i], v@[i]),
{
    let mut r: Vec<GihaTail> = Vec::new();
    let mut i: usize = 0;
    while i < v.len()
        invariant
            i <= v@.len(),
            r@.len() == i,
            forall|k: int| 0 <= k < i ==> same_tail(#[trigger] r@[k], v@[k]),
        decreases v@.len() - i,
    {
        let t = &v[i];
        r.push(
            GihaTail {
                connective: t.connective,
                right_negated: t.right_negated,
                relation: t.relation,
                tail_terms: copy_ids(&t.tail_terms),
                negated: t.negated,
            },
        );
        i = i + 1;
    }
    r
}

/// `terms` with the entry at `k` replaced by `id`.
fn replace_id(terms: &Vec<u32>, k: usize, id: u32) -> (r: Vec<u32>)
    requires
        k < terms@.len(),
    ensures
        r@ == terms@.update(k as int, id),
{
    let mut r = copy_ids(terms);
    r.set(k, id);
    r
}

impl Parser {
    /// A parser at the start of `tokens`, with empty node buffers.
    pub fn new(tokens: Vec<Token>) -> (p: Parser)
        ensures
            p.tokens@ == tokens@,
            p.pos == 0,
            p.depth == 0,
            p.selbris@.len() == 0,
            p.sumtis@.len() == 0,
            p.sentences@.len() == 0,
            p.inv(),
    {
        // Reading the length records that it fits a `usize`, which `inv` states.
        let count = tokens.len();
        assert(count == tokens@.len());
        let p = Parser {
            tokens,
            pos: 0,
            depth: 0,
            selbris: Vec::new(),
            sumtis: Vec::new(),
            sentences: Vec::new(),
        };
        proof {
            lemma_wf_empty(p.selbris@, p.sumtis@, p.sentences@);
        }
        p
    }

    /// The cmavo at the read position, if any.
    pub fn peek_cmavo(&self) -> (r: Option<Cmavo>)
        ensures
            r == cmavo_at(self.tokens@, self.pos as int),
    {
        if self.pos < self.tokens.len() {
            match &self.tokens[self.pos] {
                Token::Cmavo(c) => Some(*c),
                _ => None,
            }
        } else {
            None
        }
    }

    /// Consume `c` if it is the next token.
    pub fn eat_cmavo(&mut self, c: Cmavo) -> (eaten: bool)
        requires
            old(self).inv(),
        ensures
            eaten == (cmavo_at(old(self).tokens@, old(self).pos as int) == Some(c)),
            final(self).pos == if eaten {
                old(self).pos + 1
            } else {
                old(self).pos as int
            },
            same_nodes(*old(self), *final(self)),
            final(self).inv(),
    {
        if self.peek_cmavo() == Some(c) {
            self.pos = self.pos + 1;
            true
        } else {
            false
        }
    }

    /// A parse error at the read position.
    pub fn error(&self, msg: &str) -> (e: ParseError)
        ensures
            e.message@ == msg@,
            e.position == self.pos,
    {
        ParseError { message: msg.to_owned(), position: self.pos }
    }

    /// Enter one level of sentence nesting, failing closed past [`MAX_DEPTH`].
    fn enter(&mut self) -> (r: Result<(), ParseError>)
        requires
            old(self).inv(),
        ensures
            final(self).tokens == old(self).tokens,
            final(self).pos == old(self).pos,
            final(self).selbris == old(self).selbris,
            final(self).sumtis == old(self).sumtis,
            final(self).sentences == old(self).sentences,
            final(self).inv(),
            r is Ok <==> old(self).depth < MAX_DEPTH,
            r is Ok ==> final(self).depth == old(self).depth + 1,
            r is Err ==> final(self).depth == old(self).depth,
    {
        if self.depth >= MAX_DEPTH {
            return Err(self.error("sentence nesting is too deep"));
        }
        self.depth = self.depth + 1;
        Ok(())
    }

    /// Leave one level of sentence nesting.
    fn leave(&mut self)
        requires
            old(self).inv(),
            old(self).depth > 0,
        ensures
            final(self).tokens == old(self).tokens,
            final(self).pos == old(self).pos,
            final(self).selbris == old(self).selbris,
            final(self).sumtis == old(self).sumtis,
            final(self).sentences == old(self).sentences,
            final(self).inv(),
            final(self).depth == old(self).depth - 1,
    {
        self.depth = self.depth - 1;
    }

    /// Append a selbri node.
    fn alloc_selbri(&mut self, s: Selbri) -> (r: Result<u32, ParseError>)
        requires
            old(self).inv(),
            selbri_wf(old(self).selbris@.push(s), old(self).sentences@.len(), old(self).selbris@.len() as int),
        ensures
            advanced(*old(self), *final(self)),
            final(self).pos == old(self).pos,
            final(self).depth == old(self).depth,
            final(self).sumtis == old(self).sumtis,
            final(self).sentences == old(self).sentences,
            match r {
                Ok(id) => id == old(self).selbris@.len() && final(self).selbris@ == old(self).selbris@.push(s),
                Err(_) => final(self).selbris == old(self).selbris,
            },
            r is Ok <==> old(self).selbris@.len() < 0xffff_fff0,
    {
        if self.selbris.len() >= 0xffff_fff0 {
            return Err(self.error("too many selbri nodes"));
        }
        let id = self.selbris.len() as u32;
        let ghost s0 = self.selbris@;
        self.selbris.push(s);
        proof {
            lemma_wf_grow(s0, self.sumtis@, self.sentences@, self.selbris@, self.sumtis@, self.sentences@);
        }
        Ok(id)
    }

    /// Append a sumti node.
    fn alloc_sumti(&mut self, s: Sumti) -> (r: Result<u32, ParseError>)
        requires
            old(self).inv(),
            sumti_wf(
                old(self).sumtis@.push(s),
                old(self).selbris@.len(),
                old(self).sentences@.len(),
                old(self).sumtis@.len() as int,
            ),
        ensures
            advanced(*old(self), *final(self)),
            final(self).pos == old(self).pos,
            final(self).depth == old(self).depth,
            final(self).selbris == old(self).selbris,
            final(self).sentences == old(self).sentences,
            match r {
                Ok(id) => id == old(self).sumtis@.len() && final(self).sumtis@ == old(self).sumtis@.push(s),
                Err(_) => final(self).sumtis == old(self).sumtis,
            },
            r is Ok <==> old(self).sumtis@.len() < 0xffff_fff0,
    {
        if self.sumtis.len() >= 0xffff_fff0 {
            return Err(self.error("too many sumti nodes"));
        }
        let id = self.sumtis.len() as u32;
        let ghost u0 = self.sumtis@;
        self.sumtis.push(s);
        proof {
            lemma_wf_grow(self.selbris@, u0, self.sentences@, self.selbris@, self.sumtis@, self.sentences@);
        }
        Ok(id)
    }

    /// Append a sentence node.
    fn alloc_sentence(&mut self, s: Sentence) -> (r: Result<u32, ParseError>)
        requires
            old(self).inv(),
            sentence_wf(
                old(self).sentences@.push(s),
                old(self).selbris@.len(),
                old(self).sumtis@.len(),
                old(self).sentences@.len() as int,
            ),
            s matches Sentence::Prenex(vs, _) ==> forall|i: int| 0 <= i < vs@.len() ==> is_logic_var_cmavo(#[trigger] vs@[i]),
        ensures
            advanced(*old(self), *final(self)),
            final(self).pos == old(self).pos,
            final(self).depth == old(self).depth,
            final(self).selbris == old(self).selbris,
            final(self).sumtis == old(self).sumtis,
            match r {
                Ok(id) => id == old(self).sentences@.len() && final(self).sentences@ == old(self).sentences@.push(s),
                Err(_) => final(self).sentences == old(self).sentences,
            },
            r is Ok <==> old(self).sentences@.len() < 0xffff_fff0,
    {
        if self.sentences.len() >= 0xffff_fff0 {
            return Err(self.error("too many sentence nodes"));
        }
        let id = self.sentences.len() as u32;
        let ghost t0 = self.sentences@;
        self.sentences.push(s);
        proof {
            lemma_wf_grow(self.selbris@, self.sumtis@, t0, self.selbris@, self.sumtis@, self.sentences@);
            assert forall|k: int| 0 <= k < self.sentences@.len() implies (#[trigger] self.sentences@[k] matches Sentence::Prenex(vars, _) ==> forall|i: int|
                0 <= i < vars@.len() ==> is_logic_var_cmavo(#[trigger] vars@[i])) by {
                if k < t0.len() {
                    assert(self.sentences@[k] == t0[k]);
                }
            }
        }
        Ok(id)
    }

    // ─── Tense & Attitudinal ──────────────────────────────────

    /// Try to consume a tense marker (pu/ca/ba).
    pub fn try_parse_tense(&mut self) -> (t: Option<Tense>)
        requires
            old(self).inv(),
        ensures
            same_nodes(*old(self), *final(self)),
            final(self).inv(),
            match cmavo_at(old(self).tokens@, old(self).pos as int) {
                Some(c) => t == spec_tense(c),
                None => t is None,
            },
            final(self).pos == if t is Some {
                old(self).pos + 1
            } else {
                old(self).pos as int
            },
    {
        let t = match self.peek_cmavo() {
            Some(Cmavo::Pu) => Tense::Pu,
            Some(Cmavo::Ca) => Tense::Ca,
            Some(Cmavo::Ba) => Tense::Ba,
            _ => return None,
        };
        self.pos = self.pos + 1;
        Some(t)
    }

    /// Try to consume a deontic attitudinal (ei/e'e).
    pub fn try_parse_attitudinal(&mut self) -> (a: Option<Attitudinal>)
        requires
            old(self).inv(),
        ensures
            same_nodes(*old(self), *final(self)),
            final(self).inv(),
            match cmavo_at(old(self).tokens@, old(self).pos as int) {
                Some(c) => a == spec_attitudinal(c),
                None => a is None,
            },
            final(self).pos == if a is Some {
                old(self).pos + 1
            } else {
                old(self).pos as int
            },
    {
        let a = match self.peek_cmavo() {
            Some(Cmavo::Ei) => Attitudinal::Ei,
            Some(Cmavo::Ehe) => Attitudinal::Ehe,
            _ => return None,
        };
        self.pos = self.pos + 1;
        Some(a)
    }

    // ─── Sentence ─────────────────────────────────────────────

    /// Try to parse a prenex: `(ro (da|de|di))+ zo'u`. Returns the universally
    /// quantified variables in prenex order, restoring the position if this is not a
    /// prenex (e.g. `ro lo gerku ...` — a universal description — or a `ro <var>`
    /// sequence with no `zo'u` terminator).
    pub fn try_parse_prenex(&mut self) -> (r: Option<Vec<Cmavo>>)
        requires
            old(self).inv(),
        ensures
            same_nodes(*old(self), *final(self)),
            final(self).inv(),
            match spec_prenex(old(self).tokens@, old(self).pos as int) {
                Some((vs, q)) => r is Some && r->0@ == vs && final(self).pos == q,
                None => r is None && final(self).pos == old(self).pos,
            },
            r is Some ==> final(self).pos > old(self).pos,
    {
        proof {
            lemma_ro_run_len(self.tokens@, self.pos as int);
        }
        let saved = self.pos;
        let mut vars: Vec<Cmavo> = Vec::new();
        loop
            invariant_except_break
                same_nodes(*old(self), *self),
                self.inv(),
                saved == old(self).pos,
                saved <= self.pos,
                ro_run(self.tokens@, saved as int) == match ro_run(self.tokens@, self.pos as int) {
                    Some((vs, q)) => Some((vars@ + vs, q)),
                    None => None::<(Seq<Cmavo>, int)>,
                },
            ensures
                same_nodes(*old(self), *self),
                self.inv(),
                saved == old(self).pos,
                ro_run(self.tokens@, saved as int) == Some((vars@, self.pos as int)),
            decreases self.tokens@.len() - self.pos,
        {
            if !self.eat_cmavo(Cmavo::Ro) {
                proof {
                    assert(ro_run(self.tokens@, self.pos as int) == Some((Seq::<Cmavo>::empty(), self.pos as int)));
                    assert(vars@ + Seq::<Cmavo>::empty() =~= vars@);
                }
                break;
            }
            let ghost p0 = (self.pos - 1) as int;
            match self.peek_cmavo() {
                Some(v) => {
                    if v == Cmavo::Da || v == Cmavo::De || v == Cmavo::Di {
                        self.pos = self.pos + 1;
                        proof {
                            let rest = ro_run(self.tokens@, self.pos as int);
                            assert(ro_run(self.tokens@, p0) == match rest {
                                Some((vs, q)) => Some((seq![v] + vs, q)),
                                None => None::<(Seq<Cmavo>, int)>,
                            });
                        }
                        let ghost before = vars@;
                        vars.push(v);
                        proof {
                            match ro_run(self.tokens@, self.pos as int) {
                                Some((vs, q)) => {
                                    assert(before + (seq![v] + vs) =~= vars@ + vs);
                                },
                                None => {},
                            }
                        }
                    } else {
                        self.pos = saved;
                        return None;
                    }
                },
                None => {
                    self.pos = saved;
                    return None;
                },
            }
        }
        if vars.len() == 0 || !self.eat_cmavo(Cmavo::Zohu) {
            self.pos = saved;
            return None;
        }
        Some(vars)
    }
}

/// The token at `p` is the conversion cmavo of `c`.
pub open spec fn conv_at(toks: Seq<Token>, p: int, c: Conversion) -> bool {
    cmavo_at(toks, p) matches Some(t) && spec_conversion(t) == Some(c)
}

/// Selbri `id` of the parser's buffers is spelled by its tokens `[i, j)`.
pub open spec fn sel_d(p: Parser, i: int, j: int, id: int) -> bool {
    selbri_d(p.tokens@, i, j, p.selbris@, p.sumtis@, p.sentences@, id)
}

/// Sumti `id` of the parser's buffers is spelled by its tokens `[i, j)`.
pub open spec fn sum_d(p: Parser, i: int, j: int, id: int) -> bool {
    sumti_d(p.tokens@, i, j, p.selbris@, p.sumtis@, p.sentences@, id)
}

/// Sentence `id` of the parser's buffers is spelled by its tokens `[i, j)`.
pub open spec fn sen_d(p: Parser, i: int, j: int, id: int) -> bool {
    sentence_d(p.tokens@, i, j, p.selbris@, p.sumtis@, p.sentences@, id)
}

/// The terms `ids` are spelled by the parser's tokens `[i, j)`.
pub open spec fn ter_d(p: Parser, i: int, j: int, ids: Seq<u32>) -> bool {
    terms_d(p.tokens@, i, j, p.selbris@, p.sumtis@, p.sentences@, ids)
}

/// A derived selbri stays derived as the parser goes on.
proof fn keep_sel(a: Parser, b: Parser, i: int, j: int, id: int)
    requires
        advanced(a, b),
        sel_d(a, i, j, id),
    ensures
        sel_d(b, i, j, id),
{
    lemma_selbri_mono(a.tokens@, i, j, a.selbris@, a.sumtis@, a.sentences@, b.selbris@, b.sumtis@, b.sentences@, id);
}

/// A derived sumti stays derived as the parser goes on.
proof fn keep_sum(a: Parser, b: Parser, i: int, j: int, id: int)
    requires
        advanced(a, b),
        sum_d(a, i, j, id),
    ensures
        sum_d(b, i, j, id),
{
    lemma_sumti_mono(a.tokens@, i, j, a.selbris@, a.sumtis@, a.sentences@, b.selbris@, b.sumtis@, b.sentences@, id);
}

/// A derived sentence stays derived as the parser goes on.
proof fn keep_sen(a: Parser, b: Parser, i: int, j: int, id: int)
    requires
        advanced(a, b),
        sen_d(a, i, j, id),
    ensures
        sen_d(b, i, j, id),
{
    lemma_sentence_mono(a.tokens@, i, j, a.selbris@, a.sumtis@, a.sentences@, b.selbris@, b.sumtis@, b.sentences@, id);
}

/// Derived terms stay derived as the parser goes on.
proof fn keep_ter(a: Parser, b: Parser, i: int, j: int, ids: Seq<u32>)
    requires
        advanced(a, b),
        ter_d(a, i, j, ids),
    ensures
        ter_d(b, i, j, ids),
{
    lemma_terms_mono(a.tokens@, i, j, a.selbris@, a.sumtis@, a.sentences@, b.selbris@, b.sumtis@, b.sentences@, ids);
}

impl Parser {
    /// Consume a predicate word at the read position.
    fn take_brivla(&mut self) -> (r: Option<String>)
        requires
            old(self).inv(),
        ensures
            same_nodes(*old(self), *final(self)),
            final(self).inv(),
            r is Some ==> final(self).pos == old(self).pos + 1,
            r is None ==> final(self).pos == old(self).pos,
            match r {
                Some(w) => brivla_at(old(self).tokens@, old(self).pos as int) == Some(w@),
                None => brivla_at(old(self).tokens@, old(self).pos as int) is None,
            },
    {
        let mut found: Option<String> = None;
        if self.pos < self.tokens.len() {
            match &self.tokens[self.pos] {
                Token::Brivla(s) => {
                    found = Some(s.clone());
                },
                _ => {},
            }
        }
        if found.is_some() {
            self.pos = self.pos + 1;
        }
        found
    }

    /// Consume a name at the read position.
    fn take_cmevla(&mut self) -> (r: Option<String>)
        requires
            old(self).inv(),
        ensures
            same_nodes(*old(self), *final(self)),
            final(self).inv(),
            r is Some ==> final(self).pos == old(self).pos + 1,
            r is None ==> final(self).pos == old(self).pos,
            match r {
                Some(w) => cmevla_at(old(self).tokens@, old(self).pos as int) == Some(w@),
                None => cmevla_at(old(self).tokens@, old(self).pos as int) is None,
            },
    {
        let mut found: Option<String> = None;
        if self.pos < self.tokens.len() {
            match &self.tokens[self.pos] {
                Token::Cmevla(s) => {
                    found = Some(s.clone());
                },
                _ => {},
            }
        }
        if found.is_some() {
            self.pos = self.pos + 1;
        }
        found
    }

    /// Consume any word at the read position, returning its spelling.
    fn take_word(&mut self) -> (r: Option<String>)
        requires
            old(self).inv(),
        ensures
            same_nodes(*old(self), *final(self)),
            final(self).inv(),
            r is Some ==> final(self).pos == old(self).pos + 1,
            r is None ==> final(self).pos == old(self).pos,
            match r {
                Some(w) => word_at(old(self).tokens@, old(self).pos as int) == Some(w@),
                None => word_at(old(self).tokens@, old(self).pos as int) is None,
            },
    {
        if self.pos >= self.tokens.len() {
            return None;
        }
        let word = match &self.tokens[self.pos] {
            Token::Cmavo(c) => cmavo_text(*c).to_owned(),
            Token::Brivla(s) => s.clone(),
            Token::Cmevla(s) => s.clone(),
        };
        self.pos = self.pos + 1;
        Some(word)
    }

    /// The next token is a sumti connective with nothing left to connect.
    fn is_dangling_sumti_connective(&self) -> (r: bool)
        ensures
            r == (cmavo_at(self.tokens@, self.pos as int) matches Some(c)
                && spec_sumti_connective(c) is Some),
    {
        match self.peek_cmavo() {
            Some(c) => sumti_connective_of(c).is_some(),
            None => false,
        }
    }

    /// The error for a token the grammar cannot place.
    fn unconsumed_error(&self) -> (e: ParseError)
        ensures
            e.position == self.pos,
    {
        self.error("unexpected token: the sentence cannot continue here")
    }

    /// Continue a tanru after its first word: each further predicate word becomes the
    /// head of a new tanru node whose modifier is everything before it.
    fn parse_tanru_rest(&mut self, first: u32, Ghost(start): Ghost<int>) -> (r: Result<u32, ParseError>)
        requires
            old(self).inv(),
            first < old(self).selbris@.len(),
            sel_d(*old(self), start, old(self).pos as int, first as int),
        ensures
            advanced(*old(self), *final(self)),
            final(self).depth == old(self).depth,
            r matches Ok(id) ==> id < final(self).selbris@.len() && sel_d(
                *final(self),
                start,
                final(self).pos as int,
                id as int,
            ),
            r is Ok <==> (brivla_run(old(self).tokens@, old(self).pos as int) == 0 || old(self).selbris@.len() + 2
                * brivla_run(old(self).tokens@, old(self).pos as int) <= 0xffff_fff0),
            r is Ok ==> final(self).pos == old(self).pos + brivla_run(old(self).tokens@, old(self).pos as int),
            final(self).sumtis@ == old(self).sumtis@,
            final(self).sentences@ == old(self).sentences@,
    {
        let mut core = first;
        proof {
            lemma_brivla_run_bound(self.tokens@, self.pos as int);
        }
        loop
            invariant
                advanced(*old(self), *self),
                self.depth == old(self).depth,
                core < self.selbris@.len(),
                sel_d(*self, start, self.pos as int, core as int),
                old(self).pos <= self.pos,
                self.pos + brivla_run(self.tokens@, self.pos as int) == old(self).pos + brivla_run(
                    old(self).tokens@,
                    old(self).pos as int,
                ),
                self.selbris@.len() == old(self).selbris@.len() + 2 * (self.pos - old(self).pos),
                self.pos > old(self).pos ==> self.selbris@.len() <= 0xffff_fff0,
                self.sumtis@ == old(self).sumtis@,
                self.sentences@ == old(self).sentences@,
            ensures
                advanced(*old(self), *self),
                self.depth == old(self).depth,
                core < self.selbris@.len(),
                sel_d(*self, start, self.pos as int, core as int),
                old(self).pos <= self.pos,
                self.pos + brivla_run(self.tokens@, self.pos as int) == old(self).pos + brivla_run(
                    old(self).tokens@,
                    old(self).pos as int,
                ),
                self.selbris@.len() == old(self).selbris@.len() + 2 * (self.pos - old(self).pos),
                self.pos > old(self).pos ==> self.selbris@.len() <= 0xffff_fff0,
                self.sumtis@ == old(self).sumtis@,
                self.sentences@ == old(self).sentences@,
                brivla_run(self.tokens@, self.pos as int) == 0,
            decreases self.tokens@.len() - self.pos,
        {
            let ghost s0 = *self;
            match self.take_brivla() {
                Some(name) => {
                    let ghost s1 = *self;
                    assert(brivla_run(s0.tokens@, s0.pos as int) == 1 + brivla_run(s0.tokens@, s0.pos + 1));
                    proof {
                        lemma_brivla_run_bound(s0.tokens@, s0.pos + 1);
                    }
                    let h = self.alloc_selbri(Selbri::Root(name))?;
                    let ghost s2 = *self;
                    proof {
                        keep_sel(s0, s2, start, s0.pos as int, core as int);
                        assert(sel_d(s2, s0.pos as int, s2.pos as int, h as int));
                        assert(cut(start, s0.pos as int, s2.pos as int));
                    }
                    let m = core;
                    core = self.alloc_selbri(Selbri::Tanru(core, h))?;
                    proof {
                        let s3 = *self;
                        keep_sel(s2, s3, start, s0.pos as int, m as int);
                        keep_sel(s2, s3, s0.pos as int, s2.pos as int, h as int);
                        assert(cut(start, s0.pos as int, s3.pos as int));
                    }
                },
                None => {
                    assert(brivla_run(s0.tokens@, s0.pos as int) == 0);
                    break ;
                },
            }
        }
        Ok(core)
    }

    /// Try to parse a selbri: `[na] {se|te|ve|xe} (brivla {brivla} | nu sentence [kei])`.
    /// `Ok(None)` when no selbri starts here (nothing is consumed).
    pub fn try_parse_selbri(&mut self) -> (r: Result<Option<u32>, ParseError>)
        requires
            old(self).inv(),
        ensures
            advanced(*old(self), *final(self)),
            r is Ok ==> final(self).depth == old(self).depth,
            r matches Ok(Some(id)) ==> id < final(self).selbris@.len() && final(self).pos > old(self).pos,
            r matches Ok(None) ==> final(self).pos == old(self).pos,
            r matches Ok(Some(id)) ==> sel_d(
                *final(self),
                old(self).pos as int,
                final(self).pos as int,
                id as int,
            ),
            r matches Ok(None) <==> !selbri_start(old(self).tokens@, old(self).pos as int),
            brivla_at(old(self).tokens@, old(self).pos as int) is Some ==> {
                &&& r is Ok <==> old(self).selbris@.len() + 2 * brivla_run(old(self).tokens@, old(self).pos as int)
                    <= 0xffff_fff0 + 1
                &&& r is Ok ==> final(self).pos == old(self).pos + brivla_run(old(self).tokens@, old(self).pos as int)
                &&& r is Ok ==> final(self).sumtis@ == old(self).sumtis@ && final(self).sentences@ == old(
                    self,
                ).sentences@
            },
        decreases old(self).tokens@.len() - old(self).pos, 3int,
    {
        let ghost p0 = self.pos as int;
        let negated = self.eat_cmavo(Cmavo::Na);
        let ghost p1 = self.pos as int;
        let mut convs: Vec<Conversion> = Vec::new();
        loop
            invariant
                advanced(*old(self), *self),
                same_nodes(*old(self), *self),
                p0 == old(self).pos,
                p1 == p0 + if negated { 1int } else { 0int },
                negated ==> cmavo_at(self.tokens@, p0) == Some(Cmavo::Na),
                self.pos == p1 + convs@.len(),
                forall|k: int| 0 <= k < convs@.len() ==> conv_at(self.tokens@, p1 + k, #[trigger] convs@[k]),
            ensures
                advanced(*old(self), *self),
                same_nodes(*old(self), *self),
                p0 == old(self).pos,
                p1 == p0 + if negated { 1int } else { 0int },
                negated ==> cmavo_at(self.tokens@, p0) == Some(Cmavo::Na),
                self.pos == p1 + convs@.len(),
                forall|k: int| 0 <= k < convs@.len() ==> conv_at(self.tokens@, p1 + k, #[trigger] convs@[k]),
                !(cmavo_at(self.tokens@, self.pos as int) matches Some(c) && spec_conversion(c) is Some),
            decreases self.tokens@.len() - self.pos,
        {
            let pk = self.peek_cmavo();
            let cv = match pk {
                Some(c) => conversion_of(c),
                None => None,
            };
            match cv {
                Some(cv) => {
                    let ghost at = self.pos as int;
                    assert(conv_at(self.tokens@, at, cv));
                    self.pos = self.pos + 1;
                    let ghost before = convs@;
                    convs.push(cv);
                    proof {
                        assert forall|k: int| 0 <= k < convs@.len() implies conv_at(self.tokens@, p1 + k, #[trigger] convs@[k]) by {
                            if k < before.len() {
                                assert(convs@[k] == before[k]);
                            } else {
                                assert(k == before.len());
                                assert(p1 + k == at);
                            }
                        }
                    }
                },
                None => {
                    break ;
                },
            }
        }
        let ghost pc = self.pos as int;
        proof {
            if convs@.len() > 0 {
                assert(conv_at(self.tokens@, p1 + 0, convs@[0]));
            }
        }
        let ghost started = negated || convs@.len() > 0;
        assert(started ==> selbri_start(old(self).tokens@, p0));
        assert(brivla_at(old(self).tokens@, p0) is Some ==> !started);
        let mut core: u32;
        if self.eat_cmavo(Cmavo::Nu) {
            let ghost s1 = *self;
            let body = self.parse_sentence()?;
            let ghost q = self.pos as int;
            self.eat_cmavo(Cmavo::Kei);
            let ghost s2 = *self;
            core = self.alloc_selbri(Selbri::Abstraction(body))?;
            proof {
                keep_sen(s2, *self, pc + 1, q, body as int);
                assert(cut(pc + 1, q, self.pos as int));
                assert(sel_d(*self, pc, self.pos as int, core as int));
            }
        } else {
            match self.take_brivla() {
                Some(name) => {
                    core = self.alloc_selbri(Selbri::Root(name))?;
                    assert(sel_d(*self, pc, self.pos as int, core as int));
                },
                None => {
                    if negated || convs.len() > 0 {
                        return Err(self.error("expected selbri"));
                    }
                    return Ok(None);
                },
            }
            core = self.parse_tanru_rest(core, Ghost(pc))?;
        }
        let id = self.wrap_conversions(&convs, core, Ghost(p1))?;
        if negated {
            let ghost s3 = *self;
            let n = self.alloc_selbri(Selbri::Negated(id))?;
            proof {
                keep_sel(s3, *self, p1, self.pos as int, id as int);
            }
            return Ok(Some(n));
        }
        Ok(Some(id))
    }

    /// Wrap `core` in the conversions read before it, the first outermost.
    fn wrap_conversions(&mut self, convs: &Vec<Conversion>, core: u32, Ghost(p1): Ghost<int>) -> (r: Result<u32, ParseError>)
        requires
            old(self).inv(),
            core < old(self).selbris@.len(),
            0 <= p1,
            p1 + convs@.len() <= old(self).pos,
            forall|k: int| 0 <= k < convs@.len() ==> conv_at(old(self).tokens@, p1 + k, #[trigger] convs@[k]),
            sel_d(*old(self), p1 + convs@.len(), old(self).pos as int, core as int),
        ensures
            advanced(*old(self), *final(self)),
            final(self).pos == old(self).pos,
            final(self).depth == old(self).depth,
            r matches Ok(id) ==> id < final(self).selbris@.len() && sel_d(
                *final(self),
                p1,
                final(self).pos as int,
                id as int,
            ),
            r is Ok <==> (convs@.len() == 0 || old(self).selbris@.len() + convs@.len() <= 0xffff_fff0),
            r is Ok ==> final(self).selbris@.len() == old(self).selbris@.len() + convs@.len(),
            final(self).sumtis@ == old(self).sumtis@,
            final(self).sentences@ == old(self).sentences@,
    {
        let mut id = core;
        let mut i = convs.len();
        while i > 0
            invariant
                advanced(*old(self), *self),
                self.depth == old(self).depth,
                self.pos == old(self).pos,
                id < self.selbris@.len(),
                i <= convs@.len(),
                0 <= p1,
                p1 + convs@.len() <= old(self).pos,
                forall|k: int| 0 <= k < convs@.len() ==> conv_at(old(self).tokens@, p1 + k, #[trigger] convs@[k]),
                sel_d(*self, p1 + i, self.pos as int, id as int),
                self.selbris@.len() == old(self).selbris@.len() + (convs@.len() - i),
                i < convs@.len() ==> old(self).selbris@.len() + (convs@.len() - i) <= 0xffff_fff0,
                self.sumtis@ == old(self).sumtis@,
                self.sentences@ == old(self).sentences@,
            decreases i,
        {
            i = i - 1;
            let ghost s0 = *self;
            let inner = id;
            id = self.alloc_selbri(Selbri::Converted(convs[i], id))?;
            proof {
                keep_sel(s0, *self, p1 + i + 1, self.pos as int, inner as int);
                assert(conv_at(old(self).tokens@, p1 + i, convs@[i as int]));
                assert(self.selbris@[id as int] == Selbri::Converted(convs@[i as int], inner));
            }
        }
        Ok(id)
    }

    /// Parse terms until none starts at the read position.
    pub fn parse_terms(&mut self) -> (r: Result<Vec<u32>, ParseError>)
        requires
            old(self).inv(),
        ensures
            advanced(*old(self), *final(self)),
            r is Ok ==> final(self).depth == old(self).depth,
            r matches Ok(v) ==> terms_wf(v@, final(self).sumtis@.len()),
            r matches Ok(v) ==> ter_d(*final(self), old(self).pos as int, final(self).pos as int, v@),
            !term_start(cmavo_at(old(self).tokens@, old(self).pos as int)) ==> (r matches Ok(v) && v@.len() == 0)
                && final(self).pos == old(self).pos && final(self).sumtis@ == old(self).sumtis@
                && final(self).sentences@ == old(self).sentences@ && final(self).selbris@ == old(self).selbris@,
            pro_sumti_alone(old(self).tokens@, old(self).pos as int) && !sumti_connective_at(
                old(self).tokens@,
                old(self).pos + 1,
            ) && !term_start(cmavo_at(old(self).tokens@, old(self).pos + 1)) && old(self).sumtis@.len()
                < 0xffff_fff0 ==> {
                &&& r matches Ok(v) && v@.len() == 1
                &&& final(self).pos == old(self).pos + 1
                &&& final(self).selbris@ == old(self).selbris@
                &&& final(self).sentences@ == old(self).sentences@
            },
        decreases old(self).tokens@.len() - old(self).pos, 7int,
    {
        let mut terms: Vec<u32> = Vec::new();
        loop
            invariant
                advanced(*old(self), *self),
                self.depth == old(self).depth,
                terms_wf(terms@, self.sumtis@.len()),
                ter_d(*self, old(self).pos as int, self.pos as int, terms@),
                !term_start(cmavo_at(old(self).tokens@, old(self).pos as int)) ==> terms@.len() == 0
                    && self.pos == old(self).pos && self.sumtis@ == old(self).sumtis@
                    && self.sentences@ == old(self).sentences@ && self.selbris@ == old(self).selbris@,
                pro_sumti_alone(old(self).tokens@, old(self).pos as int) && !sumti_connective_at(
                    old(self).tokens@,
                    old(self).pos + 1,
                ) && !term_start(cmavo_at(old(self).tokens@, old(self).pos + 1)) && old(self).sumtis@.len()
                    < 0xffff_fff0 ==> {
                    &&& terms@.len() <= 1
                    &&& terms@.len() == 0 ==> self.pos == old(self).pos && self.selbris@ == old(self).selbris@
                        && self.sentences@ == old(self).sentences@ && self.sumtis@ == old(self).sumtis@
                    &&& terms@.len() == 1 ==> self.pos == old(self).pos + 1 && self.selbris@ == old(self).selbris@
                        && self.sentences@ == old(self).sentences@
                },
            ensures
                advanced(*old(self), *self),
                self.depth == old(self).depth,
                terms_wf(terms@, self.sumtis@.len()),
                ter_d(*self, old(self).pos as int, self.pos as int, terms@),
                !term_start(cmavo_at(old(self).tokens@, old(self).pos as int)) ==> terms@.len() == 0
                    && self.pos == old(self).pos && self.sumtis@ == old(self).sumtis@
                    && self.sentences@ == old(self).sentences@ && self.selbris@ == old(self).selbris@,
                pro_sumti_alone(old(self).tokens@, old(self).pos as int) && !sumti_connective_at(
                    old(self).tokens@,
                    old(self).pos + 1,
                ) && !term_start(cmavo_at(old(self).tokens@, old(self).pos + 1)) && old(self).sumtis@.len()
                    < 0xffff_fff0 ==> {
                    &&& terms@.len() <= 1
                    &&& terms@.len() == 0 ==> self.pos == old(self).pos && self.selbris@ == old(self).selbris@
                        && self.sentences@ == old(self).sentences@ && self.sumtis@ == old(self).sumtis@
                    &&& terms@.len() == 1 ==> self.pos == old(self).pos + 1 && self.selbris@ == old(self).selbris@
                        && self.sentences@ == old(self).sentences@
                },
                pro_sumti_alone(old(self).tokens@, old(self).pos as int) && !sumti_connective_at(
                    old(self).tokens@,
                    old(self).pos + 1,
                ) && !term_start(cmavo_at(old(self).tokens@, old(self).pos + 1)) && old(self).sumtis@.len()
                    < 0xffff_fff0 ==> terms@.len() == 1,
            decreases self.tokens@.len() - self.pos,
        {
            let ghost s0 = *self;
            match self.parse_term()? {
                Some(id) => {
                    let ghost before = terms@;
                    terms.push(id);
                    proof {
                        keep_ter(s0, *self, old(self).pos as int, s0.pos as int, before);
                        assert(terms@.drop_last() =~= before);
                        assert(cut(old(self).pos as int, s0.pos as int, self.pos as int));
                    }
                },
                None => {
                    proof {
                        keep_ter(s0, *self, old(self).pos as int, s0.pos as int, terms@);
                    }
                    break ;
                },
            }
        }
        Ok(terms)
    }

    /// Parse one term: `[place-tag] sumti`, `modal sumti`, or `fi'o selbri [fe'u] sumti`.
    /// `Ok(None)` when no term starts here (nothing is consumed).
    fn parse_term(&mut self) -> (r: Result<Option<u32>, ParseError>)
        requires
            old(self).inv(),
        ensures
            advanced(*old(self), *final(self)),
            r is Ok ==> final(self).depth == old(self).depth,
            r matches Ok(Some(id)) ==> id < final(self).sumtis@.len() && final(self).pos > old(self).pos,
            r matches Ok(None) ==> final(self).pos == old(self).pos,
            r matches Ok(Some(id)) ==> sum_d(*final(self), old(self).pos as int, final(self).pos as int, id as int),
            r matches Ok(None) <==> !term_start(cmavo_at(old(self).tokens@, old(self).pos as int)),
            !term_start(cmavo_at(old(self).tokens@, old(self).pos as int)) ==> final(self).sumtis@ == old(
                self,
            ).sumtis@ && final(self).sentences@ == old(self).sentences@ && final(self).selbris@ == old(
                self,
            ).selbris@,
            pro_sumti_alone(old(self).tokens@, old(self).pos as int) && !sumti_connective_at(
                old(self).tokens@,
                old(self).pos + 1,
            ) && old(self).sumtis@.len() < 0xffff_fff0 ==> {
                &&& r matches Ok(Some(_))
                &&& final(self).pos == old(self).pos + 1
                &&& final(self).sumtis@.len() == old(self).sumtis@.len() + 1
                &&& final(self).selbris@ == old(self).selbris@
                &&& final(self).sentences@ == old(self).sentences@
            },
        decreases old(self).tokens@.len() - old(self).pos, 6int,
    {
        let ghost p0 = self.pos as int;
        let c = match self.peek_cmavo() {
            Some(c) => c,
            None => {
                return Ok(None);
            },
        };
        match place_tag_of(c) {
            Some(tag) => {
                self.pos = self.pos + 1;
                let inner = self.parse_sumti()?;
                let ghost s1 = *self;
                let id = self.alloc_sumti(Sumti::Tagged(tag, inner))?;
                proof {
                    keep_sum(s1, *self, p0 + 1, self.pos as int, inner as int);
                }
                return Ok(Some(id));
            },
            None => {},
        }
        match bai_of(c) {
            Some(bai) => {
                self.pos = self.pos + 1;
                let inner = self.parse_sumti()?;
                let ghost s1 = *self;
                let id = self.alloc_sumti(Sumti::ModalTagged(ModalTag::Fixed(bai), inner))?;
                proof {
                    keep_sum(s1, *self, p0 + 1, self.pos as int, inner as int);
                }
                return Ok(Some(id));
            },
            None => {},
        }
        if c == Cmavo::Fiho {
            self.pos = self.pos + 1;
            let sel = match self.try_parse_selbri()? {
                Some(s) => s,
                None => {
                    return Err(self.error("expected selbri after fi'o"));
                },
            };
            let ghost k = self.pos as int;
            self.eat_cmavo(Cmavo::Fehu);
            let ghost s1 = *self;
            let inner = self.parse_sumti()?;
            let ghost s2 = *self;
            let id = self.alloc_sumti(Sumti::ModalTagged(ModalTag::Fio(sel), inner))?;
            proof {
                keep_sel(s1, *self, p0 + 1, k, sel as int);
                keep_sum(s2, *self, s1.pos as int, self.pos as int, inner as int);
                assert(cut(p0 + 1, k, self.pos as int));
            }
            return Ok(Some(id));
        }
        if starts_sumti_cmavo(c) {
            let id = self.parse_sumti()?;
            return Ok(Some(id));
        }
        Ok(None)
    }

    /// Parse a sumti: a simple sumti, optionally connected (`.e`/`.a`/`.o`/`.u` [nai]) to
    /// a further sumti.
    fn parse_sumti(&mut self) -> (r: Result<u32, ParseError>)
        requires
            old(self).inv(),
        ensures
            advanced(*old(self), *final(self)),
            r is Ok ==> final(self).depth == old(self).depth,
            r matches Ok(id) ==> id < final(self).sumtis@.len() && final(self).pos > old(self).pos,
            r matches Ok(id) ==> sum_d(*final(self), old(self).pos as int, final(self).pos as int, id as int),
            !simple_sumti_start(cmavo_at(old(self).tokens@, old(self).pos as int)) ==> r is Err,
            pro_sumti_alone(old(self).tokens@, old(self).pos as int) && !sumti_connective_at(
                old(self).tokens@,
                old(self).pos + 1,
            ) ==> {
                &&& r is Ok <==> old(self).sumtis@.len() < 0xffff_fff0
                &&& r matches Ok(id) ==> id == old(self).sumtis@.len() && final(self).pos == old(self).pos + 1
                    && final(self).sumtis@ == old(self).sumtis@.push(
                    Sumti::ProSumti(cmavo_at(old(self).tokens@, old(self).pos as int)->0),
                )
                &&& r is Ok ==> final(self).selbris@ == old(self).selbris@ && final(self).sentences@ == old(
                    self,
                ).sentences@
            },
        decreases old(self).tokens@.len() - old(self).pos, 5int,
    {
        let ghost p0 = self.pos as int;
        let left = self.parse_simple_sumti()?;
        let ghost k = self.pos as int;
        let ghost s1 = *self;
        let conn = match self.peek_cmavo() {
            Some(c) => sumti_connective_of(c),
            None => None,
        };
        match conn {
            Some(conn) => {
                self.pos = self.pos + 1;
                let nai = self.eat_cmavo(Cmavo::Nai);
                let ghost s2 = *self;
                let right = self.parse_sumti()?;
                let ghost s3 = *self;
                let id = self.alloc_sumti(Sumti::Connected(left, conn, nai, right))?;
                proof {
                    keep_sum(s1, *self, p0, k, left as int);
                    keep_sum(s3, *self, s2.pos as int, self.pos as int, right as int);
                    assert(cut(p0, k, self.pos as int));
                }
                Ok(id)
            },
            None => Ok(left),
        }
    }

    /// Parse a simple sumti (a description, name, pro-sumti, number or quoted word) and
    /// any relative clauses on it.
    fn parse_simple_sumti(&mut self) -> (r: Result<u32, ParseError>)
        requires
            old(self).inv(),
        ensures
            advanced(*old(self), *final(self)),
            r is Ok ==> final(self).depth == old(self).depth,
            r matches Ok(id) ==> id < final(self).sumtis@.len() && final(self).pos > old(self).pos,
            r matches Ok(id) ==> sum_d(*final(self), old(self).pos as int, final(self).pos as int, id as int),
            !simple_sumti_start(cmavo_at(old(self).tokens@, old(self).pos as int)) ==> r is Err,
            pro_sumti_alone(old(self).tokens@, old(self).pos as int) ==> {
                &&& r is Ok <==> old(self).sumtis@.len() < 0xffff_fff0
                &&& r matches Ok(id) ==> id == old(self).sumtis@.len() && final(self).pos == old(self).pos + 1
                    && final(self).sumtis@ == old(self).sumtis@.push(
                    Sumti::ProSumti(cmavo_at(old(self).tokens@, old(self).pos as int)->0),
                )
                &&& r is Ok ==> final(self).selbris@ == old(self).selbris@ && final(self).sentences@ == old(
                    self,
                ).sentences@
            },
        decreases old(self).tokens@.len() - old(self).pos, 4int,
    {
        let ghost p0 = self.pos as int;
        let c = match self.peek_cmavo() {
            Some(c) => c,
            None => {
                return Err(self.error("expected sumti"));
            },
        };
        let mut id: u32;
        let digit = digit_of(c);
        if c == Cmavo::Ro || digit.is_some() || c == Cmavo::Lo || c == Cmavo::Le {
            let quantifier = if c == Cmavo::Ro {
                self.pos = self.pos + 1;
                Some(Quantifier::Ro)
            } else {
                match digit {
                    Some(d) => {
                        self.pos = self.pos + 1;
                        Some(Quantifier::Number(d))
                    },
                    None => None,
                }
            };
            let ghost p = self.pos as int;
            assert(p == crate::derive::article_pos(self.tokens@, p0, quantifier));
            let gadri = if self.eat_cmavo(Cmavo::Lo) {
                Gadri::Lo
            } else if self.eat_cmavo(Cmavo::Le) {
                Gadri::Le
            } else {
                return Err(self.error("expected 'lo' or 'le' after a quantifier"));
            };
            let sel = match self.try_parse_selbri()? {
                Some(s) => s,
                None => {
                    return Err(self.error("expected selbri after gadri"));
                },
            };
            let ghost k = self.pos as int;
            self.eat_cmavo(Cmavo::Ku);
            let ghost s1 = *self;
            id = self.alloc_sumti(Sumti::Description { gadri, selbri: sel, quantifier })?;
            proof {
                keep_sel(s1, *self, p + 1, k, sel as int);
                assert(cut(p + 1, k, self.pos as int));
            }
        } else if c == Cmavo::La {
            self.pos = self.pos + 1;
            match self.take_cmevla() {
                Some(name) => {
                    id = self.alloc_sumti(Sumti::Name(name))?;
                },
                None => {
                    let sel = match self.try_parse_selbri()? {
                        Some(s) => s,
                        None => {
                            return Err(self.error("expected a name or selbri after 'la'"));
                        },
                    };
                    let ghost k = self.pos as int;
                    self.eat_cmavo(Cmavo::Ku);
                    let ghost s1 = *self;
                    id = self.alloc_sumti(
                        Sumti::Description { gadri: Gadri::La, selbri: sel, quantifier: None },
                    )?;
                    proof {
                        keep_sel(s1, *self, p0 + 1, k, sel as int);
                        assert(cut(p0 + 1, k, self.pos as int));
                    }
                },
            }
        } else if is_pro_sumti_cmavo(c) {
            self.pos = self.pos + 1;
            id = self.alloc_sumti(Sumti::ProSumti(c))?;
        } else if c == Cmavo::Li {
            self.pos = self.pos + 1;
            let d = match self.peek_cmavo() {
                Some(n) => digit_of(n),
                None => None,
            };
            match d {
                Some(d) => {
                    self.pos = self.pos + 1;
                    id = self.alloc_sumti(Sumti::Number(d))?;
                },
                None => {
                    return Err(self.error("expected a number after 'li'"));
                },
            }
        } else if c == Cmavo::Zo {
            self.pos = self.pos + 1;
            match self.take_word() {
                Some(w) => {
                    id = self.alloc_sumti(Sumti::QuotedLiteral(w))?;
                },
                None => {
                    return Err(self.error("expected a word after 'zo'"));
                },
            }
        } else {
            return Err(self.error("expected sumti"));
        }
        assert(sum_d(*self, p0, self.pos as int, id as int));
        self.parse_rel_clauses(id, Ghost(p0))
    }

    /// Attach any relative clauses (`poi`/`noi` sentence [`ku'o`]) to sumti `inner`,
    /// which the tokens from `start` spell.
    fn parse_rel_clauses(&mut self, inner: u32, Ghost(start): Ghost<int>) -> (r: Result<u32, ParseError>)
        requires
            old(self).inv(),
            inner < old(self).sumtis@.len(),
            sum_d(*old(self), start, old(self).pos as int, inner as int),
        ensures
            advanced(*old(self), *final(self)),
            r is Ok ==> final(self).depth == old(self).depth,
            r matches Ok(id) ==> id < final(self).sumtis@.len() && sum_d(
                *final(self),
                start,
                final(self).pos as int,
                id as int,
            ),
            cmavo_at(old(self).tokens@, old(self).pos as int) != Some(Cmavo::Poi) && cmavo_at(
                old(self).tokens@,
                old(self).pos as int,
            ) != Some(Cmavo::Noi) ==> (r matches Ok(id) && id == inner) && final(self).pos == old(self).pos
                && final(self).sumtis@ == old(self).sumtis@ && final(self).selbris@ == old(self).selbris@
                && final(self).sentences@ == old(self).sentences@,
        decreases old(self).tokens@.len() - old(self).pos, 3int,
    {
        let mut id = inner;
        loop
            invariant
                advanced(*old(self), *self),
                self.depth == old(self).depth,
                id < self.sumtis@.len(),
                sum_d(*self, start, self.pos as int, id as int),
                cmavo_at(old(self).tokens@, old(self).pos as int) != Some(Cmavo::Poi) && cmavo_at(
                    old(self).tokens@,
                    old(self).pos as int,
                ) != Some(Cmavo::Noi) ==> id == inner && self.pos == old(self).pos && self.sumtis@ == old(
                    self,
                ).sumtis@ && self.selbris@ == old(self).selbris@ && self.sentences@ == old(self).sentences@,
            decreases self.tokens@.len() - self.pos,
        {
            let ghost k = self.pos as int;
            let ghost s0 = *self;
            let restrictive: bool;
            if self.eat_cmavo(Cmavo::Poi) {
                restrictive = true;
            } else if self.eat_cmavo(Cmavo::Noi) {
                restrictive = false;
            } else {
                break ;
            }
            let clause = self.parse_sentence()?;
            let ghost m = self.pos as int;
            self.eat_cmavo(Cmavo::Kuho);
            let ghost s1 = *self;
            let prev = id;
            id = self.alloc_sumti(Sumti::Restricted { inner: id, clause, restrictive })?;
            proof {
                keep_sum(s0, *self, start, k, prev as int);
                keep_sen(s1, *self, k + 1, m, clause as int);
                assert(cut2(start, k, m, self.pos as int));
            }
        }
        Ok(id)
    }

    /// Parse a predicate: a selbri (a top-level `na` taken off it as the negation), its
    /// trailing terms and an elidable `vau`. `Ok(None)` when no selbri starts here
    /// (nothing is consumed).
    fn parse_predicate(&mut self) -> (r: Result<Option<(u32, bool, Vec<u32>)>, ParseError>)
        requires
            old(self).inv(),
        ensures
            advanced(*old(self), *final(self)),
            r is Ok ==> final(self).depth == old(self).depth,
            r matches Ok(None) ==> final(self).pos == old(self).pos,
            r matches Ok(None) <==> !selbri_start(old(self).tokens@, old(self).pos as int),
            bare_predicate_at(old(self).tokens@, old(self).pos as int) && bare_predicate_fits(
                old(self).tokens@,
                old(self).pos as int,
                old(self).selbris@.len(),
            ) ==> {
                &&& r matches Ok(Some(_))
                &&& final(self).pos == bare_predicate_end(old(self).tokens@, old(self).pos as int)
                &&& final(self).sentences@ == old(self).sentences@
            },
            r matches Ok(Some((rel, neg, tail))) ==> {
                &&& rel < final(self).selbris@.len()
                &&& terms_wf(tail@, final(self).sumtis@.len())
                &&& final(self).pos > old(self).pos
                &&& predicate_d(
                    final(self).tokens@,
                    old(self).pos as int,
                    final(self).pos as int,
                    final(self).selbris@,
                    final(self).sumtis@,
                    final(self).sentences@,
                    rel,
                    neg,
                    tail@,
                )
            },
        decreases old(self).tokens@.len() - old(self).pos, 7int,
    {
        let ghost p = self.pos as int;
        let selbri = match self.try_parse_selbri()? {
            Some(s) => s,
            None => {
                return Ok(None);
            },
        };
        let ghost q = self.pos as int;
        let ghost s1 = *self;
        proof {
            lemma_wf_nodes(self.selbris@, self.sumtis@, self.sentences@);
            assert(selbri_wf(self.selbris@, self.sentences@.len(), selbri as int));
        }
        let (rel, negated) = match &self.selbris[selbri as usize] {
            Selbri::Negated(inner) => (*inner, true),
            _ => (selbri, false),
        };
        assert(unwrap_negation(self.selbris@, selbri as int) == (rel as int, negated));
        let tail_terms = self.parse_terms()?;
        let ghost r = self.pos as int;
        self.eat_cmavo(Cmavo::Vau);
        proof {
            keep_sel(s1, *self, p, q, selbri as int);
            assert(self.selbris@[selbri as int] == s1.selbris@[selbri as int]);
            lemma_predicate_intro(
                self.tokens@,
                p,
                q,
                r,
                self.pos as int,
                self.selbris@,
                self.sumtis@,
                self.sentences@,
                selbri as int,
                rel,
                negated,
                tail_terms@,
            );
        }
        Ok(Some((rel, negated, tail_terms)))
    }

    /// Parse a simple (non-connected) sentence into a Bridi.
    pub fn parse_simple_sentence(&mut self) -> (r: Result<Bridi, ParseError>)
        requires
            old(self).inv(),
        ensures
            advanced(*old(self), *final(self)),
            r is Ok ==> final(self).depth == old(self).depth,
            r matches Ok(b) ==> bridi_wf(b, final(self).selbris@.len(), final(self).sumtis@.len())
                && final(self).pos > old(self).pos,
            r matches Ok(b) ==> bridi_d(
                final(self).tokens@,
                old(self).pos as int,
                final(self).pos as int,
                final(self).selbris@,
                final(self).sumtis@,
                final(self).sentences@,
                b,
            ),
            old(self).depth >= MAX_DEPTH ==> r is Err,
            !bridi_opening(old(self).tokens@, old(self).pos as int) ==> r is Err,
            old(self).depth < MAX_DEPTH && !bridi_opening(old(self).tokens@, old(self).pos as int) ==> (r matches Err(e)
                && e.message@ == "expected selbri or terms"@ && e.position == old(self).pos),
            old(self).depth < MAX_DEPTH && bare_predicate_at(old(self).tokens@, old(self).pos as int)
                && bare_predicate_fits(old(self).tokens@, old(self).pos as int, old(self).selbris@.len()) ==> {
                &&& r is Ok
                &&& final(self).pos == bare_predicate_end(old(self).tokens@, old(self).pos as int)
                &&& final(self).sentences@ == old(self).sentences@
            },
            old(self).depth < MAX_DEPTH && pro_head_bridi_at(old(self).tokens@, old(self).pos as int)
                && old(self).sumtis@.len() < 0xffff_fff0 && bare_predicate_fits(
                old(self).tokens@,
                after_opt(old(self).tokens@, old(self).pos + 1, Cmavo::Cu),
                old(self).selbris@.len(),
            ) ==> {
                &&& r is Ok
                &&& final(self).pos == pro_head_bridi_end(old(self).tokens@, old(self).pos as int)
                &&& final(self).sentences@ == old(self).sentences@
            },
        decreases old(self).tokens@.len() - old(self).pos, 8int,
    {
        self.enter()?;
        let ghost p0 = self.pos as int;

        let mut tense = self.try_parse_tense();
        let mut attitudinal = self.try_parse_attitudinal();
        let ghost p2 = self.pos as int;

        let head_terms = self.parse_terms()?;
        let ghost p3 = self.pos as int;
        let ghost s3 = *self;
        self.eat_cmavo(Cmavo::Cu);

        if tense.is_none() {
            tense = self.try_parse_tense();
        }
        if attitudinal.is_none() {
            attitudinal = self.try_parse_attitudinal();
        }

        match self.parse_predicate()? {
            None => {
                // No selbri: a clause with head terms but no predicate is a bare sumti,
                // not a complete bridi. Fail closed with a distinct error.
                self.leave();
                if head_terms.len() == 0 {
                    return Err(self.error("expected selbri or terms"));
                } else if self.is_dangling_sumti_connective() {
                    return Err(self.unconsumed_error());
                } else {
                    return Err(
                        self.error("a bridi needs a selbri: a bare sumti is not a complete statement"),
                    );
                }
            },
            Some((relation, negated, tail_terms)) => {
                self.leave();
                let b = Bridi { relation, head_terms, tail_terms, negated, tense, attitudinal };
                proof {
                    keep_ter(s3, *self, p2, p3, b.head_terms@);
                    lemma_bridi_intro(
                        self.tokens@,
                        p0,
                        p3,
                        self.pos as int,
                        self.selbris@,
                        self.sumtis@,
                        self.sentences@,
                        b,
                    );
                }
                Ok(b)
            },
        }
    }

    /// Parse one GIhA bridi-tail: `[na] selbri tail-terms [vau]`, reusing the chain's
    /// shared head. A leading `na` negates this tail only.
    pub fn parse_bridi_tail(&mut self, connective: Connective, right_negated: bool) -> (r: Result<
        GihaTail,
        ParseError,
    >)
        requires
            old(self).inv(),
        ensures
            advanced(*old(self), *final(self)),
            r is Ok ==> final(self).depth == old(self).depth,
            r matches Ok(t) ==> {
                &&& tail_wf(t, final(self).selbris@.len(), final(self).sumtis@.len())
                &&& t.connective == connective
                &&& t.right_negated == right_negated
                &&& final(self).pos > old(self).pos
                &&& predicate_d(
                    final(self).tokens@,
                    old(self).pos as int,
                    final(self).pos as int,
                    final(self).selbris@,
                    final(self).sumtis@,
                    final(self).sentences@,
                    t.relation,
                    t.negated,
                    t.tail_terms@,
                )
            },
            (cmavo_at(old(self).tokens@, old(self).pos as int) matches Some(c) && spec_tense(c)
                is Some) ==> r is Err,
            !selbri_start(old(self).tokens@, old(self).pos as int) ==> r is Err,
            (cmavo_at(old(self).tokens@, old(self).pos as int) matches Some(c) && spec_tense(c) is Some) ==> (r matches Err(e)
                && e.message@ == "a tense marker on a GIhA bridi-tail is not supported (a tense before the first selbri applies to the first tail only); restate as separate `.i` sentences to tense each claim"@),
            !selbri_start(old(self).tokens@, old(self).pos as int) && !(cmavo_at(old(self).tokens@, old(self).pos as int) matches Some(c)
                && spec_tense(c) is Some) ==> (r matches Err(e) && e.message@ == "expected selbri after bridi-tail connective"@
                && e.position == old(self).pos),
            bare_predicate_at(old(self).tokens@, old(self).pos as int) && bare_predicate_fits(
                old(self).tokens@,
                old(self).pos as int,
                old(self).selbris@.len(),
            ) ==> r is Ok && final(self).pos == bare_predicate_end(old(self).tokens@, old(self).pos as int),
        decreases old(self).tokens@.len() - old(self).pos, 8int,
    {
        match self.peek_cmavo() {
            Some(Cmavo::Pu) | Some(Cmavo::Ca) | Some(Cmavo::Ba) => {
                return Err(
                    self.error(
                        "a tense marker on a GIhA bridi-tail is not supported (a tense before the first selbri applies to the first tail only); restate as separate `.i` sentences to tense each claim",
                    ),
                );
            },
            _ => {},
        }
        match self.parse_predicate()? {
            None => Err(self.error("expected selbri after bridi-tail connective")),
            Some((relation, negated, tail_terms)) => Ok(
                GihaTail { connective, right_negated, relation, tail_terms, negated },
            ),
        }
    }

    /// Parse a sentence: prenex, forethought connective, or simple bridi with any GIhA
    /// bridi-tails.
    pub fn parse_sentence(&mut self) -> (r: Result<u32, ParseError>)
        requires
            old(self).inv(),
        ensures
            advanced(*old(self), *final(self)),
            r is Ok ==> final(self).depth == old(self).depth,
            r matches Ok(id) ==> id < final(self).sentences@.len() && final(self).pos > old(self).pos,
            r matches Ok(id) ==> sen_d(*final(self), old(self).pos as int, final(self).pos as int, id as int),
            old(self).depth >= MAX_DEPTH ==> r is Err,
            !sentence_opening(old(self).tokens@, old(self).pos as int) ==> r is Err,
            old(self).depth + 1 < MAX_DEPTH && !sentence_opening(old(self).tokens@, old(self).pos as int) ==> (r matches Err(
                e,
            ) && e.message@ == "expected selbri or terms"@ && e.position == old(self).pos),
            old(self).depth + 1 < MAX_DEPTH && old(self).sentences@.len() < 0xffff_fff0 && plain_bridi_at(
                old(self).tokens@,
                old(self).pos as int,
                old(self).selbris@.len(),
                old(self).sumtis@.len(),
            ) && !(cmavo_at(old(self).tokens@, plain_bridi_end(old(self).tokens@, old(self).pos as int)) matches Some(
                c,
            ) && spec_giha(c) is Some) ==> r is Ok && final(self).pos == plain_bridi_end(
                old(self).tokens@,
                old(self).pos as int,
            ),
        decreases old(self).tokens@.len() - old(self).pos, 9int,
    {
        self.enter()?;
        let ghost p0 = self.pos as int;

        // Prenex `ro da ro de zo'u <sentence>` quantifies a whole (recursive) sentence body.
        proof {
            lemma_ro_run_logic(self.tokens@, self.pos as int);
        }
        match self.try_parse_prenex() {
            Some(vars) => {
                let ghost q = self.pos as int;
                let body = self.parse_sentence()?;
                self.leave();
                let ghost s1 = *self;
                let id = self.alloc_sentence(Sentence::Prenex(vars, body))?;
                proof {
                    keep_sen(s1, *self, q, self.pos as int, body as int);
                }
                return Ok(id);
            },
            None => {},
        }

        let conn = if self.eat_cmavo(Cmavo::Ganai) {
            Some(SentenceConnective::GanaiGi)
        } else if self.eat_cmavo(Cmavo::Ge) {
            Some(SentenceConnective::GeGi)
        } else if self.eat_cmavo(Cmavo::Ga) {
            Some(SentenceConnective::GaGi)
        } else if self.eat_cmavo(Cmavo::Go) {
            Some(SentenceConnective::GoGi)
        } else {
            None
        };

        match conn {
            Some(connective) => {
                assert(forethought(cmavo_at(self.tokens@, p0)) == Some(connective));
                let left = self.parse_sentence()?;
                let ghost k = self.pos as int;
                let ghost s1 = *self;

                if !self.eat_cmavo(Cmavo::Gi) {
                    self.leave();
                    return Err(
                        self.error("expected 'gi' after forethought connective and first sentence"),
                    );
                }

                let right = self.parse_sentence()?;
                let ghost s2 = *self;

                self.leave();
                let id = self.alloc_sentence(Sentence::Connected(connective, left, right))?;
                proof {
                    keep_sen(s1, *self, p0 + 1, k, left as int);
                    keep_sen(s2, *self, k + 1, self.pos as int, right as int);
                    lemma_sentence_forethought_intro(
                        self.tokens@,
                        p0,
                        k,
                        self.pos as int,
                        self.selbris@,
                        self.sumtis@,
                        self.sentences@,
                        id as int,
                    );
                }
                return Ok(id);
            },
            None => {},
        }
        assert(forethought(cmavo_at(self.tokens@, p0)) is None);

        let bridi = self.parse_simple_sentence()?;
        let ghost bg = bridi;
        let ghost k = self.pos as int;
        let ghost s1 = *self;

        // GIhA bridi-tail connectives: each tail is a full predication sharing the head
        // terms. A fused `gi'enai` negates the right tail, as does a spaced `gi'e nai`.
        let tails = self.parse_giha_tails(&bridi, Ghost(k))?;
        let ghost s2 = *self;

        self.leave();
        let id = if tails.len() == 0 {
            self.alloc_sentence(Sentence::Simple(bridi))?
        } else {
            let fuel = self.tokens.len();
            self.build_giha_unit(bridi, &tails, fuel)?
        };
        proof {
            lemma_bridi_mono(
                self.tokens@,
                p0,
                k,
                s1.selbris@,
                s1.sumtis@,
                s1.sentences@,
                self.selbris@,
                self.sumtis@,
                self.sentences@,
                bg,
            );
            lemma_tails_mono(
                self.tokens@,
                k,
                s2.pos as int,
                s2.selbris@,
                s2.sumtis@,
                s2.sentences@,
                self.selbris@,
                self.sumtis@,
                self.sentences@,
                tails@,
            );
            lemma_sentence_bridi_intro(
                self.tokens@,
                p0,
                k,
                self.pos as int,
                self.selbris@,
                self.sumtis@,
                self.sentences@,
                bg,
                tails@,
                id as int,
            );
        }
        Ok(id)
    }

    /// Parse the GIhA bridi-tails after a bridi: each a bridi-tail connective (fused with
    /// `nai`, or followed by one), then a tail.
    fn parse_giha_tails(&mut self, head: &Bridi, Ghost(k0): Ghost<int>) -> (r: Result<Vec<GihaTail>, ParseError>)
        requires
            old(self).inv(),
            k0 == old(self).pos,
            bridi_wf(*head, old(self).selbris@.len(), old(self).sumtis@.len()),
        ensures
            advanced(*old(self), *final(self)),
            r is Ok ==> final(self).depth == old(self).depth,
            r matches Ok(ts) ==> {
                &&& bridi_wf(*head, final(self).selbris@.len(), final(self).sumtis@.len())
                &&& forall|t: int|
                    0 <= t < ts@.len() ==> tail_wf(
                        #[trigger] ts@[t],
                        final(self).selbris@.len(),
                        final(self).sumtis@.len(),
                    )
                &&& tails_d(
                    final(self).tokens@,
                    k0,
                    final(self).pos as int,
                    final(self).selbris@,
                    final(self).sumtis@,
                    final(self).sentences@,
                    ts@,
                )
            },
            !(cmavo_at(old(self).tokens@, k0) matches Some(c) && spec_giha(c) is Some) ==> {
                &&& r matches Ok(ts) && ts@.len() == 0
                &&& final(self).pos == old(self).pos
                &&& final(self).selbris@ == old(self).selbris@
                &&& final(self).sumtis@ == old(self).sumtis@
                &&& final(self).sentences@ == old(self).sentences@
            },
            giha_without_tail(old(self).tokens@, k0) ==> r is Err,
        decreases old(self).tokens@.len() - old(self).pos, 9int,
    {
        let mut tails: Vec<GihaTail> = Vec::new();
        loop
            invariant
                advanced(*old(self), *self),
                k0 == old(self).pos,
                self.depth == old(self).depth,
                bridi_wf(*head, self.selbris@.len(), self.sumtis@.len()),
                forall|t: int|
                    0 <= t < tails@.len() ==> tail_wf(
                        #[trigger] tails@[t],
                        self.selbris@.len(),
                        self.sumtis@.len(),
                    ),
                tails_d(
                    self.tokens@,
                    k0,
                    self.pos as int,
                    self.selbris@,
                    self.sumtis@,
                    self.sentences@,
                    tails@,
                ),
                tails@.len() == 0 ==> {
                    &&& self.pos == old(self).pos
                    &&& self.selbris@ == old(self).selbris@
                    &&& self.sumtis@ == old(self).sumtis@
                    &&& self.sentences@ == old(self).sentences@
                },
                !(cmavo_at(old(self).tokens@, k0) matches Some(c) && spec_giha(c) is Some) ==> tails@.len() == 0,
                giha_without_tail(old(self).tokens@, k0) ==> tails@.len() == 0,
            ensures
                advanced(*old(self), *self),
                k0 == old(self).pos,
                self.depth == old(self).depth,
                bridi_wf(*head, self.selbris@.len(), self.sumtis@.len()),
                forall|t: int|
                    0 <= t < tails@.len() ==> tail_wf(
                        #[trigger] tails@[t],
                        self.selbris@.len(),
                        self.sumtis@.len(),
                    ),
                tails_d(
                    self.tokens@,
                    k0,
                    self.pos as int,
                    self.selbris@,
                    self.sumtis@,
                    self.sentences@,
                    tails@,
                ),
                tails@.len() == 0 ==> {
                    &&& self.pos == old(self).pos
                    &&& self.selbris@ == old(self).selbris@
                    &&& self.sumtis@ == old(self).sumtis@
                    &&& self.sentences@ == old(self).sentences@
                },
                !(cmavo_at(old(self).tokens@, k0) matches Some(c) && spec_giha(c) is Some) ==> tails@.len() == 0,
                giha_without_tail(old(self).tokens@, k0) ==> tails@.len() == 0,
                !(cmavo_at(self.tokens@, self.pos as int) matches Some(c) && spec_giha(c) is Some),
            decreases self.tokens@.len() - self.pos,
        {
            let ghost m = self.pos as int;
            let ghost s0 = *self;
            let g = match self.peek_cmavo() {
                Some(c) => giha_of(c),
                None => None,
            };
            let (connective, fused_nai) = match g {
                Some(g) => g,
                None => {
                    break ;
                },
            };
            self.pos = self.pos + 1;
            let mut right_negated = fused_nai;
            if !fused_nai {
                right_negated = self.eat_cmavo(Cmavo::Nai);
            }
            let t = self.parse_bridi_tail(connective, right_negated)?;
            let ghost tg = t;
            let ghost before = tails@;
            tails.push(t);
            proof {
                assert(tail_d(
                    self.tokens@,
                    m,
                    self.pos as int,
                    self.selbris@,
                    self.sumtis@,
                    self.sentences@,
                    tg,
                ));
                lemma_tails_mono(
                    self.tokens@,
                    k0,
                    m,
                    s0.selbris@,
                    s0.sumtis@,
                    s0.sentences@,
                    self.selbris@,
                    self.sumtis@,
                    self.sentences@,
                    before,
                );
                lemma_tails_push(
                    self.tokens@,
                    k0,
                    m,
                    self.pos as int,
                    self.selbris@,
                    self.sumtis@,
                    self.sentences@,
                    before,
                    tg,
                );
                assert(tails@ == before.push(tg));
            }
        }
        Ok(tails)
    }

    /// Lower a GIhA chain (`head tail1 gi'e tail2 ...`), chosen by its head:
    ///  - every head term constant: repeat the head per tail, as `.i je` would;
    ///  - a connected sumti (directly or under a place tag) in the head: distribute the
    ///    whole chain over its operands, one chain per operand, joined by the connective;
    ///  - otherwise: a `SharedHead` node, so the head's witness is bound once.
    fn build_giha_unit(&mut self, head: Bridi, tails: &Vec<GihaTail>, fuel: usize) -> (r: Result<
        u32,
        ParseError,
    >)
        requires
            old(self).inv(),
            tails@.len() > 0,
            bridi_wf(head, old(self).selbris@.len(), old(self).sumtis@.len()),
            forall|t: int|
                0 <= t < tails@.len() ==> tail_wf(
                    #[trigger] tails@[t],
                    old(self).selbris@.len(),
                    old(self).sumtis@.len(),
                ),
        ensures
            advanced(*old(self), *final(self)),
            final(self).pos == old(self).pos,
            final(self).depth == old(self).depth,
            r matches Ok(id) ==> id < final(self).sentences@.len() && lowered(
                final(self).sumtis@,
                final(self).sentences@,
                head,
                tails@,
                id as int,
                fuel as nat,
            ),
            all_safe(old(self).sumtis@, head.head_terms@) ==> (r is Ok <==> old(self).sentences@.len() + 1 + 2
                * tails@.len() <= 0xffff_fff0),
            !all_safe(old(self).sumtis@, head.head_terms@) && (forall|k: int|
                0 <= k < head.head_terms@.len() ==> !#[trigger] spec_head_has_connective(
                    old(self).sumtis@,
                    head.head_terms@[k] as int,
                )) ==> (r is Ok <==> old(self).sentences@.len() < 0xffff_fff0),
            fuel == 0 && (exists|k: int|
                0 <= k < head.head_terms@.len() && #[trigger] spec_head_has_connective(
                    old(self).sumtis@,
                    head.head_terms@[k] as int,
                )) && !all_safe(old(self).sumtis@, head.head_terms@) ==> r is Err,
        decreases fuel,
    {
        let ghost hb = head;
        if all_safe_heads(&self.sumtis, &head.head_terms) {
            let ghost u0 = self.sumtis@;
            let id = self.build_chain(head, tails)?;
            proof {
                assert(self.sumtis@ == u0);
                assert(all_safe(self.sumtis@, hb.head_terms@));
            }
            return Ok(id);
        }
        proof {
            assert(!all_safe(self.sumtis@, hb.head_terms@));
        }
        match find_head_connective(&self.sumtis, &head.head_terms) {
            None => {
                let ghost u0 = self.sumtis@;
                let id = self.alloc_sentence(Sentence::SharedHead(head, copy_tails(tails)))?;
                proof {
                    assert(self.sumtis@ == u0);
                }
                Ok(id)
            },
            Some(k) => {
                if fuel == 0 {
                    return Err(self.error("too many connected sumti in a GIhA head"));
                }
                let term = head.head_terms[k];
                assert(terms_wf(head.head_terms@, self.sumtis@.len()));
                proof {
                    lemma_wf_nodes(self.selbris@, self.sumtis@, self.sentences@);
                }
                assert(sumti_wf(self.sumtis@, self.selbris@.len(), self.sentences@.len(), term as int));
                let (tag, conn_id) = match &self.sumtis[term as usize] {
                    Sumti::Tagged(tag, inner) => (Some(*tag), *inner),
                    _ => (None, term),
                };
                assert(sumti_wf(self.sumtis@, self.selbris@.len(), self.sentences@.len(), conn_id as int));
                let (l, conn, nai, r) = match &self.sumtis[conn_id as usize] {
                    Sumti::Connected(l, conn, nai, r) => (*l, *conn, *nai, *r),
                    _ => {
                        return Err(
                            self.error(
                                "a connected sumti nested under more than one place tag in a GIhA head is not supported",
                            ),
                        );
                    },
                };
                let ghost u1 = self.sumtis@;
                let (left_term, right_term) = match tag {
                    None => (l, r),
                    Some(t) => {
                        let a = self.alloc_sumti(Sumti::Tagged(t, l))?;
                        let b = self.alloc_sumti(Sumti::Tagged(t, r))?;
                        (a, b)
                    },
                };
                let ghost u2 = self.sumtis@;
                let left_head = Bridi {
                    relation: head.relation,
                    head_terms: replace_id(&head.head_terms, k, left_term),
                    tail_terms: copy_ids(&head.tail_terms),
                    negated: head.negated,
                    tense: head.tense,
                    attitudinal: head.attitudinal,
                };
                let right_head = Bridi {
                    relation: head.relation,
                    head_terms: replace_id(&head.head_terms, k, right_term),
                    tail_terms: copy_ids(&head.tail_terms),
                    negated: head.negated,
                    tense: head.tense,
                    attitudinal: head.attitudinal,
                };
                let ghost (lb, rb) = (left_head, right_head);
                proof {
                    lemma_first_connective_at(u1, hb.head_terms@, k as int);
                    assert(split_heads(u2, hb, k as int, lb, rb));
                }
                let ghost s3 = *self;
                let left = self.build_giha_unit(left_head, tails, fuel - 1)?;
                let ghost s4 = *self;
                let right = self.build_giha_unit(right_head, tails, fuel - 1)?;
                let ghost s5 = *self;
                let id = self.alloc_sentence(
                    Sentence::Connected(
                        SentenceConnective::Afterthought {
                            left_negated: false,
                            connective: conn,
                            right_negated: nai,
                        },
                        left,
                        right,
                    ),
                )?;
                proof {
                    lemma_lowered_mono(s4.sumtis@, s4.sentences@, self.sumtis@, self.sentences@, lb, tails@, left as int, (fuel - 1) as nat);
                    lemma_lowered_mono(s5.sumtis@, s5.sentences@, self.sumtis@, self.sentences@, rb, tails@, right as int, (fuel - 1) as nat);
                    lemma_split_heads_mono(u2, self.sumtis@, hb, k as int, lb, rb);
                    lemma_first_connective_mono(u1, self.sumtis@, hb.head_terms@, k as int);
                    assert(self.sumtis@[term as int] == u1[term as int]);
                    assert(self.sumtis@[conn_id as int] == u1[conn_id as int]);
                    assert(first_head_connective(self.sumtis@, hb.head_terms@, k as int));
                    assert(split_heads(self.sumtis@, hb, k as int, lb, rb));
                    lemma_all_safe_mono(u1, self.sumtis@, hb.head_terms@);
                    assert(!all_safe(self.sumtis@, hb.head_terms@));
                }
                Ok(id)
            },
        }
    }

    /// The repeated-head chain of a constant GIhA head: the head's bridi, then each tail
    /// as a bridi with the same head terms, joined left to right by its connective.
    fn build_chain(&mut self, head: Bridi, tails: &Vec<GihaTail>) -> (r: Result<u32, ParseError>)
        requires
            old(self).inv(),
            bridi_wf(head, old(self).selbris@.len(), old(self).sumtis@.len()),
            forall|t: int|
                0 <= t < tails@.len() ==> tail_wf(
                    #[trigger] tails@[t],
                    old(self).selbris@.len(),
                    old(self).sumtis@.len(),
                ),
        ensures
            advanced(*old(self), *final(self)),
            final(self).pos == old(self).pos,
            final(self).depth == old(self).depth,
            final(self).sumtis@ == old(self).sumtis@,
            r matches Ok(id) ==> id < final(self).sentences@.len() && chain(
                final(self).sumtis@,
                final(self).sentences@,
                head,
                tails@,
                id as int,
            ),
            r is Ok <==> old(self).sentences@.len() + 1 + 2 * tails@.len() <= 0xffff_fff0,
            r is Ok ==> final(self).sentences@.len() == old(self).sentences@.len() + 1 + 2 * tails@.len(),
    {
        let ghost hb = head;
        let head_terms = copy_ids(&head.head_terms);
        let mut sentence = self.alloc_sentence(Sentence::Simple(head))?;
        assert(tails@.take(0) =~= Seq::<GihaTail>::empty());
        let mut i: usize = 0;
        while i < tails.len()
            invariant
                advanced(*old(self), *self),
                self.pos == old(self).pos,
                self.depth == old(self).depth,
                self.sumtis@ == old(self).sumtis@,
                i <= tails@.len(),
                sentence < self.sentences@.len(),
                head_terms@ == hb.head_terms@,
                terms_wf(head_terms@, self.sumtis@.len()),
                forall|t: int|
                    0 <= t < tails@.len() ==> tail_wf(
                        #[trigger] tails@[t],
                        self.selbris@.len(),
                        self.sumtis@.len(),
                    ),
                chain(self.sumtis@, self.sentences@, hb, tails@.take(i as int), sentence as int),
                self.sentences@.len() == old(self).sentences@.len() + 1 + 2 * i,
                self.sentences@.len() <= 0xffff_fff0,
            decreases tails@.len() - i,
        {
            let t = &tails[i];
            assert(tail_wf(tails@[i as int], self.selbris@.len(), self.sumtis@.len()));
            let tail_bridi = Bridi {
                relation: t.relation,
                head_terms: copy_ids(&head_terms),
                tail_terms: copy_ids(&t.tail_terms),
                negated: t.negated,
                tense: None,
                attitudinal: None,
            };
            let ghost s0 = *self;
            let right = self.alloc_sentence(Sentence::Simple(tail_bridi))?;
            let ghost s1 = *self;
            let left = sentence;
            sentence = self.alloc_sentence(
                Sentence::Connected(
                    SentenceConnective::Afterthought {
                        left_negated: false,
                        connective: t.connective,
                        right_negated: t.right_negated,
                    },
                    left,
                    right,
                ),
            )?;
            proof {
                lemma_chain_mono(s0.sumtis@, s0.sentences@, self.sumtis@, self.sentences@, hb, tails@.take(i as int), left as int);
                assert(tails@.take(i + 1).drop_last() =~= tails@.take(i as int));
                assert(tails@.take(i + 1).last() == tails@[i as int]);
                assert(self.sentences@[right as int] == s1.sentences@[right as int]);
                assert(tail_bridi_node(self.sentences@, right as int, hb, tails@[i as int]));
            }
            i = i + 1;
        }
        assert(tails@.take(tails@.len() as int) =~= tails@);
        Ok(sentence)
    }

    /// Parse a whole text: `[.i] sentence { .i [je|ja|jo|ju] sentence }`. A `.i` with a
    /// connective joins the next sentence to the current one; a bare `.i` starts a new
    /// top-level sentence. Every token must be consumed.
    pub fn parse_text(&mut self) -> (r: Result<Vec<u32>, ParseError>)
        requires
            old(self).inv(),
            old(self).pos == 0,
        ensures
            advanced(*old(self), *final(self)),
            r matches Ok(roots) ==> {
                &&& roots@.len() > 0
                &&& forall|k: int|
                    0 <= k < roots@.len() ==> #[trigger] roots@[k] < final(self).sentences@.len()
                &&& final(self).pos == final(self).tokens@.len()
                &&& text_d(
                    final(self).tokens@,
                    final(self).selbris@,
                    final(self).sumtis@,
                    final(self).sentences@,
                    roots@,
                )
            },
            old(self).depth >= MAX_DEPTH ==> r is Err,
            !sentence_opening(old(self).tokens@, after_opt(old(self).tokens@, 0, Cmavo::I)) ==> r is Err,
            old(self).depth + 1 < MAX_DEPTH && !sentence_opening(old(self).tokens@, after_opt(old(self).tokens@, 0, Cmavo::I))
                ==> (r matches Err(e) && e.message@ == "expected selbri or terms"@ && e.position == after_opt(
                old(self).tokens@,
                0,
                Cmavo::I,
            )),
            ({
                let i0 = after_opt(old(self).tokens@, 0, Cmavo::I);
                &&& old(self).depth + 1 < MAX_DEPTH
                &&& old(self).sentences@.len() < 0xffff_fff0
                &&& plain_bridi_at(old(self).tokens@, i0, old(self).selbris@.len(), old(self).sumtis@.len())
                &&& plain_bridi_end(old(self).tokens@, i0) == old(self).tokens@.len()
            }) ==> r is Ok,
    {
        let ghost bare = {
            let i0 = after_opt(old(self).tokens@, 0, Cmavo::I);
            &&& old(self).depth + 1 < MAX_DEPTH
            &&& old(self).sentences@.len() < 0xffff_fff0
            &&& plain_bridi_at(old(self).tokens@, i0, old(self).selbris@.len(), old(self).sumtis@.len())
            &&& plain_bridi_end(old(self).tokens@, i0) == old(self).tokens@.len()
        };
        self.eat_cmavo(Cmavo::I);
        let ghost i0 = self.pos as int;
        let mut roots: Vec<u32> = Vec::new();
        let mut current = self.parse_sentence()?;
        let ghost mut cs: int = i0;
        let ghost mut re: int = i0;
        proof {
            assert(joined_d(self.tokens@, cs, self.pos as int, self.selbris@, self.sumtis@, self.sentences@, current as int));
        }
        loop
            invariant
                advanced(*old(self), *self),
                i0 == after_opt(self.tokens@, 0, Cmavo::I),
                bare ==> self.pos == self.tokens@.len(),
                old(self).depth + 1 < MAX_DEPTH ==> sentence_opening(old(self).tokens@, after_opt(old(self).tokens@, 0, Cmavo::I)),
                bare == ({
                    let i0 = after_opt(old(self).tokens@, 0, Cmavo::I);
                    &&& old(self).depth + 1 < MAX_DEPTH
                    &&& old(self).sentences@.len() < 0xffff_fff0
                    &&& plain_bridi_at(old(self).tokens@, i0, old(self).selbris@.len(), old(self).sumtis@.len())
                    &&& plain_bridi_end(old(self).tokens@, i0) == old(self).tokens@.len()
                }),
                current < self.sentences@.len(),
                forall|k: int| 0 <= k < roots@.len() ==> #[trigger] roots@[k] < self.sentences@.len(),
                i0 <= cs < self.pos,
                joined_d(self.tokens@, cs, self.pos as int, self.selbris@, self.sumtis@, self.sentences@, current as int),
                roots@.len() == 0 ==> cs == i0,
                roots@.len() > 0 ==> {
                    &&& cs == re + 1
                    &&& i0 <= re
                    &&& roots_d(self.tokens@, i0, re, self.selbris@, self.sumtis@, self.sentences@, roots@)
                    &&& cmavo_at(self.tokens@, re) == Some(Cmavo::I)
                    &&& joik_at(self.tokens@, re + 1) is None
                },
            decreases self.tokens@.len() - self.pos,
        {
            let ghost k = self.pos as int;
            if !self.eat_cmavo(Cmavo::I) {
                break ;
            }
            let joined = match self.peek_cmavo() {
                Some(c) => joik_of(c),
                None => None,
            };
            assert(joined == joik_at(self.tokens@, k + 1));
            if joined.is_some() {
                self.pos = self.pos + 1;
            }
            let ghost s0 = *self;
            let next = self.parse_sentence()?;
            let ghost s1 = *self;
            proof {
                lemma_joined_mono(self.tokens@, cs, k, s0.selbris@, s0.sumtis@, s0.sentences@, self.selbris@, self.sumtis@, self.sentences@, current as int);
                if roots@.len() > 0 {
                    lemma_roots_mono(self.tokens@, i0, re, s0.selbris@, s0.sumtis@, s0.sentences@, self.selbris@, self.sumtis@, self.sentences@, roots@);
                }
            }
            match joined {
                Some(conn) => {
                    let left = current;
                    current = self.alloc_sentence(
                        Sentence::Connected(
                            SentenceConnective::Afterthought {
                                left_negated: false,
                                connective: conn,
                                right_negated: false,
                            },
                            left,
                            next,
                        ),
                    )?;
                    proof {
                        lemma_joined_mono(self.tokens@, cs, k, s1.selbris@, s1.sumtis@, s1.sentences@, self.selbris@, self.sumtis@, self.sentences@, left as int);
                        lemma_sentence_mono(self.tokens@, k + 2, self.pos as int, s1.selbris@, s1.sumtis@, s1.sentences@, self.selbris@, self.sumtis@, self.sentences@, next as int);
                        if roots@.len() > 0 {
                            lemma_roots_mono(self.tokens@, i0, re, s1.selbris@, s1.sumtis@, s1.sentences@, self.selbris@, self.sumtis@, self.sentences@, roots@);
                        }
                        assert(afterthought_at(self.tokens@, k + 1) == Some(SentenceConnective::Afterthought { left_negated: false, connective: conn, right_negated: false }));
                        lemma_joined_push(self.tokens@, cs, k, self.pos as int, self.selbris@, self.sumtis@, self.sentences@, current as int);
                    }
                },
                None => {
                    proof {
                        if roots@.len() > 0 {
                            lemma_roots_push(self.tokens@, i0, re, k, self.selbris@, self.sumtis@, self.sentences@, roots@, current);
                        } else {
                            assert(roots@.push(current)[0] == current);
                        }
                        re = k;
                        cs = k + 1;
                        assert(joined_d(self.tokens@, cs, self.pos as int, self.selbris@, self.sumtis@, self.sentences@, next as int));
                    }
                    roots.push(current);
                    current = next;
                },
            }
        }
        proof {
            if roots@.len() > 0 {
                lemma_roots_push(self.tokens@, i0, re, self.pos as int, self.selbris@, self.sumtis@, self.sentences@, roots@, current);
            } else {
                assert(roots@.push(current)[0] == current);
            }
        }
        roots.push(current);
        if self.pos < self.tokens.len() {
            return Err(self.unconsumed_error());
        }
        Ok(roots)
    }
}

/// Parse a lexed text into node buffers and its top-level sentences.
pub fn parse_tokens(tokens: Vec<Token>) -> (r: Result<Ast, ParseError>)
    ensures
        r matches Ok(ast) ==> {
            &&& ast_wf(ast.selbris@, ast.sumtis@, ast.sentences@)
            &&& prenex_logic(ast.sentences@)
            &&& forall|k: int| 0 <= k < ast.roots@.len() ==> #[trigger] ast.roots@[k] < ast.sentences@.len()
            &&& text_d(tokens@, ast.selbris@, ast.sumtis@, ast.sentences@, ast.roots@)
        },
        !sentence_opening(tokens@, after_opt(tokens@, 0, Cmavo::I)) ==> (r matches Err(e) && e.message@
            == "expected selbri or terms"@ && e.position == after_opt(tokens@, 0, Cmavo::I)),
        ({
            let i0 = after_opt(tokens@, 0, Cmavo::I);
            &&& plain_bridi_at(tokens@, i0, 0, 0)
            &&& plain_bridi_end(tokens@, i0) == tokens@.len()
        }) ==> r is Ok,
{
    let mut p = Parser::new(tokens);
    let roots = p.parse_text()?;
    Ok(Ast { selbris: p.selbris, sumtis: p.sumtis, sentences: p.sentences, roots })
}

/// `ts` is what the lexer makes of `text`: one token per word, each word's class.
pub open spec fn lexes_to(text: Seq<char>, ts: Seq<Token>) -> bool {
    &&& ts.len() == spec_words(text).len()
    &&& forall|i: int| 0 <= i < ts.len() ==> spec_classify(spec_words(text)[i]) == Some((#[trigger] ts[i])@)
}

/// Some word of `text` has no class.
pub open spec fn has_unknown_word(text: Seq<char>) -> bool {
    exists|i: int| 0 <= i < spec_words(text).len() && (#[trigger] spec_classify(spec_words(text)[i])) is None
}

/// `ast` is a parse of `text`: well-formed node buffers whose top-level sentences the
/// words of `text`, lexed, spell as [`text_d`] says.
pub open spec fn parsed_from(text: Seq<char>, ast: Ast) -> bool {
    &&& ast_wf(ast.selbris@, ast.sumtis@, ast.sentences@)
    &&& prenex_logic(ast.sentences@)
    &&& forall|k: int| 0 <= k < ast.roots@.len() ==> #[trigger] ast.roots@[k] < ast.sentences@.len()
    &&& exists|ts: Seq<Token>|
        lexes_to(text, ts) && #[trigger] text_d(ts, ast.selbris@, ast.sumtis@, ast.sentences@, ast.roots@)
}

/// Lex and parse a text. An unlexable word is reported at its word index.
pub fn parse_checked(text: &str) -> (r: Result<Ast, ParseError>)
    ensures
        r matches Ok(ast) ==> parsed_from(text@, ast),
        has_unknown_word(text@) ==> (r matches Err(e) && {
            let w = spec_words(text@);
            &&& e.position < w.len()
            &&& spec_classify(w[e.position as int]) is None
            &&& forall|j: int| 0 <= j < e.position ==> (#[trigger] spec_classify(w[j])) is Some
            &&& e.message@ == "unknown word `"@ + w[e.position as int] + "`"@
        }),
{
    match lex(text) {
        Ok(tokens) => {
            let ghost ts = tokens@;
            assert(lexes_to(text@, ts));
            proof {
                if has_unknown_word(text@) {
                    let i = choose|i: int|
                        0 <= i < spec_words(text@).len() && (#[trigger] spec_classify(spec_words(text@)[i])) is None;
                    assert(spec_classify(spec_words(text@)[i]) == Some(ts[i]@));
                }
            }
            parse_tokens(tokens)
        },
        Err(e) => {
            let mut message = "unknown word `".to_owned();
            message.append(e.word.as_str());
            message.append("`");
            Err(ParseError { message, position: e.index })
        },
    }
}

} // verus!
