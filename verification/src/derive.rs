//! The grammar of the fragment as relations between token spans and parsed nodes: a
//! node is *derived* from the tokens `[i, j)` when those tokens spell it. The parser's
//! contracts say that every node it hands out is derived from the tokens it consumed.

use vstd::prelude::*;
use crate::ast::{
    Bridi, Connective, GihaTail, ModalTag, Quantifier, Gadri, Selbri, Sentence,
    SentenceConnective, Sumti,
};
use crate::lexer::{spec_cmavo_text, Cmavo, Token, TokenV};
use crate::parser::{
    cmavo_at, is_pro_sumti, prefix_of, spec_attitudinal, spec_bai, spec_conversion, spec_digit,
    spec_giha, spec_giha_safe_head, spec_head_has_connective, spec_joik, spec_place_tag,
    spec_prenex, spec_sumti_connective, spec_tense,
};

verus! {

/// The spelling of the predicate word at `i`, if a predicate word stands there.
pub open spec fn brivla_at(toks: Seq<Token>, i: int) -> Option<Seq<char>> {
    if 0 <= i < toks.len() {
        match toks[i]@ {
            TokenV::Brivla(s) => Some(s),
            _ => None,
        }
    } else {
        None
    }
}

/// The spelling of the name at `i`, if a name stands there.
pub open spec fn cmevla_at(toks: Seq<Token>, i: int) -> Option<Seq<char>> {
    if 0 <= i < toks.len() {
        match toks[i]@ {
            TokenV::Cmevla(s) => Some(s),
            _ => None,
        }
    } else {
        None
    }
}

/// The spelling of the word at `i`, whatever its class.
pub open spec fn word_at(toks: Seq<Token>, i: int) -> Option<Seq<char>> {
    if 0 <= i < toks.len() {
        match toks[i]@ {
            TokenV::Cmavo(c) => Some(spec_cmavo_text(c)),
            TokenV::Brivla(s) => Some(s),
            TokenV::Cmevla(s) => Some(s),
        }
    } else {
        None
    }
}

/// The position after an elidable terminator `c` at `k`: past it when it is there.
pub open spec fn after_opt(toks: Seq<Token>, k: int, c: Cmavo) -> int {
    if cmavo_at(toks, k) == Some(c) {
        k + 1
    } else {
        k
    }
}

/// `k` splits `[i, j)`. Existential split points are found through this marker.
pub open spec fn cut(i: int, k: int, j: int) -> bool {
    i <= k <= j
}

/// `k` and `m` split `[i, j)` in that order.
pub open spec fn cut2(i: int, k: int, m: int, j: int) -> bool {
    i <= k <= m <= j
}

/// `q`, `r` split `[p, j)` around selbri `sel`.
pub open spec fn cut3(p: int, q: int, r: int, j: int, sel: int) -> bool {
    p <= q <= r <= j
}

/// `k` ends the bridi `b` that starts at `i`, and its tails `ts` run to `j`.
pub open spec fn pick(i: int, k: int, j: int, b: Bridi, ts: Seq<GihaTail>) -> bool {
    i <= k <= j
}

/// The selbri a bridi takes, and whether it was negated: a top-level `na` is taken
/// off the selbri and kept as the bridi's negation.
pub open spec fn unwrap_negation(selbris: Seq<Selbri>, id: int) -> (int, bool) {
    match selbris[id] {
        Selbri::Negated(inner) => (inner as int, true),
        _ => (id, false),
    }
}

/// Selbri `id` is spelled by the tokens `[i, j)`: a predicate word; a tanru, its
/// modifier followed by a head word; `se`/`te`/`ve`/`xe` or `na` before a selbri; or
/// `nu`, a sentence and an elidable `kei`.
pub open spec fn selbri_d(
    toks: Seq<Token>,
    i: int,
    j: int,
    selbris: Seq<Selbri>,
    sumtis: Seq<Sumti>,
    sentences: Seq<Sentence>,
    id: int,
) -> bool
    decreases j - i, 0int,
{
    &&& 0 <= i < j <= toks.len()
    &&& 0 <= id < selbris.len()
    &&& match selbris[id] {
        Selbri::Root(w) => j == i + 1 && brivla_at(toks, i) == Some(w@),
        Selbri::Tanru(m, h) => exists|k: int|
            #[trigger] cut(i, k, j) && i < k < j && selbri_d(toks, i, k, selbris, sumtis, sentences, m as int)
                && selbri_d(toks, k, j, selbris, sumtis, sentences, h as int),
        Selbri::Converted(c, inner) => {
            &&& cmavo_at(toks, i) matches Some(t) && spec_conversion(t) == Some(c)
            &&& selbri_d(toks, i + 1, j, selbris, sumtis, sentences, inner as int)
        },
        Selbri::Negated(inner) => {
            &&& cmavo_at(toks, i) == Some(Cmavo::Na)
            &&& selbri_d(toks, i + 1, j, selbris, sumtis, sentences, inner as int)
        },
        Selbri::Abstraction(s) => {
            &&& cmavo_at(toks, i) == Some(Cmavo::Nu)
            &&& exists|k: int|
                #[trigger] cut(i + 1, k, j) && i + 1 < k <= j && sentence_d(
                    toks,
                    i + 1,
                    k,
                    selbris,
                    sumtis,
                    sentences,
                    s as int,
                ) && j == after_opt(toks, k, Cmavo::Kei)
        },
    }
}

/// Where the article of a description stands, given its outer quantifier at `i`: right
/// at `i` without a quantifier, after it with one; `-1` when the quantifier is not there.
pub open spec fn article_pos(toks: Seq<Token>, i: int, q: Option<Quantifier>) -> int {
    match q {
        None => i,
        Some(Quantifier::Ro) => if cmavo_at(toks, i) == Some(Cmavo::Ro) {
            i + 1
        } else {
            -1
        },
        Some(Quantifier::Number(n)) => if cmavo_at(toks, i) matches Some(c) && spec_digit(c)
            == Some(n) {
            i + 1
        } else {
            -1
        },
    }
}

/// The article cmavo of a gadri.
pub open spec fn gadri_cmavo(g: Gadri) -> Cmavo {
    match g {
        Gadri::Lo => Cmavo::Lo,
        Gadri::Le => Cmavo::Le,
        Gadri::La => Cmavo::La,
    }
}

/// Sumti (or term) `id` is spelled by the tokens `[i, j)`.
pub open spec fn sumti_d(
    toks: Seq<Token>,
    i: int,
    j: int,
    selbris: Seq<Selbri>,
    sumtis: Seq<Sumti>,
    sentences: Seq<Sentence>,
    id: int,
) -> bool
    decreases j - i, 1int,
{
    &&& 0 <= i < j <= toks.len()
    &&& 0 <= id < sumtis.len()
    &&& match sumtis[id] {
        Sumti::ProSumti(c) => j == i + 1 && cmavo_at(toks, i) == Some(c) && is_pro_sumti(c),
        Sumti::Name(s) => j == i + 2 && cmavo_at(toks, i) == Some(Cmavo::La) && cmevla_at(
            toks,
            i + 1,
        ) == Some(s@),
        Sumti::QuotedLiteral(w) => j == i + 2 && cmavo_at(toks, i) == Some(Cmavo::Zo)
            && word_at(toks, i + 1) == Some(w@),
        Sumti::Number(n) => {
            &&& j == i + 2
            &&& cmavo_at(toks, i) == Some(Cmavo::Li)
            &&& cmavo_at(toks, i + 1) matches Some(c) && spec_digit(c) == Some(n)
        },
        Sumti::Description { gadri, selbri, quantifier } => {
            let p = article_pos(toks, i, quantifier);
            &&& i <= p
            &&& (gadri == Gadri::La ==> quantifier is None)
            &&& cmavo_at(toks, p) == Some(gadri_cmavo(gadri))
            &&& exists|k: int|
                #[trigger] cut(p + 1, k, j) && p + 1 < k <= j && selbri_d(
                    toks,
                    p + 1,
                    k,
                    selbris,
                    sumtis,
                    sentences,
                    selbri as int,
                ) && j == after_opt(toks, k, Cmavo::Ku)
        },
        Sumti::Restricted { inner, clause, restrictive } => exists|k: int, m: int|
            #[trigger] cut2(i, k, m, j) && i < k && k + 1 < m <= j && sumti_d(
                toks,
                i,
                k,
                selbris,
                sumtis,
                sentences,
                inner as int,
            ) && cmavo_at(toks, k) == Some(
                if restrictive {
                    Cmavo::Poi
                } else {
                    Cmavo::Noi
                },
            ) && sentence_d(toks, k + 1, m, selbris, sumtis, sentences, clause as int)
                && j == after_opt(toks, m, Cmavo::Kuho),
        Sumti::Connected(l, c, nai, r) => exists|k: int|
            #[trigger] cut(i, k, j) && i < k < j && sumti_d(toks, i, k, selbris, sumtis, sentences, l as int) && (
            cmavo_at(toks, k) matches Some(t) && spec_sumti_connective(t) == Some(c)) && if nai {
                cmavo_at(toks, k + 1) == Some(Cmavo::Nai) && k + 2 < j && sumti_d(
                    toks,
                    k + 2,
                    j,
                    selbris,
                    sumtis,
                    sentences,
                    r as int,
                )
            } else {
                k + 1 < j && sumti_d(toks, k + 1, j, selbris, sumtis, sentences, r as int)
            },
        Sumti::Tagged(tag, inner) => {
            &&& cmavo_at(toks, i) matches Some(t) && spec_place_tag(t) == Some(tag)
            &&& sumti_d(toks, i + 1, j, selbris, sumtis, sentences, inner as int)
        },
        Sumti::ModalTagged(ModalTag::Fixed(b), inner) => {
            &&& cmavo_at(toks, i) matches Some(t) && spec_bai(t) == Some(b)
            &&& sumti_d(toks, i + 1, j, selbris, sumtis, sentences, inner as int)
        },
        Sumti::ModalTagged(ModalTag::Fio(s), inner) => {
            &&& cmavo_at(toks, i) == Some(Cmavo::Fiho)
            &&& exists|k: int|
                #[trigger] cut(i + 1, k, j) && i + 1 < k < j && selbri_d(toks, i + 1, k, selbris, sumtis, sentences, s as int)
                    && after_opt(toks, k, Cmavo::Fehu) < j && sumti_d(
                    toks,
                    after_opt(toks, k, Cmavo::Fehu),
                    j,
                    selbris,
                    sumtis,
                    sentences,
                    inner as int,
                )
        },
    }
}

/// The terms `ids` are spelled, one after another, by the tokens `[i, j)`.
pub open spec fn terms_d(
    toks: Seq<Token>,
    i: int,
    j: int,
    selbris: Seq<Selbri>,
    sumtis: Seq<Sumti>,
    sentences: Seq<Sentence>,
    ids: Seq<u32>,
) -> bool
    decreases j - i, 2int,
{
    if ids.len() == 0 {
        i == j
    } else {
        exists|k: int|
            #[trigger] cut(i, k, j) && i <= k < j && terms_d(
                toks,
                i,
                k,
                selbris,
                sumtis,
                sentences,
                ids.drop_last(),
            ) && sumti_d(toks, k, j, selbris, sumtis, sentences, ids.last() as int)
    }
}

/// The tense at `k`, if one stands there.
pub open spec fn tense_at(toks: Seq<Token>, k: int) -> Option<crate::ast::Tense> {
    match cmavo_at(toks, k) {
        Some(c) => spec_tense(c),
        None => None,
    }
}

/// The attitudinal at `k`, if one stands there.
pub open spec fn attitudinal_at(toks: Seq<Token>, k: int) -> Option<crate::ast::Attitudinal> {
    match cmavo_at(toks, k) {
        Some(c) => spec_attitudinal(c),
        None => None,
    }
}

/// The position after an optional tense at `k`.
pub open spec fn after_tense(toks: Seq<Token>, k: int) -> int {
    if tense_at(toks, k) is Some {
        k + 1
    } else {
        k
    }
}

/// The position after an optional attitudinal at `k`.
pub open spec fn after_attitudinal(toks: Seq<Token>, k: int) -> int {
    if attitudinal_at(toks, k) is Some {
        k + 1
    } else {
        k
    }
}

/// A selbri spelled by `[p, q)`, unwrapped of a top-level `na` into `relation` and
/// `negated`, then terms `tail` spelled by `[q, r)`, then an elidable `vau` ending at `j`.
pub open spec fn predicate_d(
    toks: Seq<Token>,
    p: int,
    j: int,
    selbris: Seq<Selbri>,
    sumtis: Seq<Sumti>,
    sentences: Seq<Sentence>,
    relation: u32,
    negated: bool,
    tail: Seq<u32>,
) -> bool
    decreases j - p, 3int,
{
    exists|q: int, r: int, sel: int|
        #[trigger] cut3(p, q, r, j, sel) && p < q <= r && r <= j && selbri_d(toks, p, q, selbris, sumtis, sentences, sel)
            && unwrap_negation(selbris, sel) == (relation as int, negated) && terms_d(
            toks,
            q,
            r,
            selbris,
            sumtis,
            sentences,
            tail,
        ) && j == after_opt(toks, r, Cmavo::Vau)
}

/// Bridi `b` is spelled by `[i, j)`: an optional tense and attitudinal, the head terms,
/// an elidable `cu`, a tense and attitudinal if none came before, then the predicate.
pub open spec fn bridi_d(
    toks: Seq<Token>,
    i: int,
    j: int,
    selbris: Seq<Selbri>,
    sumtis: Seq<Sumti>,
    sentences: Seq<Sentence>,
    b: Bridi,
) -> bool
    decreases j - i, 4int,
{
    let p1 = after_tense(toks, i);
    let p2 = after_attitudinal(toks, p1);
    exists|p3: int|
        #[trigger] cut(p2, p3, j) && p2 <= p3 <= j && terms_d(
            toks,
            p2,
            p3,
            selbris,
            sumtis,
            sentences,
            b.head_terms@,
        ) && {
            let p4 = after_opt(toks, p3, Cmavo::Cu);
            let t1 = tense_at(toks, i);
            let a1 = attitudinal_at(toks, p1);
            let p5 = if t1 is Some {
                p4
            } else {
                after_tense(toks, p4)
            };
            let p6 = if a1 is Some {
                p5
            } else {
                after_attitudinal(toks, p5)
            };
            &&& b.tense == (if t1 is Some {
                t1
            } else {
                tense_at(toks, p4)
            })
            &&& b.attitudinal == (if a1 is Some {
                a1
            } else {
                attitudinal_at(toks, p5)
            })
            &&& p6 < j
            &&& predicate_d(
                toks,
                p6,
                j,
                selbris,
                sumtis,
                sentences,
                b.relation,
                b.negated,
                b.tail_terms@,
            )
        }
}

/// GIhA tail `t` is spelled by `[i, j)`: its bridi-tail connective (fused with `nai`
/// or followed by one when the right side is negated), then its predicate.
pub open spec fn tail_d(
    toks: Seq<Token>,
    i: int,
    j: int,
    selbris: Seq<Selbri>,
    sumtis: Seq<Sumti>,
    sentences: Seq<Sentence>,
    t: GihaTail,
) -> bool
    decreases j - i, 5int,
{
    &&& cmavo_at(toks, i) matches Some(c) && spec_giha(c) is Some
    &&& {
        let (conn, fused) = spec_giha(cmavo_at(toks, i)->0)->0;
        let spaced = !fused && cmavo_at(toks, i + 1) == Some(Cmavo::Nai);
        let p = if spaced {
            i + 2
        } else {
            i + 1
        };
        &&& t.connective == conn
        &&& t.right_negated == (fused || spaced)
        &&& p < j
        &&& predicate_d(
            toks,
            p,
            j,
            selbris,
            sumtis,
            sentences,
            t.relation,
            t.negated,
            t.tail_terms@,
        )
    }
}

/// GIhA tails `ts` are spelled, one after another, by `[i, j)`.
pub open spec fn tails_d(
    toks: Seq<Token>,
    i: int,
    j: int,
    selbris: Seq<Selbri>,
    sumtis: Seq<Sumti>,
    sentences: Seq<Sentence>,
    ts: Seq<GihaTail>,
) -> bool
    decreases j - i, 6int,
{
    if ts.len() == 0 {
        i == j
    } else {
        exists|k: int|
            #[trigger] cut(i, k, j) && i <= k < j && tails_d(toks, i, k, selbris, sumtis, sentences, ts.drop_last())
                && tail_d(toks, k, j, selbris, sumtis, sentences, ts.last())
    }
}

/// Two bridi with the same content.
pub open spec fn same_bridi(a: Bridi, b: Bridi) -> bool {
    &&& a.relation == b.relation
    &&& a.head_terms@ == b.head_terms@
    &&& a.tail_terms@ == b.tail_terms@
    &&& a.negated == b.negated
    &&& a.tense == b.tense
    &&& a.attitudinal == b.attitudinal
}

/// Two lists of GIhA tails with the same content.
pub open spec fn same_tails(a: Seq<GihaTail>, b: Seq<GihaTail>) -> bool {
    &&& a.len() == b.len()
    &&& forall|k: int| 0 <= k < a.len() ==> crate::parser::same_tail(#[trigger] a[k], b[k])
}

/// The forethought connective a cmavo opens, if it opens one.
pub open spec fn forethought(c: Option<Cmavo>) -> Option<SentenceConnective> {
    match c {
        Some(Cmavo::Ganai) => Some(SentenceConnective::GanaiGi),
        Some(Cmavo::Ge) => Some(SentenceConnective::GeGi),
        Some(Cmavo::Ga) => Some(SentenceConnective::GaGi),
        Some(Cmavo::Go) => Some(SentenceConnective::GoGi),
        _ => None,
    }
}

/// Sentence `id` is spelled by `[i, j)`: a prenex and its body; a forethought
/// connective, a sentence, `gi` and a sentence; or a bridi and its GIhA tails, lowered
/// as [`lowered`] describes.
pub open spec fn sentence_d(
    toks: Seq<Token>,
    i: int,
    j: int,
    selbris: Seq<Selbri>,
    sumtis: Seq<Sumti>,
    sentences: Seq<Sentence>,
    id: int,
) -> bool
    decreases j - i, 7int,
{
    &&& 0 <= i < j <= toks.len()
    &&& 0 <= id < sentences.len()
    &&& match spec_prenex(toks, i) {
        Some((vs, q)) => {
            &&& i < q < j
            &&& sentences[id] matches Sentence::Prenex(v, body) && v@ == vs && sentence_d(
                toks,
                q,
                j,
                selbris,
                sumtis,
                sentences,
                body as int,
            )
        },
        None => match forethought(cmavo_at(toks, i)) {
            Some(fc) => sentences[id] matches Sentence::Connected(c, l, r) && c == fc && exists|
                k: int,
            |
                #[trigger] cut(i + 1, k, j) && i + 1 < k && k + 1 < j && sentence_d(
                    toks,
                    i + 1,
                    k,
                    selbris,
                    sumtis,
                    sentences,
                    l as int,
                ) && cmavo_at(toks, k) == Some(Cmavo::Gi) && sentence_d(
                    toks,
                    k + 1,
                    j,
                    selbris,
                    sumtis,
                    sentences,
                    r as int,
                ),
            None => exists|k: int, b: Bridi, ts: Seq<GihaTail>|
                #[trigger] pick(i, k, j, b, ts) && i < k <= j && bridi_d(toks, i, k, selbris, sumtis, sentences, b)
                    && tails_d(toks, k, j, selbris, sumtis, sentences, ts) && lowered(
                    sumtis,
                    sentences,
                    b,
                    ts,
                    id,
                    toks.len(),
                ),
        },
    }
}

/// The first head term that is, or wraps under a place tag, a connected sumti.
pub open spec fn first_head_connective(sumtis: Seq<Sumti>, terms: Seq<u32>, k: int) -> bool {
    &&& 0 <= k < terms.len()
    &&& spec_head_has_connective(sumtis, terms[k] as int)
    &&& forall|m: int| 0 <= m < k ==> !#[trigger] spec_head_has_connective(sumtis, terms[m] as int)
}

/// Every head term is a constant.
pub open spec fn all_safe(sumtis: Seq<Sumti>, terms: Seq<u32>) -> bool {
    forall|k: int| 0 <= k < terms.len() ==> #[trigger] spec_giha_safe_head(sumtis, terms[k] as int)
}

/// The repeated-head chain of a constant head: the head's bridi, then each tail as a
/// bridi with the same head terms, joined left to right by the tails' connectives.
pub open spec fn chain(
    sumtis: Seq<Sumti>,
    sentences: Seq<Sentence>,
    b: Bridi,
    ts: Seq<GihaTail>,
    id: int,
) -> bool
    decreases ts.len(),
{
    &&& 0 <= id < sentences.len()
    &&& if ts.len() == 0 {
        sentences[id] matches Sentence::Simple(b2) && same_bridi(b2, b)
    } else {
        let t = ts.last();
        match sentences[id] {
            Sentence::Connected(
                SentenceConnective::Afterthought { left_negated, connective, right_negated },
                l,
                r,
            ) => {
                &&& !left_negated
                &&& connective == t.connective
                &&& right_negated == t.right_negated
                &&& chain(sumtis, sentences, b, ts.drop_last(), l as int)
                &&& tail_bridi_node(sentences, r as int, b, t)
            },
            _ => false,
        }
    }
}

/// Sentence `r` is tail `t` as a bridi of its own with head terms of `b`.
pub open spec fn tail_bridi_node(sentences: Seq<Sentence>, r: int, b: Bridi, t: GihaTail) -> bool {
    &&& 0 <= r < sentences.len()
    &&& match sentences[r] {
        Sentence::Simple(tb) => {
            &&& tb.relation == t.relation
            &&& tb.head_terms@ == b.head_terms@
            &&& tb.tail_terms@ == t.tail_terms@
            &&& tb.negated == t.negated
            &&& tb.tense is None
            &&& tb.attitudinal is None
        },
        _ => false,
    }
}

/// How a bridi and its GIhA tails become sentence `id`: no tails, the bridi itself; a
/// constant head, the repeated-head chain; a connected sumti in the head, the whole
/// chain once per operand (under the same place tag), joined by the sumti's
/// connective; any other head, one shared-head node.
pub open spec fn lowered(
    sumtis: Seq<Sumti>,
    sentences: Seq<Sentence>,
    b: Bridi,
    ts: Seq<GihaTail>,
    id: int,
    fuel: nat,
) -> bool
    decreases fuel,
{
    &&& 0 <= id < sentences.len()
    &&& if ts.len() == 0 {
        sentences[id] matches Sentence::Simple(b2) && same_bridi(b2, b)
    } else if all_safe(sumtis, b.head_terms@) {
        chain(sumtis, sentences, b, ts, id)
    } else if forall|k: int|
        0 <= k < b.head_terms@.len() ==> !#[trigger] spec_head_has_connective(
            sumtis,
            b.head_terms@[k] as int,
        ) {
        sentences[id] matches Sentence::SharedHead(h, tails) && same_bridi(h, b) && same_tails(
            tails@,
            ts,
        )
    } else {
        &&& fuel > 0
        &&& exists|k: int, lb: Bridi, rb: Bridi|
            first_head_connective(sumtis, b.head_terms@, k) && #[trigger] split_heads(
                sumtis,
                b,
                k,
                lb,
                rb,
            ) && match sentences[id] {
                Sentence::Connected(
                    SentenceConnective::Afterthought { left_negated, connective, right_negated },
                    l,
                    r,
                ) => !left_negated && head_connective(sumtis, b.head_terms@[k] as int) == Some(
                    (connective, right_negated),
                ) && lowered(sumtis, sentences, lb, ts, l as int, (fuel - 1) as nat) && lowered(
                    sumtis,
                    sentences,
                    rb,
                    ts,
                    r as int,
                    (fuel - 1) as nat,
                ),
                _ => false,
            }
    }
}

/// The connective and `nai` of a connected head term, directly or under a place tag.
pub open spec fn head_connective(sumtis: Seq<Sumti>, id: int) -> Option<(Connective, bool)> {
    if 0 <= id < sumtis.len() {
        match sumtis[id] {
            Sumti::Connected(_, c, nai, _) => Some((c, nai)),
            Sumti::Tagged(_, inner) => if 0 <= inner < sumtis.len() {
                match sumtis[inner as int] {
                    Sumti::Connected(_, c, nai, _) => Some((c, nai)),
                    _ => None,
                }
            } else {
                None
            },
            _ => None,
        }
    } else {
        None
    }
}

/// `lb` and `rb` are `b` with connected head term `k` replaced by its left and right
/// operands, each under the term's place tag when it has one.
pub open spec fn split_heads(sumtis: Seq<Sumti>, b: Bridi, k: int, lb: Bridi, rb: Bridi) -> bool {
    let t = b.head_terms@[k] as int;
    &&& 0 <= t < sumtis.len()
    &&& lb.relation == b.relation && rb.relation == b.relation
    &&& lb.tail_terms@ == b.tail_terms@ && rb.tail_terms@ == b.tail_terms@
    &&& lb.negated == b.negated && rb.negated == b.negated
    &&& lb.tense == b.tense && rb.tense == b.tense
    &&& lb.attitudinal == b.attitudinal && rb.attitudinal == b.attitudinal
    &&& lb.head_terms@.len() == b.head_terms@.len() && rb.head_terms@.len() == b.head_terms@.len()
    &&& forall|m: int|
        0 <= m < b.head_terms@.len() && m != k ==> #[trigger] lb.head_terms@[m] == b.head_terms@[m]
    &&& forall|m: int|
        0 <= m < b.head_terms@.len() && m != k ==> #[trigger] rb.head_terms@[m] == b.head_terms@[m]
    &&& {
        let lt = lb.head_terms@[k] as int;
        let rt = rb.head_terms@[k] as int;
        &&& 0 <= lt < sumtis.len()
        &&& 0 <= rt < sumtis.len()
        &&& match sumtis[t] {
            Sumti::Connected(l, _, _, r) => lt == l && rt == r,
            Sumti::Tagged(tag, inner) => 0 <= inner < sumtis.len() && match sumtis[inner as int] {
                Sumti::Connected(l, _, _, r) => 0 <= lt < sumtis.len() && 0 <= rt < sumtis.len()
                    && sumtis[lt] == Sumti::Tagged(tag, l) && sumtis[rt] == Sumti::Tagged(tag, r),
                _ => false,
            },
            _ => false,
        }
    }
}

/// The second buffers extend the first.
pub open spec fn bufs_grow(
    s1: Seq<Selbri>,
    u1: Seq<Sumti>,
    n1: Seq<Sentence>,
    s2: Seq<Selbri>,
    u2: Seq<Sumti>,
    n2: Seq<Sentence>,
) -> bool {
    &&& prefix_of(s1, s2)
    &&& prefix_of(u1, u2)
    &&& prefix_of(n1, n2)
}

/// Whether a head term is constant does not change when sumti are appended.
pub proof fn lemma_safe_head_mono(u1: Seq<Sumti>, u2: Seq<Sumti>, id: int)
    requires
        prefix_of(u1, u2),
        0 <= id < u1.len(),
    ensures
        spec_giha_safe_head(u1, id) == spec_giha_safe_head(u2, id),
        spec_head_has_connective(u1, id) == spec_head_has_connective(u2, id),
    decreases id,
{
    assert(u2[id] == u1[id]);
    if let Sumti::Tagged(_, inner) = u1[id] {
        if 0 <= inner < id {
            lemma_safe_head_mono(u1, u2, inner as int);
        }
    }
}

/// Derivations of selbri survive appending nodes.
pub proof fn lemma_selbri_mono(
    toks: Seq<Token>,
    i: int,
    j: int,
    s1: Seq<Selbri>,
    u1: Seq<Sumti>,
    n1: Seq<Sentence>,
    s2: Seq<Selbri>,
    u2: Seq<Sumti>,
    n2: Seq<Sentence>,
    id: int,
)
    requires
        selbri_d(toks, i, j, s1, u1, n1, id),
        bufs_grow(s1, u1, n1, s2, u2, n2),
    ensures
        selbri_d(toks, i, j, s2, u2, n2, id),
    decreases j - i, 0int,
{
    assert(s2[id] == s1[id]);
    match s1[id] {
        Selbri::Root(_) => {},
        Selbri::Tanru(m, h) => {
            let k = choose|k: int|
                #[trigger] cut(i, k, j) && i < k < j && selbri_d(toks, i, k, s1, u1, n1, m as int) && selbri_d(
                    toks,
                    k,
                    j,
                    s1,
                    u1,
                    n1,
                    h as int,
                );
            lemma_selbri_mono(toks, i, k, s1, u1, n1, s2, u2, n2, m as int);
            lemma_selbri_mono(toks, k, j, s1, u1, n1, s2, u2, n2, h as int);
        },
        Selbri::Converted(_, inner) => {
            lemma_selbri_mono(toks, i + 1, j, s1, u1, n1, s2, u2, n2, inner as int);
        },
        Selbri::Negated(inner) => {
            lemma_selbri_mono(toks, i + 1, j, s1, u1, n1, s2, u2, n2, inner as int);
        },
        Selbri::Abstraction(sid) => {
            let k = choose|k: int|
                #[trigger] cut(i + 1, k, j) && i + 1 < k <= j && sentence_d(toks, i + 1, k, s1, u1, n1, sid as int) && j
                    == after_opt(toks, k, Cmavo::Kei);
            lemma_sentence_mono(toks, i + 1, k, s1, u1, n1, s2, u2, n2, sid as int);
        },
    }
}

/// Derivations of sumti survive appending nodes.
pub proof fn lemma_sumti_mono(
    toks: Seq<Token>,
    i: int,
    j: int,
    s1: Seq<Selbri>,
    u1: Seq<Sumti>,
    n1: Seq<Sentence>,
    s2: Seq<Selbri>,
    u2: Seq<Sumti>,
    n2: Seq<Sentence>,
    id: int,
)
    requires
        sumti_d(toks, i, j, s1, u1, n1, id),
        bufs_grow(s1, u1, n1, s2, u2, n2),
    ensures
        sumti_d(toks, i, j, s2, u2, n2, id),
    decreases j - i, 1int,
{
    assert(u2[id] == u1[id]);
    match u1[id] {
        Sumti::Description { gadri, selbri, quantifier } => {
            let p = article_pos(toks, i, quantifier);
            let k = choose|k: int|
                #[trigger] cut(p + 1, k, j) && p + 1 < k <= j && selbri_d(toks, p + 1, k, s1, u1, n1, selbri as int) && j
                    == after_opt(toks, k, Cmavo::Ku);
            lemma_selbri_mono(toks, p + 1, k, s1, u1, n1, s2, u2, n2, selbri as int);
        },
        Sumti::Restricted { inner, clause, restrictive } => {
            let (k, m) = choose|k: int, m: int|
                #[trigger] cut2(i, k, m, j) && i < k && k + 1 < m <= j && sumti_d(toks, i, k, s1, u1, n1, inner as int)
                    && cmavo_at(toks, k) == Some(
                    if restrictive {
                        Cmavo::Poi
                    } else {
                        Cmavo::Noi
                    },
                ) && sentence_d(toks, k + 1, m, s1, u1, n1, clause as int) && j
                    == after_opt(toks, m, Cmavo::Kuho);
            lemma_sumti_mono(toks, i, k, s1, u1, n1, s2, u2, n2, inner as int);
            lemma_sentence_mono(toks, k + 1, m, s1, u1, n1, s2, u2, n2, clause as int);
        },
        Sumti::Connected(l, c, nai, r) => {
            let k = choose|k: int|
                #[trigger] cut(i, k, j) && i < k < j && sumti_d(toks, i, k, s1, u1, n1, l as int) && (cmavo_at(
                    toks,
                    k,
                ) matches Some(t) && spec_sumti_connective(t) == Some(c)) && if nai {
                    cmavo_at(toks, k + 1) == Some(Cmavo::Nai) && k + 2 < j && sumti_d(
                        toks,
                        k + 2,
                        j,
                        s1,
                        u1,
                        n1,
                        r as int,
                    )
                } else {
                    k + 1 < j && sumti_d(toks, k + 1, j, s1, u1, n1, r as int)
                };
            lemma_sumti_mono(toks, i, k, s1, u1, n1, s2, u2, n2, l as int);
            if nai {
                lemma_sumti_mono(toks, k + 2, j, s1, u1, n1, s2, u2, n2, r as int);
            } else {
                lemma_sumti_mono(toks, k + 1, j, s1, u1, n1, s2, u2, n2, r as int);
            }
        },
        Sumti::Tagged(_, inner) => {
            lemma_sumti_mono(toks, i + 1, j, s1, u1, n1, s2, u2, n2, inner as int);
        },
        Sumti::ModalTagged(ModalTag::Fixed(_), inner) => {
            lemma_sumti_mono(toks, i + 1, j, s1, u1, n1, s2, u2, n2, inner as int);
        },
        Sumti::ModalTagged(ModalTag::Fio(sel), inner) => {
            let k = choose|k: int|
                #[trigger] cut(i + 1, k, j) && i + 1 < k < j && selbri_d(toks, i + 1, k, s1, u1, n1, sel as int)
                    && after_opt(toks, k, Cmavo::Fehu) < j && sumti_d(
                    toks,
                    after_opt(toks, k, Cmavo::Fehu),
                    j,
                    s1,
                    u1,
                    n1,
                    inner as int,
                );
            lemma_selbri_mono(toks, i + 1, k, s1, u1, n1, s2, u2, n2, sel as int);
            lemma_sumti_mono(
                toks,
                after_opt(toks, k, Cmavo::Fehu),
                j,
                s1,
                u1,
                n1,
                s2,
                u2,
                n2,
                inner as int,
            );
        },
        _ => {},
    }
}

/// Derivations of term lists survive appending nodes.
pub proof fn lemma_terms_mono(
    toks: Seq<Token>,
    i: int,
    j: int,
    s1: Seq<Selbri>,
    u1: Seq<Sumti>,
    n1: Seq<Sentence>,
    s2: Seq<Selbri>,
    u2: Seq<Sumti>,
    n2: Seq<Sentence>,
    ids: Seq<u32>,
)
    requires
        terms_d(toks, i, j, s1, u1, n1, ids),
        bufs_grow(s1, u1, n1, s2, u2, n2),
    ensures
        terms_d(toks, i, j, s2, u2, n2, ids),
    decreases j - i, 2int,
{
    if ids.len() > 0 {
        let k = choose|k: int|
            #[trigger] cut(i, k, j) && i <= k < j && terms_d(toks, i, k, s1, u1, n1, ids.drop_last()) && sumti_d(
                toks,
                k,
                j,
                s1,
                u1,
                n1,
                ids.last() as int,
            );
        lemma_terms_mono(toks, i, k, s1, u1, n1, s2, u2, n2, ids.drop_last());
        lemma_sumti_mono(toks, k, j, s1, u1, n1, s2, u2, n2, ids.last() as int);
    }
}

/// Derivations of predicates survive appending nodes.
pub proof fn lemma_predicate_mono(
    toks: Seq<Token>,
    p: int,
    j: int,
    s1: Seq<Selbri>,
    u1: Seq<Sumti>,
    n1: Seq<Sentence>,
    s2: Seq<Selbri>,
    u2: Seq<Sumti>,
    n2: Seq<Sentence>,
    relation: u32,
    negated: bool,
    tail: Seq<u32>,
)
    requires
        predicate_d(toks, p, j, s1, u1, n1, relation, negated, tail),
        bufs_grow(s1, u1, n1, s2, u2, n2),
    ensures
        predicate_d(toks, p, j, s2, u2, n2, relation, negated, tail),
    decreases j - p, 3int,
{
    let (q, r, sel) = choose|q: int, r: int, sel: int|
        #[trigger] cut3(p, q, r, j, sel) && p < q <= r && r <= j && selbri_d(toks, p, q, s1, u1, n1, sel)
            && unwrap_negation(s1, sel) == (relation as int, negated) && terms_d(
            toks,
            q,
            r,
            s1,
            u1,
            n1,
            tail,
        ) && j == after_opt(toks, r, Cmavo::Vau);
    lemma_selbri_mono(toks, p, q, s1, u1, n1, s2, u2, n2, sel);
    lemma_terms_mono(toks, q, r, s1, u1, n1, s2, u2, n2, tail);
    assert(s2[sel] == s1[sel]);
    assert(unwrap_negation(s2, sel) == unwrap_negation(s1, sel));
}

/// Derivations of bridi survive appending nodes.
pub proof fn lemma_bridi_mono(
    toks: Seq<Token>,
    i: int,
    j: int,
    s1: Seq<Selbri>,
    u1: Seq<Sumti>,
    n1: Seq<Sentence>,
    s2: Seq<Selbri>,
    u2: Seq<Sumti>,
    n2: Seq<Sentence>,
    b: Bridi,
)
    requires
        bridi_d(toks, i, j, s1, u1, n1, b),
        bufs_grow(s1, u1, n1, s2, u2, n2),
    ensures
        bridi_d(toks, i, j, s2, u2, n2, b),
    decreases j - i, 4int,
{
    let p1 = after_tense(toks, i);
    let p2 = after_attitudinal(toks, p1);
    let p3 = choose|p3: int|
        #[trigger] cut(p2, p3, j) && p2 <= p3 <= j && terms_d(toks, p2, p3, s1, u1, n1, b.head_terms@) && {
            let p4 = after_opt(toks, p3, Cmavo::Cu);
            let t1 = tense_at(toks, i);
            let a1 = attitudinal_at(toks, p1);
            let p5 = if t1 is Some {
                p4
            } else {
                after_tense(toks, p4)
            };
            let p6 = if a1 is Some {
                p5
            } else {
                after_attitudinal(toks, p5)
            };
            &&& b.tense == (if t1 is Some {
                t1
            } else {
                tense_at(toks, p4)
            })
            &&& b.attitudinal == (if a1 is Some {
                a1
            } else {
                attitudinal_at(toks, p5)
            })
            &&& p6 < j
            &&& predicate_d(toks, p6, j, s1, u1, n1, b.relation, b.negated, b.tail_terms@)
        };
    lemma_terms_mono(toks, p2, p3, s1, u1, n1, s2, u2, n2, b.head_terms@);
    let p4 = after_opt(toks, p3, Cmavo::Cu);
    let t1 = tense_at(toks, i);
    let a1 = attitudinal_at(toks, p1);
    let p5 = if t1 is Some {
        p4
    } else {
        after_tense(toks, p4)
    };
    let p6 = if a1 is Some {
        p5
    } else {
        after_attitudinal(toks, p5)
    };
    lemma_predicate_mono(
        toks,
        p6,
        j,
        s1,
        u1,
        n1,
        s2,
        u2,
        n2,
        b.relation,
        b.negated,
        b.tail_terms@,
    );
}

/// Derivations of GIhA tails survive appending nodes.
pub proof fn lemma_tail_mono(
    toks: Seq<Token>,
    i: int,
    j: int,
    s1: Seq<Selbri>,
    u1: Seq<Sumti>,
    n1: Seq<Sentence>,
    s2: Seq<Selbri>,
    u2: Seq<Sumti>,
    n2: Seq<Sentence>,
    t: GihaTail,
)
    requires
        tail_d(toks, i, j, s1, u1, n1, t),
        bufs_grow(s1, u1, n1, s2, u2, n2),
    ensures
        tail_d(toks, i, j, s2, u2, n2, t),
    decreases j - i, 5int,
{
    let (conn, fused) = spec_giha(cmavo_at(toks, i)->0)->0;
    let spaced = !fused && cmavo_at(toks, i + 1) == Some(Cmavo::Nai);
    let p = if spaced {
        i + 2
    } else {
        i + 1
    };
    lemma_predicate_mono(toks, p, j, s1, u1, n1, s2, u2, n2, t.relation, t.negated, t.tail_terms@);
}

/// Derivations of GIhA tail lists survive appending nodes.
pub proof fn lemma_tails_mono(
    toks: Seq<Token>,
    i: int,
    j: int,
    s1: Seq<Selbri>,
    u1: Seq<Sumti>,
    n1: Seq<Sentence>,
    s2: Seq<Selbri>,
    u2: Seq<Sumti>,
    n2: Seq<Sentence>,
    ts: Seq<GihaTail>,
)
    requires
        tails_d(toks, i, j, s1, u1, n1, ts),
        bufs_grow(s1, u1, n1, s2, u2, n2),
    ensures
        tails_d(toks, i, j, s2, u2, n2, ts),
    decreases j - i, 6int,
{
    if ts.len() > 0 {
        let k = choose|k: int|
            #[trigger] cut(i, k, j) && i <= k < j && tails_d(toks, i, k, s1, u1, n1, ts.drop_last()) && tail_d(
                toks,
                k,
                j,
                s1,
                u1,
                n1,
                ts.last(),
            );
        lemma_tails_mono(toks, i, k, s1, u1, n1, s2, u2, n2, ts.drop_last());
        lemma_tail_mono(toks, k, j, s1, u1, n1, s2, u2, n2, ts.last());
    }
}

/// Repeated-head chains survive appending nodes.
pub proof fn lemma_chain_mono(
    u1: Seq<Sumti>,
    n1: Seq<Sentence>,
    u2: Seq<Sumti>,
    n2: Seq<Sentence>,
    b: Bridi,
    ts: Seq<GihaTail>,
    id: int,
)
    requires
        chain(u1, n1, b, ts, id),
        prefix_of(n1, n2),
    ensures
        chain(u2, n2, b, ts, id),
    decreases ts.len(),
{
    assert(n2[id] == n1[id]);
    if ts.len() > 0 {
        if let Sentence::Connected(_, l, r) = n1[id] {
            lemma_chain_mono(u1, n1, u2, n2, b, ts.drop_last(), l as int);
            assert(n2[r as int] == n1[r as int]);
        }
    }
}

/// Lowerings survive appending nodes.
pub proof fn lemma_lowered_mono(
    u1: Seq<Sumti>,
    n1: Seq<Sentence>,
    u2: Seq<Sumti>,
    n2: Seq<Sentence>,
    b: Bridi,
    ts: Seq<GihaTail>,
    id: int,
    fuel: nat,
)
    requires
        lowered(u1, n1, b, ts, id, fuel),
        prefix_of(u1, u2),
        prefix_of(n1, n2),
        forall|k: int| 0 <= k < b.head_terms@.len() ==> #[trigger] b.head_terms@[k] < u1.len(),
    ensures
        lowered(u2, n2, b, ts, id, fuel),
    decreases fuel,
{
    assert(n2[id] == n1[id]);
    assert forall|k: int| 0 <= k < b.head_terms@.len() implies spec_giha_safe_head(
        u1,
        #[trigger] b.head_terms@[k] as int,
    ) == spec_giha_safe_head(u2, b.head_terms@[k] as int) && spec_head_has_connective(
        u1,
        b.head_terms@[k] as int,
    ) == spec_head_has_connective(u2, b.head_terms@[k] as int) by {
        lemma_safe_head_mono(u1, u2, b.head_terms@[k] as int);
    }
    if ts.len() == 0 {
    } else if all_safe(u1, b.head_terms@) {
        lemma_chain_mono(u1, n1, u2, n2, b, ts, id);
    } else if forall|k: int|
        0 <= k < b.head_terms@.len() ==> !#[trigger] spec_head_has_connective(
            u1,
            b.head_terms@[k] as int,
        ) {
    } else {
        let (k, lb, rb) = choose|k: int, lb: Bridi, rb: Bridi|
            first_head_connective(u1, b.head_terms@, k) && #[trigger] split_heads(u1, b, k, lb, rb)
                && match n1[id] {
                Sentence::Connected(
                    SentenceConnective::Afterthought { left_negated, connective, right_negated },
                    l,
                    r,
                ) => !left_negated && head_connective(u1, b.head_terms@[k] as int) == Some(
                    (connective, right_negated),
                ) && lowered(u1, n1, lb, ts, l as int, (fuel - 1) as nat) && lowered(
                    u1,
                    n1,
                    rb,
                    ts,
                    r as int,
                    (fuel - 1) as nat,
                ),
                _ => false,
            };
        let t = b.head_terms@[k] as int;
        assert(u2[t] == u1[t]);
        if let Sumti::Tagged(_, inner) = u1[t] {
            assert(u2[inner as int] == u1[inner as int]);
        }
        let lt = lb.head_terms@[k] as int;
        let rt = rb.head_terms@[k] as int;
        assert(forall|m: int| 0 <= m < lb.head_terms@.len() ==> #[trigger] lb.head_terms@[m] < u1.len()) by {
            assert forall|m: int| 0 <= m < lb.head_terms@.len() implies #[trigger] lb.head_terms@[m] < u1.len() by {
                if m != k {
                    assert(lb.head_terms@[m] == b.head_terms@[m]);
                }
            }
        }
        assert(forall|m: int| 0 <= m < rb.head_terms@.len() ==> #[trigger] rb.head_terms@[m] < u1.len()) by {
            assert forall|m: int| 0 <= m < rb.head_terms@.len() implies #[trigger] rb.head_terms@[m] < u1.len() by {
                if m != k {
                    assert(rb.head_terms@[m] == b.head_terms@[m]);
                }
            }
        }
        if let Sumti::Tagged(_, inner) = u1[t] {
            assert(u2[lt] == u1[lt]);
            assert(u2[rt] == u1[rt]);
        }
        assert(split_heads(u2, b, k, lb, rb));
        assert(first_head_connective(u2, b.head_terms@, k));
        assert(head_connective(u2, t) == head_connective(u1, t));
        if let Sentence::Connected(_, l, r) = n1[id] {
            lemma_lowered_mono(u1, n1, u2, n2, lb, ts, l as int, (fuel - 1) as nat);
            lemma_lowered_mono(u1, n1, u2, n2, rb, ts, r as int, (fuel - 1) as nat);
        }
    }
}

/// Derivations of sentences survive appending nodes.
pub proof fn lemma_sentence_mono(
    toks: Seq<Token>,
    i: int,
    j: int,
    s1: Seq<Selbri>,
    u1: Seq<Sumti>,
    n1: Seq<Sentence>,
    s2: Seq<Selbri>,
    u2: Seq<Sumti>,
    n2: Seq<Sentence>,
    id: int,
)
    requires
        sentence_d(toks, i, j, s1, u1, n1, id),
        bufs_grow(s1, u1, n1, s2, u2, n2),
    ensures
        sentence_d(toks, i, j, s2, u2, n2, id),
    decreases j - i, 7int,
{
    assert(n2[id] == n1[id]);
    match spec_prenex(toks, i) {
        Some((vs, q)) => {
            if let Sentence::Prenex(_, body) = n1[id] {
                lemma_sentence_mono(toks, q, j, s1, u1, n1, s2, u2, n2, body as int);
            }
        },
        None => match forethought(cmavo_at(toks, i)) {
            Some(fc) => {
                if let Sentence::Connected(_, l, r) = n1[id] {
                    let k = choose|k: int|
                        #[trigger] cut(i + 1, k, j) && i + 1 < k && k + 1 < j && sentence_d(
                            toks,
                            i + 1,
                            k,
                            s1,
                            u1,
                            n1,
                            l as int,
                        ) && cmavo_at(toks, k) == Some(Cmavo::Gi) && sentence_d(
                            toks,
                            k + 1,
                            j,
                            s1,
                            u1,
                            n1,
                            r as int,
                        );
                    lemma_sentence_mono(toks, i + 1, k, s1, u1, n1, s2, u2, n2, l as int);
                    lemma_sentence_mono(toks, k + 1, j, s1, u1, n1, s2, u2, n2, r as int);
                }
            },
            None => {
                let (k, b, ts) = choose|k: int, b: Bridi, ts: Seq<GihaTail>|
                    #[trigger] pick(i, k, j, b, ts) && i < k <= j && bridi_d(toks, i, k, s1, u1, n1, b) && tails_d(
                        toks,
                        k,
                        j,
                        s1,
                        u1,
                        n1,
                        ts,
                    ) && lowered(u1, n1, b, ts, id, toks.len());
                lemma_bridi_mono(toks, i, k, s1, u1, n1, s2, u2, n2, b);
                lemma_tails_mono(toks, k, j, s1, u1, n1, s2, u2, n2, ts);
                lemma_bridi_terms_in(toks, i, k, s1, u1, n1, b);
                lemma_lowered_mono(u1, n1, u2, n2, b, ts, id, toks.len());
            },
        },
    }
}

/// The terms of a derived list are existing sumti.
pub proof fn lemma_terms_in(
    toks: Seq<Token>,
    i: int,
    j: int,
    s: Seq<Selbri>,
    u: Seq<Sumti>,
    n: Seq<Sentence>,
    ids: Seq<u32>,
)
    requires
        terms_d(toks, i, j, s, u, n, ids),
    ensures
        forall|k: int| 0 <= k < ids.len() ==> #[trigger] ids[k] < u.len(),
    decreases ids.len(),
{
    if ids.len() > 0 {
        let k0 = choose|k: int|
            #[trigger] cut(i, k, j) && i <= k < j && terms_d(toks, i, k, s, u, n, ids.drop_last()) && sumti_d(
                toks,
                k,
                j,
                s,
                u,
                n,
                ids.last() as int,
            );
        lemma_terms_in(toks, i, k0, s, u, n, ids.drop_last());
        assert forall|k: int| 0 <= k < ids.len() implies #[trigger] ids[k] < u.len() by {
            if k < ids.len() - 1 {
                assert(ids[k] == ids.drop_last()[k]);
            }
        }
    }
}

/// The head terms of a derived bridi are existing sumti.
pub proof fn lemma_bridi_terms_in(
    toks: Seq<Token>,
    i: int,
    j: int,
    s: Seq<Selbri>,
    u: Seq<Sumti>,
    n: Seq<Sentence>,
    b: Bridi,
)
    requires
        bridi_d(toks, i, j, s, u, n, b),
    ensures
        forall|k: int| 0 <= k < b.head_terms@.len() ==> #[trigger] b.head_terms@[k] < u.len(),
{
    let p1 = after_tense(toks, i);
    let p2 = after_attitudinal(toks, p1);
    let p3 = choose|p3: int|
        #[trigger] cut(p2, p3, j) && p2 <= p3 <= j && terms_d(toks, p2, p3, s, u, n, b.head_terms@) && {
            let p4 = after_opt(toks, p3, Cmavo::Cu);
            let t1 = tense_at(toks, i);
            let a1 = attitudinal_at(toks, p1);
            let p5 = if t1 is Some {
                p4
            } else {
                after_tense(toks, p4)
            };
            let p6 = if a1 is Some {
                p5
            } else {
                after_attitudinal(toks, p5)
            };
            &&& b.tense == (if t1 is Some {
                t1
            } else {
                tense_at(toks, p4)
            })
            &&& b.attitudinal == (if a1 is Some {
                a1
            } else {
                attitudinal_at(toks, p5)
            })
            &&& p6 < j
            &&& predicate_d(toks, p6, j, s, u, n, b.relation, b.negated, b.tail_terms@)
        };
    lemma_terms_in(toks, p2, p3, s, u, n, b.head_terms@);
}

/// The first head term holding a connective, found by scanning in order.
pub proof fn lemma_first_connective_at(sumtis: Seq<Sumti>, terms: Seq<u32>, k: int)
    requires
        0 <= k < terms.len(),
        spec_head_has_connective(sumtis, terms[k] as int),
        forall|m: int| 0 <= m < k ==> !#[trigger] spec_head_has_connective(sumtis, terms[m] as int),
    ensures
        first_head_connective(sumtis, terms, k),
{
}

/// Whether a term list's first connective is at `k` does not change when sumti are
/// appended.
pub proof fn lemma_first_connective_mono(u1: Seq<Sumti>, u2: Seq<Sumti>, terms: Seq<u32>, k: int)
    requires
        first_head_connective(u1, terms, k),
        prefix_of(u1, u2),
        forall|m: int| 0 <= m < terms.len() ==> #[trigger] terms[m] < u1.len(),
    ensures
        first_head_connective(u2, terms, k),
{
    assert forall|m: int| 0 <= m < terms.len() implies spec_head_has_connective(
        u1,
        #[trigger] terms[m] as int,
    ) == spec_head_has_connective(u2, terms[m] as int) by {
        lemma_safe_head_mono(u1, u2, terms[m] as int);
    }
}

/// A split of head terms survives appending sumti.
pub proof fn lemma_split_heads_mono(u1: Seq<Sumti>, u2: Seq<Sumti>, b: Bridi, k: int, lb: Bridi, rb: Bridi)
    requires
        split_heads(u1, b, k, lb, rb),
        prefix_of(u1, u2),
    ensures
        split_heads(u2, b, k, lb, rb),
{
    let t = b.head_terms@[k] as int;
    assert(u2[t] == u1[t]);
    let lt = lb.head_terms@[k] as int;
    let rt = rb.head_terms@[k] as int;
    assert(u2[lt] == u1[lt]);
    assert(u2[rt] == u1[rt]);
    if let Sumti::Tagged(_, inner) = u1[t] {
        assert(u2[inner as int] == u1[inner as int]);
    }
}

/// Whether every head term is a constant does not change when sumti are appended.
pub proof fn lemma_all_safe_mono(u1: Seq<Sumti>, u2: Seq<Sumti>, terms: Seq<u32>)
    requires
        prefix_of(u1, u2),
        forall|m: int| 0 <= m < terms.len() ==> #[trigger] terms[m] < u1.len(),
    ensures
        all_safe(u1, terms) == all_safe(u2, terms),
{
    assert forall|m: int| 0 <= m < terms.len() implies spec_giha_safe_head(
        u1,
        #[trigger] terms[m] as int,
    ) == spec_giha_safe_head(u2, terms[m] as int) by {
        lemma_safe_head_mono(u1, u2, terms[m] as int);
    }
}

/// A predicate from its parts.
pub proof fn lemma_predicate_intro(
    toks: Seq<Token>,
    p: int,
    q: int,
    r: int,
    j: int,
    selbris: Seq<Selbri>,
    sumtis: Seq<Sumti>,
    sentences: Seq<Sentence>,
    sel: int,
    relation: u32,
    negated: bool,
    tail: Seq<u32>,
)
    requires
        p < q <= r <= j,
        selbri_d(toks, p, q, selbris, sumtis, sentences, sel),
        unwrap_negation(selbris, sel) == (relation as int, negated),
        terms_d(toks, q, r, selbris, sumtis, sentences, tail),
        j == after_opt(toks, r, Cmavo::Vau),
    ensures
        predicate_d(toks, p, j, selbris, sumtis, sentences, relation, negated, tail),
{
    assert(cut3(p, q, r, j, sel));
}

/// A bridi from its head terms and its predicate.
pub proof fn lemma_bridi_intro(
    toks: Seq<Token>,
    i: int,
    p3: int,
    j: int,
    selbris: Seq<Selbri>,
    sumtis: Seq<Sumti>,
    sentences: Seq<Sentence>,
    b: Bridi,
)
    requires
        after_attitudinal(toks, after_tense(toks, i)) <= p3 <= j,
        terms_d(
            toks,
            after_attitudinal(toks, after_tense(toks, i)),
            p3,
            selbris,
            sumtis,
            sentences,
            b.head_terms@,
        ),
        ({
            let p1 = after_tense(toks, i);
            let p4 = after_opt(toks, p3, Cmavo::Cu);
            let t1 = tense_at(toks, i);
            let a1 = attitudinal_at(toks, p1);
            let p5 = if t1 is Some {
                p4
            } else {
                after_tense(toks, p4)
            };
            let p6 = if a1 is Some {
                p5
            } else {
                after_attitudinal(toks, p5)
            };
            &&& b.tense == (if t1 is Some {
                t1
            } else {
                tense_at(toks, p4)
            })
            &&& b.attitudinal == (if a1 is Some {
                a1
            } else {
                attitudinal_at(toks, p5)
            })
            &&& p6 < j
            &&& predicate_d(
                toks,
                p6,
                j,
                selbris,
                sumtis,
                sentences,
                b.relation,
                b.negated,
                b.tail_terms@,
            )
        }),
    ensures
        bridi_d(toks, i, j, selbris, sumtis, sentences, b),
{
    assert(cut(after_attitudinal(toks, after_tense(toks, i)), p3, j));
}

/// A list of GIhA tails grown by one.
pub proof fn lemma_tails_push(
    toks: Seq<Token>,
    i: int,
    m: int,
    j: int,
    selbris: Seq<Selbri>,
    sumtis: Seq<Sumti>,
    sentences: Seq<Sentence>,
    ts: Seq<GihaTail>,
    t: GihaTail,
)
    requires
        i <= m < j,
        tails_d(toks, i, m, selbris, sumtis, sentences, ts),
        tail_d(toks, m, j, selbris, sumtis, sentences, t),
    ensures
        tails_d(toks, i, j, selbris, sumtis, sentences, ts.push(t)),
{
    assert(ts.push(t).drop_last() =~= ts);
    assert(cut(i, m, j));
}

/// A sentence made of a bridi and its GIhA tails.
pub proof fn lemma_sentence_bridi_intro(
    toks: Seq<Token>,
    i: int,
    k: int,
    j: int,
    selbris: Seq<Selbri>,
    sumtis: Seq<Sumti>,
    sentences: Seq<Sentence>,
    b: Bridi,
    ts: Seq<GihaTail>,
    id: int,
)
    requires
        spec_prenex(toks, i) is None,
        forethought(cmavo_at(toks, i)) is None,
        0 <= i < k <= j <= toks.len(),
        0 <= id < sentences.len(),
        bridi_d(toks, i, k, selbris, sumtis, sentences, b),
        tails_d(toks, k, j, selbris, sumtis, sentences, ts),
        lowered(sumtis, sentences, b, ts, id, toks.len()),
    ensures
        sentence_d(toks, i, j, selbris, sumtis, sentences, id),
{
    assert(pick(i, k, j, b, ts));
}

/// A sentence made of a forethought connective over two sentences.
pub proof fn lemma_sentence_forethought_intro(
    toks: Seq<Token>,
    i: int,
    k: int,
    j: int,
    selbris: Seq<Selbri>,
    sumtis: Seq<Sumti>,
    sentences: Seq<Sentence>,
    id: int,
)
    requires
        spec_prenex(toks, i) is None,
        0 <= i,
        i + 1 < k,
        k + 1 < j <= toks.len(),
        0 <= id < sentences.len(),
        sentences[id] matches Sentence::Connected(c, l, r) && forethought(cmavo_at(toks, i)) == Some(c)
            && sentence_d(toks, i + 1, k, selbris, sumtis, sentences, l as int) && sentence_d(
            toks,
            k + 1,
            j,
            selbris,
            sumtis,
            sentences,
            r as int,
        ),
        cmavo_at(toks, k) == Some(Cmavo::Gi),
    ensures
        sentence_d(toks, i, j, selbris, sumtis, sentences, id),
{
    assert(cut(i + 1, k, j));
}

/// A connective after `.i` stands at `k`.
pub open spec fn joik_at(toks: Seq<Token>, k: int) -> Option<Connective> {
    match cmavo_at(toks, k) {
        Some(c) => spec_joik(c),
        None => None,
    }
}

/// The connection that `.i` and the connective at `k` make.
pub open spec fn afterthought_at(toks: Seq<Token>, k: int) -> Option<SentenceConnective> {
    match joik_at(toks, k) {
        Some(conn) => Some(SentenceConnective::Afterthought { left_negated: false, connective: conn, right_negated: false }),
        None => None,
    }
}

/// Sentence `id` is spelled by `[i, j)` as one paragraph unit: a sentence, or a unit,
/// `.i`, a connective and a sentence, joined as an afterthought connection.
pub open spec fn joined_d(
    toks: Seq<Token>,
    i: int,
    j: int,
    selbris: Seq<Selbri>,
    sumtis: Seq<Sumti>,
    sentences: Seq<Sentence>,
    id: int,
) -> bool
    decreases j - i,
{
    ||| sentence_d(toks, i, j, selbris, sumtis, sentences, id)
    ||| {
        &&& 0 <= i < j <= toks.len()
        &&& 0 <= id < sentences.len()
        &&& sentences[id] matches Sentence::Connected(c, l, r) && exists|k: int|
            #[trigger] cut(i, k, j) && i < k && k + 2 < j && joined_d(
                toks,
                i,
                k,
                selbris,
                sumtis,
                sentences,
                l as int,
            ) && cmavo_at(toks, k) == Some(Cmavo::I) && afterthought_at(toks, k + 1) == Some(c) && sentence_d(toks, k + 2, j, selbris, sumtis, sentences, r as int)
    }
}

/// The top-level sentences `roots` are spelled by `[i, j)`: units separated by a `.i`
/// that no connective follows.
pub open spec fn roots_d(
    toks: Seq<Token>,
    i: int,
    j: int,
    selbris: Seq<Selbri>,
    sumtis: Seq<Sumti>,
    sentences: Seq<Sentence>,
    roots: Seq<u32>,
) -> bool
    decreases roots.len(),
{
    if roots.len() == 0 {
        false
    } else if roots.len() == 1 {
        joined_d(toks, i, j, selbris, sumtis, sentences, roots[0] as int)
    } else {
        exists|k: int|
            #[trigger] cut(i, k, j) && roots_d(
                toks,
                i,
                k,
                selbris,
                sumtis,
                sentences,
                roots.drop_last(),
            ) && cmavo_at(toks, k) == Some(Cmavo::I) && joik_at(toks, k + 1) is None && joined_d(
                toks,
                k + 1,
                j,
                selbris,
                sumtis,
                sentences,
                roots.last() as int,
            )
    }
}

/// A whole text: an optional leading `.i`, then its top-level sentences up to the end.
pub open spec fn text_d(
    toks: Seq<Token>,
    selbris: Seq<Selbri>,
    sumtis: Seq<Sumti>,
    sentences: Seq<Sentence>,
    roots: Seq<u32>,
) -> bool {
    roots_d(toks, after_opt(toks, 0, Cmavo::I), toks.len() as int, selbris, sumtis, sentences, roots)
}

/// Paragraph units survive appending nodes.
pub proof fn lemma_joined_mono(
    toks: Seq<Token>,
    i: int,
    j: int,
    s1: Seq<Selbri>,
    u1: Seq<Sumti>,
    n1: Seq<Sentence>,
    s2: Seq<Selbri>,
    u2: Seq<Sumti>,
    n2: Seq<Sentence>,
    id: int,
)
    requires
        joined_d(toks, i, j, s1, u1, n1, id),
        bufs_grow(s1, u1, n1, s2, u2, n2),
    ensures
        joined_d(toks, i, j, s2, u2, n2, id),
    decreases j - i,
{
    if sentence_d(toks, i, j, s1, u1, n1, id) {
        lemma_sentence_mono(toks, i, j, s1, u1, n1, s2, u2, n2, id);
    } else {
        assert(n2[id] == n1[id]);
        if let Sentence::Connected(c, l, r) = n1[id] {
            let k = choose|k: int|
                #[trigger] cut(i, k, j) && i < k && k + 2 < j && joined_d(toks, i, k, s1, u1, n1, l as int)
                    && cmavo_at(toks, k) == Some(Cmavo::I) && afterthought_at(toks, k + 1) == Some(c) && sentence_d(toks, k + 2, j, s1, u1, n1, r as int);
            lemma_joined_mono(toks, i, k, s1, u1, n1, s2, u2, n2, l as int);
            lemma_sentence_mono(toks, k + 2, j, s1, u1, n1, s2, u2, n2, r as int);
        }
    }
}

/// Top-level sentences survive appending nodes.
pub proof fn lemma_roots_mono(
    toks: Seq<Token>,
    i: int,
    j: int,
    s1: Seq<Selbri>,
    u1: Seq<Sumti>,
    n1: Seq<Sentence>,
    s2: Seq<Selbri>,
    u2: Seq<Sumti>,
    n2: Seq<Sentence>,
    roots: Seq<u32>,
)
    requires
        roots_d(toks, i, j, s1, u1, n1, roots),
        bufs_grow(s1, u1, n1, s2, u2, n2),
    ensures
        roots_d(toks, i, j, s2, u2, n2, roots),
    decreases roots.len(),
{
    if roots.len() == 1 {
        lemma_joined_mono(toks, i, j, s1, u1, n1, s2, u2, n2, roots[0] as int);
    } else if roots.len() > 1 {
        let k = choose|k: int|
            #[trigger] cut(i, k, j) && roots_d(toks, i, k, s1, u1, n1, roots.drop_last()) && cmavo_at(
                toks,
                k,
            ) == Some(Cmavo::I) && joik_at(toks, k + 1) is None && joined_d(
                toks,
                k + 1,
                j,
                s1,
                u1,
                n1,
                roots.last() as int,
            );
        lemma_roots_mono(toks, i, k, s1, u1, n1, s2, u2, n2, roots.drop_last());
        lemma_joined_mono(toks, k + 1, j, s1, u1, n1, s2, u2, n2, roots.last() as int);
        assert(cut(i, k, j));
    }
}

/// One more top-level sentence after a bare `.i`.
pub proof fn lemma_roots_push(
    toks: Seq<Token>,
    i: int,
    k: int,
    j: int,
    selbris: Seq<Selbri>,
    sumtis: Seq<Sumti>,
    sentences: Seq<Sentence>,
    roots: Seq<u32>,
    id: u32,
)
    requires
        i <= k <= j,
        roots.len() > 0,
        roots_d(toks, i, k, selbris, sumtis, sentences, roots),
        cmavo_at(toks, k) == Some(Cmavo::I),
        joik_at(toks, k + 1) is None,
        joined_d(toks, k + 1, j, selbris, sumtis, sentences, id as int),
    ensures
        roots_d(toks, i, j, selbris, sumtis, sentences, roots.push(id)),
{
    assert(roots.push(id).drop_last() =~= roots);
    assert(cut(i, k, j));
}

/// A unit extended by `.i`, a connective and a sentence.
pub proof fn lemma_joined_push(
    toks: Seq<Token>,
    i: int,
    k: int,
    j: int,
    selbris: Seq<Selbri>,
    sumtis: Seq<Sumti>,
    sentences: Seq<Sentence>,
    id: int,
)
    requires
        0 <= i < k,
        k + 2 < j <= toks.len(),
        0 <= id < sentences.len(),
        sentences[id] matches Sentence::Connected(c, l, r) && joined_d(toks, i, k, selbris, sumtis, sentences, l as int)
            && afterthought_at(toks, k + 1) == Some(c) && sentence_d(toks, k + 2, j, selbris, sumtis, sentences, r as int),
        cmavo_at(toks, k) == Some(Cmavo::I),
    ensures
        joined_d(toks, i, j, selbris, sumtis, sentences, id),
{
    assert(cut(i, k, j));
}

} // verus!
