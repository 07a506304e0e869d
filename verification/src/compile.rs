//! The semantic compiler: parsed sentences to first-order formulas.
//!
//! Each predication becomes an event-decomposed predicate (`klama(e) ∧ klama_x1(e, x)`),
//! descriptions become restricted quantifiers closed in surface order, bare `da`/`de`/
//! `di` become existentials, connected sumti distribute over the whole predication, and
//! `na`, tense and attitudinals wrap the result in that order. Whatever the fragment
//! cannot represent is reported as an error rather than dropped.

use vstd::prelude::*;
use crate::ast::{
    copy_ids, ast_wf, Ast, bridi_wf, lemma_wf_nodes, selbri_wf, sentence_wf, sumti_wf, tail_wf, terms_wf,
    Attitudinal, Bridi, Connective, Conversion, Gadri, GihaTail, ModalTag, PlaceTag, Quantifier,
    Selbri, Sentence, SentenceConnective, Sumti, Tense, spec_tag_index, spec_tag_name,
};
use crate::dictionary::{bai_to_gismu, get_arity, get_arity_or_default, spec_arity, spec_arity_or_default, spec_bai_gismu, str_equal};
use crate::form::{LogicalForm, Term};
use crate::interner::{interned, rodeo_intern, rodeo_len, rodeo_new, rodeo_resolve};
use crate::lexer::{cmavo_text, spec_cmavo_text, string_of, Cmavo};
use crate::parser::{is_logic_var_cmavo, lemma_wf_grow, prefix_of, prenex_logic};
use lasso::Rodeo;

verus! {

/// How a description binds its variable.
#[derive(Clone, Copy, PartialEq, Eq, Debug, Structural)]
pub enum QuantKind {
    /// `lo`/`le`: some value satisfies the restrictor and the matrix.
    Existential,
    /// `ro lo`/`ro le`: every value satisfying the restrictor satisfies the matrix.
    Universal,
    /// `<n> lo`: exactly `n` values satisfy both.
    Count(u32),
}

/// A description's quantifier: its kind, its variable and its restrictor.
#[derive(Debug)]
pub struct QuantifierEntry {
    pub kind: QuantKind,
    pub var: u32,
    pub restrictor: LogicalForm,
}

/// A scope introduced at a surface position: a description's quantifier, or a bare
/// logic variable.
#[derive(Debug)]
pub enum ScopeMarker {
    Desc(QuantifierEntry),
    Bare(u32),
}

/// What a connected sumti sits under in a term slot.
#[derive(Clone, Copy, PartialEq, Eq, Debug, Structural)]
pub enum ConnWrapper {
    Bare,
    Place(PlaceTag),
    Modal(ModalTag),
}

/// A connected sumti found among a predication's terms, ready to distribute.
#[derive(Clone, Copy, PartialEq, Eq, Debug, Structural)]
pub struct ConnectedSplit {
    /// Position of the connected term within `head_terms ++ tail_terms`.
    pub term_pos: usize,
    pub wrapper: ConnWrapper,
    pub connective: Connective,
    pub right_negated: bool,
    pub left_id: u32,
    pub right_id: u32,
}

/// The compiler state: the interner of names, the errors so far, the prenex-bound
/// variables, the relative-clause context and a step budget that bounds the work.
pub struct SemanticCompiler {
    pub interner: Rodeo,
    pub errors: Vec<String>,
    /// Variables bound by an enclosing prenex (never closed existentially).
    pub prenex_vars: Vec<u32>,
    /// Relative clauses on names and other non-quantified sumti, waiting to be
    /// conjoined into the predication that holds them.
    pub pending_matrix_conjuncts: Vec<LogicalForm>,
    /// The term a relative clause is about, placed in x1 of the clause's first
    /// predication when that predication has no head terms.
    pub pending_clause_subject: Option<Term>,
    pub kea_used: bool,
    /// What `ke'a` refers to inside the current relative clause.
    pub kea: Option<Term>,
    pub next_var: u32,
    pub budget: usize,
}

/// `after` continues `before`: errors and interned names only appended, the step
/// budget not grown, the prenex stack and what `ke'a` refers to as they were, and no
/// relative-clause subject waiting when none was.
pub open spec fn kept(before: SemanticCompiler, after: SemanticCompiler) -> bool {
    &&& prefix_of(before.errors@, after.errors@)
    &&& prefix_of(interned(before.interner), interned(after.interner))
    &&& after.budget <= before.budget
    &&& after.prenex_vars@ == before.prenex_vars@
    &&& after.kea == before.kea
    &&& (after.pending_clause_subject == before.pending_clause_subject || after.pending_clause_subject is None)
}

/// A compiler that went on leaves no more variables open.
pub proof fn lemma_open_kept(a: SemanticCompiler, b: SemanticCompiler)
    requires
        kept(a, b),
    ensures
        open_vars(b).subset_of(open_vars(a)),
{
}

/// The sumti buffer only grew, and the node buffers stay well formed.
pub open spec fn grown(
    selbris: Seq<Selbri>,
    before: Seq<Sumti>,
    after: Seq<Sumti>,
    sentences: Seq<Sentence>,
) -> bool {
    &&& prefix_of(before, after)
    &&& ast_wf(selbris, after, sentences)
}

/// The position of a conversion's swapped place (0-based): `se` x2, `te` x3, `ve` x4,
/// `xe` x5.
pub open spec fn spec_conversion_place(c: Conversion) -> nat {
    match c {
        Conversion::Se => 1,
        Conversion::Te => 2,
        Conversion::Ve => 3,
        Conversion::Xe => 4,
    }
}

/// The number of places of a selbri.
pub open spec fn spec_selbri_arity(selbris: Seq<Selbri>, id: int) -> nat
    decreases id,
{
    if 0 <= id < selbris.len() {
        match selbris[id] {
            Selbri::Root(name) => spec_arity_or_default(name@),
            Selbri::Tanru(_, h) => if 0 <= h < id {
                spec_selbri_arity(selbris, h as int)
            } else {
                2
            },
            Selbri::Converted(c, i) => if 0 <= i < id {
                let a = spec_selbri_arity(selbris, i as int);
                let k = spec_conversion_place(c) + 1;
                if a < k {
                    k
                } else {
                    a
                }
            } else {
                2
            },
            Selbri::Negated(i) => if 0 <= i < id {
                spec_selbri_arity(selbris, i as int)
            } else {
                2
            },
            Selbri::Abstraction(_) => 1,
        }
    } else {
        2
    }
}

/// A selbri has between one and five places.
proof fn lemma_arity_range(selbris: Seq<Selbri>, id: int)
    ensures
        1 <= spec_selbri_arity(selbris, id) <= 5,
    decreases id,
{
    if 0 <= id < selbris.len() {
        match selbris[id] {
            Selbri::Root(name) => {},
            Selbri::Tanru(_, h) => if 0 <= h < id {
                lemma_arity_range(selbris, h as int);
            },
            Selbri::Converted(c, i) => if 0 <= i < id {
                lemma_arity_range(selbris, i as int);
            },
            Selbri::Negated(i) => if 0 <= i < id {
                lemma_arity_range(selbris, i as int);
            },
            Selbri::Abstraction(_) => {},
        }
    }
}

/// The place a conversion swaps with x1.
fn conversion_place(c: Conversion) -> (k: usize)
    ensures
        k == spec_conversion_place(c),
{
    match c {
        Conversion::Se => 1,
        Conversion::Te => 2,
        Conversion::Ve => 3,
        Conversion::Xe => 4,
    }
}

/// The number of places of selbri `id`.
pub fn get_selbri_arity(selbris: &Vec<Selbri>, id: u32) -> (n: usize)
    ensures
        n == spec_selbri_arity(selbris@, id as int),
        1 <= n <= 5,
    decreases id,
{
    proof {
        lemma_arity_range(selbris@, id as int);
    }
    if id as usize >= selbris.len() {
        return 2;
    }
    match &selbris[id as usize] {
        Selbri::Root(name) => get_arity_or_default(name.as_str()),
        Selbri::Tanru(_, h) => if *h < id {
            get_selbri_arity(selbris, *h)
        } else {
            2
        },
        Selbri::Converted(c, i) => if *i < id {
            let a = get_selbri_arity(selbris, *i);
            let k = conversion_place(*c) + 1;
            if a < k {
                k
            } else {
                a
            }
        } else {
            2
        },
        Selbri::Negated(i) => if *i < id {
            get_selbri_arity(selbris, *i)
        } else {
            2
        },
        Selbri::Abstraction(_) => 1,
    }
}

/// The predicate word at the head of a selbri: the head of a tanru, the word under a
/// conversion or negation, `nu` for an abstraction.
pub open spec fn spec_head_name(selbris: Seq<Selbri>, id: int) -> Seq<char>
    decreases id,
{
    if 0 <= id < selbris.len() {
        match selbris[id] {
            Selbri::Root(name) => name@,
            Selbri::Tanru(_, h) => if 0 <= h < id {
                spec_head_name(selbris, h as int)
            } else {
                Seq::empty()
            },
            Selbri::Converted(_, i) => if 0 <= i < id {
                spec_head_name(selbris, i as int)
            } else {
                Seq::empty()
            },
            Selbri::Negated(i) => if 0 <= i < id {
                spec_head_name(selbris, i as int)
            } else {
                Seq::empty()
            },
            Selbri::Abstraction(_) => "nu"@,
        }
    } else {
        Seq::empty()
    }
}

/// The predicate word at the head of selbri `id`.
pub fn get_selbri_head_name(selbris: &Vec<Selbri>, id: u32) -> (s: String)
    ensures
        s@ == spec_head_name(selbris@, id as int),
    decreases id,
{
    if id as usize >= selbris.len() {
        return String::new();
    }
    match &selbris[id as usize] {
        Selbri::Root(name) => name.clone(),
        Selbri::Tanru(_, h) => if *h < id {
            get_selbri_head_name(selbris, *h)
        } else {
            String::new()
        },
        Selbri::Converted(_, i) => if *i < id {
            get_selbri_head_name(selbris, *i)
        } else {
            String::new()
        },
        Selbri::Negated(i) => if *i < id {
            get_selbri_head_name(selbris, *i)
        } else {
            String::new()
        },
        Selbri::Abstraction(_) => "nu".to_owned(),
    }
}

/// `n` empty place slots.
fn empty_slots(n: usize) -> (v: Vec<Option<Term>>)
    ensures
        v@.len() == n,
        forall|i: int| 0 <= i < n ==> v@[i] is None,
{
    let mut v: Vec<Option<Term>> = Vec::new();
    let mut i: usize = 0;
    while i < n
        invariant
            i <= n,
            v@.len() == i,
            forall|j: int| 0 <= j < i ==> v@[j] is None,
        decreases n - i,
    {
        v.push(None);
        i = i + 1;
    }
    v
}

/// The argument list of filled slots, an unfilled slot giving `Unspecified`.
fn slots_to_args(slots: &Vec<Option<Term>>) -> (args: Vec<Term>)
    ensures
        args@.len() == slots@.len(),
        forall|i: int|
            0 <= i < slots@.len() ==> #[trigger] args@[i] == match slots@[i] {
                Some(t) => t,
                None => Term::Unspecified,
            },
{
    let mut args: Vec<Term> = Vec::new();
    let mut i: usize = 0;
    while i < slots.len()
        invariant
            i <= slots@.len(),
            args@.len() == i,
            forall|j: int|
                0 <= j < i ==> #[trigger] args@[j] == match slots@[j] {
                    Some(t) => t,
                    None => Term::Unspecified,
                },
        decreases slots@.len() - i,
    {
        let t = match slots[i] {
            Some(t) => t,
            None => Term::Unspecified,
        };
        args.push(t);
        i = i + 1;
    }
    args
}

/// Combine two formulas with a logical connective.
pub open spec fn spec_join(c: Connective, l: LogicalForm, r: LogicalForm) -> LogicalForm {
    match c {
        Connective::Je => LogicalForm::And(Box::new(l), Box::new(r)),
        Connective::Ja => LogicalForm::Or(Box::new(l), Box::new(r)),
        Connective::Jo => LogicalForm::Biconditional(Box::new(l), Box::new(r)),
        Connective::Ju => LogicalForm::Xor(Box::new(l), Box::new(r)),
    }
}

/// Combine two formulas with a logical connective: `je` and, `ja` or, `jo` if and only
/// if, `ju` exclusive or.
pub fn join(c: Connective, l: LogicalForm, r: LogicalForm) -> (f: LogicalForm)
    ensures
        f == spec_join(c, l, r),
{
    match c {
        Connective::Je => LogicalForm::And(Box::new(l), Box::new(r)),
        Connective::Ja => LogicalForm::Or(Box::new(l), Box::new(r)),
        Connective::Jo => LogicalForm::Biconditional(Box::new(l), Box::new(r)),
        Connective::Ju => LogicalForm::Xor(Box::new(l), Box::new(r)),
    }
}

/// Close a description's quantifier around `body`: `∃v.(R(v) ∧ body)`,
/// `∀v.(¬R(v) ∨ body)`, or exactly `n` values `v` with `R(v) ∧ body`.
pub open spec fn spec_close_quantifier(e: QuantifierEntry, body: LogicalForm) -> LogicalForm {
    match e.kind {
        QuantKind::Existential => LogicalForm::Exists(
            e.var,
            Box::new(LogicalForm::And(Box::new(e.restrictor), Box::new(body))),
        ),
        QuantKind::Universal => LogicalForm::ForAll(
            e.var,
            Box::new(
                LogicalForm::Or(
                    Box::new(LogicalForm::Not(Box::new(e.restrictor))),
                    Box::new(body),
                ),
            ),
        ),
        QuantKind::Count(n) => LogicalForm::Count {
            var: e.var,
            count: n,
            body: Box::new(LogicalForm::And(Box::new(e.restrictor), Box::new(body))),
        },
    }
}

/// Close a description's quantifier around `body`.
pub fn close_quantifier(e: QuantifierEntry, body: LogicalForm) -> (f: LogicalForm)
    ensures
        f == spec_close_quantifier(e, body),
{
    match e.kind {
        QuantKind::Existential => LogicalForm::Exists(
            e.var,
            Box::new(LogicalForm::And(Box::new(e.restrictor), Box::new(body))),
        ),
        QuantKind::Universal => LogicalForm::ForAll(
            e.var,
            Box::new(
                LogicalForm::Or(
                    Box::new(LogicalForm::Not(Box::new(e.restrictor))),
                    Box::new(body),
                ),
            ),
        ),
        QuantKind::Count(n) => LogicalForm::Count {
            var: e.var,
            count: n,
            body: Box::new(LogicalForm::And(Box::new(e.restrictor), Box::new(body))),
        },
    }
}

/// Close the scopes recorded in surface order around `body`, the first-introduced one
/// outermost.
pub open spec fn spec_fold_markers(markers: Seq<ScopeMarker>, body: LogicalForm) -> LogicalForm
    decreases markers.len(),
{
    if markers.len() == 0 {
        body
    } else {
        let inner = spec_fold_markers(markers.drop_first(), body);
        match markers[0] {
            ScopeMarker::Desc(e) => spec_close_quantifier(e, inner),
            ScopeMarker::Bare(v) => LogicalForm::Exists(v, Box::new(inner)),
        }
    }
}

/// Close the scopes recorded in surface order around `body`, the first-introduced one
/// outermost.
pub fn fold_markers(markers: Vec<ScopeMarker>, body: LogicalForm) -> (f: LogicalForm)
    ensures
        f == spec_fold_markers(markers@, body),
{
    let mut markers = markers;
    let ghost all = markers@;
    let mut form = body;
    while markers.len() > 0
        invariant
            all.len() >= markers@.len(),
            markers@ == all.subrange(0, markers@.len() as int),
            spec_fold_markers(all, body) == spec_fold_markers(markers@, form),
        decreases markers@.len(),
    {
        let ghost before = markers@;
        let m = markers.pop().unwrap();
        proof {
            lemma_fold_last(before, form);
        }
        form = match m {
            ScopeMarker::Desc(e) => close_quantifier(e, form),
            ScopeMarker::Bare(v) => LogicalForm::Exists(v, Box::new(form)),
        };
    }
    form
}

/// Folding a list closes its last marker innermost.
proof fn lemma_fold_last(markers: Seq<ScopeMarker>, body: LogicalForm)
    requires
        markers.len() > 0,
    ensures
        spec_fold_markers(markers, body) == spec_fold_markers(
            markers.drop_last(),
            match markers.last() {
                ScopeMarker::Desc(e) => spec_close_quantifier(e, body),
                ScopeMarker::Bare(v) => LogicalForm::Exists(v, Box::new(body)),
            },
        ),
    decreases markers.len(),
{
    let inner = match markers.last() {
        ScopeMarker::Desc(e) => spec_close_quantifier(e, body),
        ScopeMarker::Bare(v) => LogicalForm::Exists(v, Box::new(body)),
    };
    if markers.len() > 1 {
        lemma_fold_last(markers.drop_first(), body);
        assert(markers.drop_first().drop_last() =~= markers.drop_last().drop_first());
        assert(markers.drop_first().last() == markers.last());
        assert(markers.drop_last()[0] == markers[0]);
        assert(spec_fold_markers(markers.drop_last(), inner) == match markers[0] {
            ScopeMarker::Desc(e) => spec_close_quantifier(e, spec_fold_markers(markers.drop_last().drop_first(), inner)),
            ScopeMarker::Bare(v) => LogicalForm::Exists(v, Box::new(spec_fold_markers(markers.drop_last().drop_first(), inner))),
        });
    } else {
        assert(markers.drop_first().len() == 0);
        assert(spec_fold_markers(markers.drop_first(), body) == body);
        assert(markers.drop_last().len() == 0);
        assert(spec_fold_markers(markers.drop_last(), inner) == inner);
    }
}

/// The decimal digit of `d`.
pub open spec fn spec_digit_char(d: nat) -> char {
    if d == 0 {
        '0'
    } else if d == 1 {
        '1'
    } else if d == 2 {
        '2'
    } else if d == 3 {
        '3'
    } else if d == 4 {
        '4'
    } else if d == 5 {
        '5'
    } else if d == 6 {
        '6'
    } else if d == 7 {
        '7'
    } else if d == 8 {
        '8'
    } else {
        '9'
    }
}

/// The decimal spelling of `n`, most significant digit first.
pub open spec fn spec_decimal(n: nat) -> Seq<char>
    decreases n,
{
    if n < 10 {
        seq![spec_digit_char(n)]
    } else {
        spec_decimal(n / 10).push(spec_digit_char(n % 10))
    }
}

/// The name of the compiler's `n`-th variable: `_v` and `n` in decimal.
pub open spec fn spec_var_name(n: nat) -> Seq<char> {
    seq!['_', 'v'] + spec_decimal(n)
}

/// The name of the compiler's `n`-th variable.
fn var_name(n: u32) -> (s: String)
    ensures
        s@ == spec_var_name(n as nat),
{
    let mut digits: Vec<char> = Vec::new();
    let mut m = n;
    loop
        invariant_except_break
            spec_decimal(n as nat) == spec_decimal(m as nat) + digits@.reverse(),
        ensures
            spec_decimal(n as nat) == digits@.reverse(),
        decreases m,
    {
        let d = m % 10;
        let c = if d == 0 {
            '0'
        } else if d == 1 {
            '1'
        } else if d == 2 {
            '2'
        } else if d == 3 {
            '3'
        } else if d == 4 {
            '4'
        } else if d == 5 {
            '5'
        } else if d == 6 {
            '6'
        } else if d == 7 {
            '7'
        } else if d == 8 {
            '8'
        } else {
            '9'
        };
        assert(c == spec_digit_char(d as nat));
        let ghost before = digits@;
        digits.push(c);
        assert(digits@.reverse() =~= seq![c] + before.reverse());
        let m0 = m;
        m = m / 10;
        if m == 0 {
            assert(spec_decimal(m0 as nat) == seq![c]);
            break ;
        }
        assert(spec_decimal(m0 as nat) == spec_decimal(m as nat).push(c));
        assert(spec_decimal(m as nat).push(c) + before.reverse() =~= spec_decimal(m as nat) + (seq![c] + before.reverse()));
    }
    let mut chars: Vec<char> = Vec::new();
    chars.push('_');
    chars.push('v');
    let mut i = digits.len();
    while i > 0
        invariant
            i <= digits@.len(),
            chars@ == seq!['_', 'v'] + digits@.subrange(i as int, digits@.len() as int).reverse(),
        decreases i,
    {
        i = i - 1;
        let ghost before = chars@;
        chars.push(digits[i]);
        assert(digits@.subrange(i as int, digits@.len() as int).reverse() =~= digits@.subrange(
            i + 1,
            digits@.len() as int,
        ).reverse().push(digits@[i as int]));
    }
    assert(digits@.subrange(0, digits@.len() as int) =~= digits@);
    string_of(&chars)
}

/// The name of the role predicate for place `k` (0-based) of word `name`:
/// `name_x1`..`name_x5`.
pub open spec fn spec_role_name(name: Seq<char>, k: int) -> Seq<char> {
    name + if k == 0 {
        "_x1"@
    } else if k == 1 {
        "_x2"@
    } else if k == 2 {
        "_x3"@
    } else if k == 3 {
        "_x4"@
    } else {
        "_x5"@
    }
}

/// The name of the role predicate for place `place` (0-based) of `name`: `name_x1`..
fn role_name(name: &str, place: usize) -> (s: String)
    ensures
        s@ == spec_role_name(name@, place as int),
{
    let mut s = name.to_owned();
    let suffix = if place == 0 {
        "_x1"
    } else if place == 1 {
        "_x2"
    } else if place == 2 {
        "_x3"
    } else if place == 3 {
        "_x4"
    } else {
        "_x5"
    };
    s.append(suffix);
    s
}

/// The name of a logic variable (`da`, `de`, `di`).
pub open spec fn is_logic_var_name(s: Seq<char>) -> bool {
    s == "da"@ || s == "de"@ || s == "di"@
}

/// `k` occurs as a variable argument of a predicate of `f`, not under a binder of `k`.
pub open spec fn occurs_free(f: LogicalForm, k: u32) -> bool
    decreases f,
{
    match f {
        LogicalForm::Predicate { relation, args } => exists|i: int|
            0 <= i < args@.len() && #[trigger] args@[i] == Term::Variable(k),
        LogicalForm::And(a, b) => occurs_free(*a, k) || occurs_free(*b, k),
        LogicalForm::Or(a, b) => occurs_free(*a, k) || occurs_free(*b, k),
        LogicalForm::Biconditional(a, b) => occurs_free(*a, k) || occurs_free(*b, k),
        LogicalForm::Xor(a, b) => occurs_free(*a, k) || occurs_free(*b, k),
        LogicalForm::Not(a) => occurs_free(*a, k),
        LogicalForm::Exists(v, a) => v != k && occurs_free(*a, k),
        LogicalForm::ForAll(v, a) => v != k && occurs_free(*a, k),
        LogicalForm::Count { var, body, .. } => var != k && occurs_free(*body, k),
        LogicalForm::Past(a) => occurs_free(*a, k),
        LogicalForm::Present(a) => occurs_free(*a, k),
        LogicalForm::Future(a) => occurs_free(*a, k),
        LogicalForm::Obligatory(a) => occurs_free(*a, k),
        LogicalForm::Permitted(a) => occurs_free(*a, k),
    }
}

/// The variables to close existentially: those free in `f`, outside `bound`, not
/// prenex-bound, and named `da`, `de` or `di`.
pub open spec fn collectable(
    names: Seq<Seq<char>>,
    prenex: Seq<u32>,
    bound: Seq<u32>,
    f: LogicalForm,
    k: u32,
) -> bool {
    &&& occurs_free(f, k)
    &&& !bound.contains(k)
    &&& !prenex.contains(k)
    &&& k < names.len()
    &&& is_logic_var_name(names[k as int])
}

/// The connected sumti a term slot holds, directly or under one place tag or BAI
/// modal: the wrapper and the connected node's id.
pub open spec fn connected_at(sumtis: Seq<Sumti>, id: int) -> Option<(ConnWrapper, u32)> {
    if 0 <= id < sumtis.len() {
        match sumtis[id] {
            Sumti::Connected(..) => Some((ConnWrapper::Bare, id as u32)),
            Sumti::Tagged(tag, inner) => if 0 <= inner < sumtis.len() && sumtis[inner as int] is Connected {
                Some((ConnWrapper::Place(tag), inner))
            } else {
                None
            },
            Sumti::ModalTagged(m, inner) => if 0 <= inner < sumtis.len() && sumtis[inner as int] is Connected {
                Some((ConnWrapper::Modal(m), inner))
            } else {
                None
            },
            _ => None,
        }
    } else {
        None
    }
}

/// The split that distributes the connected sumti at position `pos` of `terms`.
pub open spec fn split_of(sumtis: Seq<Sumti>, terms: Seq<u32>, pos: int, s: ConnectedSplit) -> bool {
    &&& s.term_pos == pos
    &&& connected_at(sumtis, terms[pos] as int) matches Some((w, c))
    &&& s.wrapper == w
    &&& sumtis[c as int] matches Sumti::Connected(l, conn, nai, r)
    &&& s.left_id == l && s.connective == conn && s.right_negated == nai && s.right_id == r
}

/// The first term (in order) that is, or wraps one level down, a connected sumti.
pub fn find_connected_term(all_terms: &Vec<u32>, sumtis: &Vec<Sumti>) -> (r: Option<ConnectedSplit>)
    ensures
        match r {
            Some(s) => {
                &&& s.term_pos < all_terms@.len()
                &&& split_of(sumtis@, all_terms@, s.term_pos as int, s)
                &&& forall|k: int| 0 <= k < s.term_pos ==> #[trigger] connected_at(sumtis@, all_terms@[k] as int) is None
            },
            None => forall|k: int|
                0 <= k < all_terms@.len() ==> #[trigger] connected_at(sumtis@, all_terms@[k] as int) is None,
        },
{
    let mut pos: usize = 0;
    while pos < all_terms.len()
        invariant
            pos <= all_terms@.len(),
            forall|k: int| 0 <= k < pos ==> #[trigger] connected_at(sumtis@, all_terms@[k] as int) is None,
        decreases all_terms@.len() - pos,
    {
        let id = all_terms[pos];
        if (id as usize) < sumtis.len() {
            let (wrapper, inner) = match &sumtis[id as usize] {
                Sumti::Connected(..) => (Some(ConnWrapper::Bare), id),
                Sumti::Tagged(tag, inner) => (Some(ConnWrapper::Place(*tag)), *inner),
                Sumti::ModalTagged(m, inner) => (Some(ConnWrapper::Modal(*m)), *inner),
                _ => (None, id),
            };
            match wrapper {
                Some(w) => {
                    if (inner as usize) < sumtis.len() {
                        match &sumtis[inner as usize] {
                            Sumti::Connected(l, conn, nai, r) => {
                                return Some(
                                    ConnectedSplit {
                                        term_pos: pos,
                                        wrapper: w,
                                        connective: *conn,
                                        right_negated: *nai,
                                        left_id: *l,
                                        right_id: *r,
                                    },
                                );
                            },
                            _ => {},
                        }
                    }
                },
                None => {},
            }
        }
        pos = pos + 1;
    }
    None
}

/// `terms` with the entry at `pos` replaced by `id`.
fn with_term(terms: &Vec<u32>, pos: usize, id: u32) -> (r: Vec<u32>)
    requires
        pos < terms@.len(),
    ensures
        r@ == terms@.update(pos as int, id),
{
    let mut r = copy_ids(terms);
    r.set(pos, id);
    r
}

/// The concatenation of two id lists.
fn concat_ids(a: &Vec<u32>, b: &Vec<u32>) -> (r: Vec<u32>)
    ensures
        r@ == a@ + b@,
{
    let mut r = copy_ids(a);
    let mut i: usize = 0;
    while i < b.len()
        invariant
            i <= b@.len(),
            r@ == a@ + b@.subrange(0, i as int),
        decreases b@.len() - i,
    {
        r.push(b[i]);
        i = i + 1;
    }
    assert(b@.subrange(0, b@.len() as int) =~= b@);
    r
}

/// True when `v` holds `k`.
fn contains_id(v: &Vec<u32>, k: u32) -> (r: bool)
    ensures
        r == v@.contains(k),
{
    let mut i: usize = 0;
    while i < v.len()
        invariant
            i <= v@.len(),
            forall|j: int| 0 <= j < i ==> v@[j] != k,
        decreases v@.len() - i,
    {
        if v[i] == k {
            return true;
        }
        i = i + 1;
    }
    false
}

/// A copy of a bridi.
fn copy_bridi(b: &Bridi) -> (r: Bridi)
    ensures
        r.relation == b.relation,
        r.head_terms@ == b.head_terms@,
        r.tail_terms@ == b.tail_terms@,
        r.negated == b.negated,
        r.tense == b.tense,
        r.attitudinal == b.attitudinal,
{
    Bridi {
        relation: b.relation,
        head_terms: copy_ids(&b.head_terms),
        tail_terms: copy_ids(&b.tail_terms),
        negated: b.negated,
        tense: b.tense,
        attitudinal: b.attitudinal,
    }
}

/// Wrap a formula in the operator of a tense.
pub open spec fn spec_tensed(t: Option<Tense>, f: LogicalForm) -> LogicalForm {
    match t {
        Some(Tense::Pu) => LogicalForm::Past(Box::new(f)),
        Some(Tense::Ca) => LogicalForm::Present(Box::new(f)),
        Some(Tense::Ba) => LogicalForm::Future(Box::new(f)),
        None => f,
    }
}

/// Wrap a formula in the operator of an attitudinal.
pub open spec fn spec_attituded(a: Option<Attitudinal>, f: LogicalForm) -> LogicalForm {
    match a {
        Some(Attitudinal::Ei) => LogicalForm::Obligatory(Box::new(f)),
        Some(Attitudinal::Ehe) => LogicalForm::Permitted(Box::new(f)),
        None => f,
    }
}

/// Wrap a predication's matrix: `na` innermost, then the tense, then the attitudinal.
pub open spec fn spec_wrapped(
    negated: bool,
    t: Option<Tense>,
    a: Option<Attitudinal>,
    f: LogicalForm,
) -> LogicalForm {
    spec_attituded(
        a,
        spec_tensed(
            t,
            if negated {
                LogicalForm::Not(Box::new(f))
            } else {
                f
            },
        ),
    )
}

/// Wrap a predication's matrix: `na` innermost, then the tense, then the attitudinal.
pub fn wrap_bridi(negated: bool, t: Option<Tense>, a: Option<Attitudinal>, f: LogicalForm) -> (r:
    LogicalForm)
    ensures
        r == spec_wrapped(negated, t, a, f),
{
    let mut form = f;
    if negated {
        form = LogicalForm::Not(Box::new(form));
    }
    form = match t {
        Some(Tense::Pu) => LogicalForm::Past(Box::new(form)),
        Some(Tense::Ca) => LogicalForm::Present(Box::new(form)),
        Some(Tense::Ba) => LogicalForm::Future(Box::new(form)),
        None => form,
    };
    match a {
        Some(Attitudinal::Ei) => LogicalForm::Obligatory(Box::new(form)),
        Some(Attitudinal::Ehe) => LogicalForm::Permitted(Box::new(form)),
        None => form,
    }
}

/// The sentence connective's formula over the two compiled sides.
pub open spec fn spec_sentence_join(c: SentenceConnective, l: LogicalForm, r: LogicalForm) -> LogicalForm {
    match c {
        SentenceConnective::GanaiGi => LogicalForm::Or(
            Box::new(LogicalForm::Not(Box::new(l))),
            Box::new(r),
        ),
        SentenceConnective::GeGi => LogicalForm::And(Box::new(l), Box::new(r)),
        SentenceConnective::GaGi => LogicalForm::Or(Box::new(l), Box::new(r)),
        SentenceConnective::GoGi => LogicalForm::Biconditional(Box::new(l), Box::new(r)),
        SentenceConnective::Afterthought { left_negated, connective, right_negated } => spec_join(
            connective,
            if left_negated {
                LogicalForm::Not(Box::new(l))
            } else {
                l
            },
            if right_negated {
                LogicalForm::Not(Box::new(r))
            } else {
                r
            },
        ),
    }
}

/// The sentence connective's formula over the two compiled sides: `ganai a gi b` is
/// `¬a ∨ b`, `ge` and, `ga` or, `go` if and only if; an afterthought connective negates
/// the sides its `nai` marks, then joins them.
pub fn sentence_join(c: SentenceConnective, l: LogicalForm, r: LogicalForm) -> (f: LogicalForm)
    ensures
        f == spec_sentence_join(c, l, r),
{
    match c {
        SentenceConnective::GanaiGi => LogicalForm::Or(
            Box::new(LogicalForm::Not(Box::new(l))),
            Box::new(r),
        ),
        SentenceConnective::GeGi => LogicalForm::And(Box::new(l), Box::new(r)),
        SentenceConnective::GaGi => LogicalForm::Or(Box::new(l), Box::new(r)),
        SentenceConnective::GoGi => LogicalForm::Biconditional(Box::new(l), Box::new(r)),
        SentenceConnective::Afterthought { left_negated, connective, right_negated } => {
            let l2 = if left_negated {
                LogicalForm::Not(Box::new(l))
            } else {
                l
            };
            let r2 = if right_negated {
                LogicalForm::Not(Box::new(r))
            } else {
                r
            };
            join(connective, l2, r2)
        },
    }
}

/// Wrap `f` in universal quantifiers over `vars`, the first outermost.
pub open spec fn spec_forall_all(vars: Seq<u32>, f: LogicalForm) -> LogicalForm
    decreases vars.len(),
{
    if vars.len() == 0 {
        f
    } else {
        LogicalForm::ForAll(vars[0], Box::new(spec_forall_all(vars.drop_first(), f)))
    }
}

/// Wrapping the last variable first builds the same nesting.
proof fn lemma_forall_last(vars: Seq<u32>, f: LogicalForm)
    requires
        vars.len() > 0,
    ensures
        spec_forall_all(vars, f) == spec_forall_all(
            vars.drop_last(),
            LogicalForm::ForAll(vars.last(), Box::new(f)),
        ),
    decreases vars.len(),
{
    let inner = LogicalForm::ForAll(vars.last(), Box::new(f));
    if vars.len() > 1 {
        lemma_forall_last(vars.drop_first(), f);
        assert(vars.drop_first().drop_last() =~= vars.drop_last().drop_first());
        assert(vars.drop_first().last() == vars.last());
        assert(vars.drop_last()[0] == vars[0]);
    } else {
        assert(vars.drop_first().len() == 0);
        assert(spec_forall_all(vars.drop_first(), f) == f);
        assert(vars.drop_last().len() == 0);
        assert(spec_forall_all(vars.drop_last(), inner) == inner);
    }
}

/// Wrap `f` in universal quantifiers over `vars`, the first outermost.
pub fn forall_all(vars: &Vec<u32>, f: LogicalForm) -> (r: LogicalForm)
    ensures
        r == spec_forall_all(vars@, f),
{
    let mut form = f;
    let mut i = vars.len();
    assert(vars@.subrange(0, i as int) =~= vars@);
    while i > 0
        invariant
            i <= vars@.len(),
            spec_forall_all(vars@, f) == spec_forall_all(vars@.subrange(0, i as int), form),
        decreases i,
    {
        proof {
            lemma_forall_last(vars@.subrange(0, i as int), form);
            assert(vars@.subrange(0, i as int).drop_last() =~= vars@.subrange(0, i - 1));
        }
        i = i - 1;
        form = LogicalForm::ForAll(vars[i], Box::new(form));
    }
    assert(vars@.subrange(0, 0) =~= Seq::<u32>::empty());
    form
}

impl SemanticCompiler {
    /// A compiler with an empty interner, no errors and a step budget no input can spend.
    pub fn new() -> (c: SemanticCompiler)
        ensures
            c.errors@.len() == 0,
            c.prenex_vars@.len() == 0,
            c.pending_matrix_conjuncts@.len() == 0,
            c.pending_clause_subject is None,
            c.kea is None,
            interned(c.interner).len() == 0,
            c.budget == usize::MAX,
    {
        SemanticCompiler {
            interner: rodeo_new(),
            errors: Vec::new(),
            prenex_vars: Vec::new(),
            pending_matrix_conjuncts: Vec::new(),
            pending_clause_subject: None,
            kea_used: false,
            kea: None,
            next_var: 0,
            budget: usize::MAX,
        }
    }

    /// Record an error.
    fn fail(&mut self, msg: String)
        ensures
            final(self).errors@ == old(self).errors@.push(msg),
            final(self).budget == old(self).budget,
            final(self).prenex_vars == old(self).prenex_vars,
            final(self).pending_matrix_conjuncts == old(self).pending_matrix_conjuncts,
            final(self).pending_clause_subject == old(self).pending_clause_subject,
            final(self).kea == old(self).kea,
            final(self).kea_used == old(self).kea_used,
            final(self).interner == old(self).interner,
            final(self).next_var == old(self).next_var,
    {
        self.errors.push(msg);
    }

    /// Spend one step of the budget; `false`, with an error recorded, once it is spent.
    fn step(&mut self) -> (ok: bool)
        ensures
            kept(*old(self), *final(self)),
            ok ==> final(self).budget < old(self).budget,
            ok ==> final(self).errors@ == old(self).errors@,
            !ok ==> final(self).errors@.len() > old(self).errors@.len(),
            ok <==> old(self).budget > 0,
            !ok ==> error_pushed(old(self).errors@, final(self).errors@, spec_budget_message()),
            final(self).pending_matrix_conjuncts == old(self).pending_matrix_conjuncts,
            final(self).pending_clause_subject == old(self).pending_clause_subject,
            final(self).kea == old(self).kea,
            final(self).kea_used == old(self).kea_used,
            final(self).interner == old(self).interner,
    {
        if self.budget == 0 {
            let ghost n = self.errors@.len();
            self.fail("the sentence is too large to compile".to_owned());
            assert(self.errors@[n as int]@ == spec_budget_message());
            return false;
        }
        self.budget = self.budget - 1;
        true
    }

    /// The key of a name, interning it if it is new. When the interner cannot take it,
    /// an error is recorded.
    fn intern(&mut self, name: &str) -> (k: u32)
        ensures
            kept(*old(self), *final(self)),
            final(self).pending_matrix_conjuncts == old(self).pending_matrix_conjuncts,
            final(self).pending_clause_subject == old(self).pending_clause_subject,
            final(self).kea == old(self).kea,
            final(self).kea_used == old(self).kea_used,
            final(self).next_var == old(self).next_var,
            final(self).errors@.len() == old(self).errors@.len() ==> k < interned(final(self).interner).len()
                && interned(final(self).interner)[k as int] == name@,
    {
        let ghost before = interned(self.interner);
        let r = rodeo_intern(&mut self.interner, name);
        assert(prefix_of(before, interned(self.interner)));
        match r {
            Some(k) => k,
            None => {
                self.fail("too many distinct names to intern".to_owned());
                0
            },
        }
    }

    /// The key of the next compiler variable, `_v<n>` for the counter `n`, which then
    /// moves on.
    fn fresh_var(&mut self) -> (k: u32)
        ensures
            kept(*old(self), *final(self)),
            final(self).pending_matrix_conjuncts == old(self).pending_matrix_conjuncts,
            final(self).pending_clause_subject == old(self).pending_clause_subject,
            final(self).kea == old(self).kea,
            final(self).kea_used == old(self).kea_used,
            final(self).errors@.len() == old(self).errors@.len() ==> {
                &&& final(self).next_var == old(self).next_var + 1
                &&& k < interned(final(self).interner).len()
                &&& interned(final(self).interner)[k as int] == spec_var_name(old(self).next_var as nat)
            },
    {
        let name = var_name(self.next_var);
        if self.next_var < u32::MAX {
            self.next_var = self.next_var + 1;
        } else {
            self.fail("too many variables".to_owned());
        }
        self.intern(name.as_str())
    }

    /// True when key `k` names a logic variable (`da`, `de`, `di`).
    fn is_logic_var_key(&self, k: u32) -> (r: bool)
        ensures
            r == (k < interned(self.interner).len() && is_logic_var_name(
                interned(self.interner)[k as int],
            )),
    {
        if (k as usize) < rodeo_len(&self.interner) {
            let name = rodeo_resolve(&self.interner, k);
            str_equal(name.as_str(), "da") || str_equal(name.as_str(), "de") || str_equal(
                name.as_str(),
                "di",
            )
        } else {
            false
        }
    }

    /// Record a surface-ordered `Bare` scope marker when `term` is a logic variable seen
    /// for the first time in this frame and not bound by a prenex.
    fn record_bare_marker(&self, term: Term, introduced: &mut Vec<u32>, markers: &mut Vec<ScopeMarker>)
        ensures
            match term {
                Term::Variable(k) => if k < interned(self.interner).len() && is_logic_var_name(
                    interned(self.interner)[k as int],
                ) && !self.prenex_vars@.contains(k) && !old(introduced)@.contains(k) {
                    &&& final(introduced)@ == old(introduced)@.push(k)
                    &&& final(markers)@ == old(markers)@.push(ScopeMarker::Bare(k))
                } else {
                    &&& final(introduced)@ == old(introduced)@
                    &&& final(markers)@ == old(markers)@
                },
                _ => {
                    &&& final(introduced)@ == old(introduced)@
                    &&& final(markers)@ == old(markers)@
                },
            },
            prefix_of(old(markers)@, final(markers)@),
            clear_markers(added(old(markers)@, final(markers)@), self.prenex_vars@),
            forall|i: int|
                0 <= i < added(old(markers)@, final(markers)@).len() ==> #[trigger] added(
                    old(markers)@,
                    final(markers)@,
                )[i] is Bare,
            intro_marked(old(introduced)@, old(markers)@) ==> intro_marked(final(introduced)@, final(markers)@),
            term matches Term::Variable(k) ==> (k < interned(self.interner).len() && is_logic_var_name(
                interned(self.interner)[k as int],
            ) && intro_marked(old(introduced)@, old(markers)@) ==> self.prenex_vars@.contains(k) || marker_vars(
                final(markers)@,
            ).contains(k)),
    {
        let ghost m0 = markers@;
        let ghost i0 = introduced@;
        if let Term::Variable(k) = term {
            if self.is_logic_var_key(k) && !contains_id(&self.prenex_vars, k) && !contains_id(
                introduced,
                k,
            ) {
                introduced.push(k);
                markers.push(ScopeMarker::Bare(k));
                proof {
                    assert(added(m0, markers@) =~= seq![ScopeMarker::Bare(k)]);
                    assert(marker_var(markers@[m0.len() as int]) == k);
                    lemma_marker_vars_prefix(m0, markers@);
                    if intro_marked(i0, m0) {
                        assert forall|v: u32| #[trigger] introduced@.contains(v) implies marker_vars(markers@).contains(v) by {
                            if v != k {
                                let w = choose|w: int| 0 <= w < introduced@.len() && introduced@[w] == v;
                                assert(i0[w] == v);
                                assert(i0.contains(v));
                            }
                        }
                    }
                }
            }
        }
        assert(added(m0, markers@).len() == markers@.len() - m0.len());
    }

    /// Append to `out` the variables of `form` to close existentially (see
    /// [`collectable`]) that `out` does not hold yet, in order of first appearance.
    pub fn collect_free_logic_vars(&self, form: &LogicalForm, bound: &Vec<u32>, out: &mut Vec<u32>)
        requires
            old(out)@.no_duplicates(),
        ensures
            final(out)@.no_duplicates(),
            prefix_of(old(out)@, final(out)@),
            forall|k: u32|
                #[trigger] final(out)@.contains(k) <==> (old(out)@.contains(k) || collectable(
                    interned(self.interner),
                    self.prenex_vars@,
                    bound@,
                    *form,
                    k,
                )),
        decreases form,
    {
        broadcast use vstd::seq_lib::group_seq_properties;

        match form {
            LogicalForm::Predicate { relation, args } => {
                let mut i: usize = 0;
                while i < args.len()
                    invariant
                        i <= args@.len(),
                        out@.no_duplicates(),
                        prefix_of(old(out)@, out@),
                        forall|k: u32|
                            #[trigger] out@.contains(k) <==> (old(out)@.contains(k) || (exists|j: int|
                                0 <= j < i && args@[j] == Term::Variable(k)) && !bound@.contains(k)
                                && !self.prenex_vars@.contains(k) && k < interned(self.interner).len()
                                && is_logic_var_name(interned(self.interner)[k as int])),
                    decreases args@.len() - i,
                {
                    let ghost prev = out@;
                    let mut added: Option<u32> = None;
                    if let Term::Variable(k) = args[i] {
                        if self.is_logic_var_key(k) && !contains_id(bound, k) && !contains_id(
                            &self.prenex_vars,
                            k,
                        ) && !contains_id(out, k) {
                            out.push(k);
                            added = Some(k);
                        }
                    }
                    proof {
                        assert forall|k: u32| #[trigger] out@.contains(k) <==> (old(out)@.contains(k)
                            || (exists|j: int| 0 <= j < i + 1 && args@[j] == Term::Variable(k))
                            && !bound@.contains(k) && !self.prenex_vars@.contains(k) && k < interned(
                            self.interner,
                        ).len() && is_logic_var_name(interned(self.interner)[k as int])) by {
                            match added {
                                Some(k0) => {
                                    assert(out@ == prev.push(k0));
                                    vstd::seq_lib::lemma_seq_contains_after_push(prev, k0, k);
                                    assert(out@.contains(k) == (prev.contains(k) || k == k0));
                                    assert(args@[i as int] == Term::Variable(k0));
                                },
                                None => {
                                    assert(out@ == prev);
                                },
                            }
                            assert(prev.contains(k) <==> (old(out)@.contains(k) || (exists|j: int|
                                0 <= j < i && args@[j] == Term::Variable(k)) && !bound@.contains(k)
                                && !self.prenex_vars@.contains(k) && k < interned(self.interner).len()
                                && is_logic_var_name(interned(self.interner)[k as int])));
                            if args@[i as int] == Term::Variable(k) {
                                assert(exists|j: int| 0 <= j < i + 1 && args@[j] == Term::Variable(k));
                            }
                            if exists|j: int| 0 <= j < i + 1 && args@[j] == Term::Variable(k) {
                                let j = choose|j: int| 0 <= j < i + 1 && args@[j] == Term::Variable(k);
                                if j < i {
                                    assert(exists|j: int| 0 <= j < i && args@[j] == Term::Variable(k));
                                }
                            }
                            if exists|j: int| 0 <= j < i && args@[j] == Term::Variable(k) {
                                let j = choose|j: int| 0 <= j < i && args@[j] == Term::Variable(k);
                                assert(0 <= j < i + 1 && args@[j] == Term::Variable(k));
                            }
                        }
                    }
                    i = i + 1;
                }
            },
            LogicalForm::And(a, b) | LogicalForm::Or(a, b) | LogicalForm::Biconditional(a, b)
            | LogicalForm::Xor(a, b) => {
                self.collect_free_logic_vars(a, bound, out);
                self.collect_free_logic_vars(b, bound, out);
            },
            LogicalForm::Not(a) | LogicalForm::Past(a) | LogicalForm::Present(a)
            | LogicalForm::Future(a) | LogicalForm::Obligatory(a) | LogicalForm::Permitted(a) => {
                self.collect_free_logic_vars(a, bound, out);
            },
            LogicalForm::Exists(v, a) | LogicalForm::ForAll(v, a) => {
                let mut inner = copy_ids(bound);
                inner.push(*v);
                self.collect_free_logic_vars(a, &inner, out);
            },
            LogicalForm::Count { var, body, .. } => {
                let mut inner = copy_ids(bound);
                inner.push(*var);
                self.collect_free_logic_vars(body, &inner, out);
            },
        }
    }
}

/// Two sumti nodes with the same content.
pub open spec fn same_sumti(a: Sumti, b: Sumti) -> bool {
    match (a, b) {
        (Sumti::ProSumti(x), Sumti::ProSumti(y)) => x == y,
        (Sumti::Name(x), Sumti::Name(y)) => x@ == y@,
        (Sumti::QuotedLiteral(x), Sumti::QuotedLiteral(y)) => x@ == y@,
        (Sumti::Number(x), Sumti::Number(y)) => x == y,
        (
            Sumti::Description { gadri: g1, selbri: s1, quantifier: q1 },
            Sumti::Description { gadri: g2, selbri: s2, quantifier: q2 },
        ) => g1 == g2 && s1 == s2 && q1 == q2,
        (
            Sumti::Restricted { inner: i1, clause: c1, restrictive: r1 },
            Sumti::Restricted { inner: i2, clause: c2, restrictive: r2 },
        ) => i1 == i2 && c1 == c2 && r1 == r2,
        (Sumti::Tagged(t1, i1), Sumti::Tagged(t2, i2)) => t1 == t2 && i1 == i2,
        (Sumti::ModalTagged(m1, i1), Sumti::ModalTagged(m2, i2)) => m1 == m2 && i1 == i2,
        (Sumti::Connected(l1, c1, n1, r1), Sumti::Connected(l2, c2, n2, r2)) => l1 == l2 && c1
            == c2 && n1 == n2 && r1 == r2,
        _ => false,
    }
}

/// The quantifier kind of a description's outer quantifier.
pub open spec fn spec_quant_kind(q: Option<Quantifier>) -> QuantKind {
    match q {
        None => QuantKind::Existential,
        Some(Quantifier::Ro) => QuantKind::Universal,
        Some(Quantifier::Number(n)) => QuantKind::Count(n),
    }
}

/// `t` is the constant spelled `s`.
pub open spec fn is_constant_named(t: Term, names: Seq<Seq<char>>, s: Seq<char>) -> bool {
    match t {
        Term::Constant(k) => k < names.len() && names[k as int] == s,
        _ => false,
    }
}

/// `t` is the variable spelled `s`.
pub open spec fn is_variable_named(t: Term, names: Seq<Seq<char>>, s: Seq<char>) -> bool {
    match t {
        Term::Variable(k) => k < names.len() && names[k as int] == s,
        _ => false,
    }
}

/// The term sumti `id` resolves to: a name, quoted word or pro-sumti the constant of its
/// spelling (a logic variable the variable of its spelling, `ke'a` the term the enclosing
/// relative clause is about), a number itself, a `la` description the constant of its
/// selbri's head word, a `lo`/`le` description a variable, and a sumti with a relative
/// clause the term of the sumti it restricts.
pub open spec fn resolved_term(
    sumtis: Seq<Sumti>,
    id: int,
    kea: Option<Term>,
    selbris: Seq<Selbri>,
    names: Seq<Seq<char>>,
    t: Term,
) -> bool
    decreases id,
{
    if !(0 <= id < sumtis.len()) {
        false
    } else {
        match sumtis[id] {
            Sumti::Name(n) => is_constant_named(t, names, n@),
            Sumti::QuotedLiteral(w) => is_constant_named(t, names, w@),
            Sumti::Number(n) => t == Term::Number(n),
            Sumti::ProSumti(c) => if c == Cmavo::Keha {
                kea == Some(t)
            } else if c == Cmavo::Da || c == Cmavo::De || c == Cmavo::Di {
                is_variable_named(t, names, spec_cmavo_text(c))
            } else {
                is_constant_named(t, names, spec_cmavo_text(c))
            },
            Sumti::Description { gadri, selbri, .. } => if gadri == Gadri::La {
                is_constant_named(t, names, spec_head_name(selbris, selbri as int))
            } else {
                t is Variable
            },
            Sumti::Restricted { inner, .. } => inner < id && resolved_term(
                sumtis,
                inner as int,
                kea,
                selbris,
                names,
                t,
            ),
            _ => false,
        }
    }
}

/// Sumti `id` cannot be resolved where a sumti stands: `ke'a` outside a relative
/// clause, a place tag, modal or connected sumti inside another sumti, or a relative
/// clause on such a sumti.
pub open spec fn unresolvable(sumtis: Seq<Sumti>, id: int, kea: Option<Term>) -> bool
    decreases id,
{
    if !(0 <= id < sumtis.len()) {
        false
    } else {
        match sumtis[id] {
            Sumti::ProSumti(c) => c == Cmavo::Keha && kea is None,
            Sumti::Tagged(..) => true,
            Sumti::ModalTagged(..) => true,
            Sumti::Connected(..) => true,
            Sumti::Restricted { inner, .. } => inner < id && unresolvable(sumtis, inner as int, kea),
            _ => false,
        }
    }
}

/// The quantifiers a sumti node introduces: none for a name, quoted word, number or
/// pro-sumti; for a `lo`/`le` description one, of the description's kind, binding the
/// variable the description resolves to, restricted by the description's selbri over
/// that variable.
pub open spec fn resolved_quants(
    node: Sumti,
    selbris: Seq<Selbri>,
    names: Seq<Seq<char>>,
    t: Term,
    quants: Seq<QuantifierEntry>,
) -> bool {
    match node {
        Sumti::Name(_) | Sumti::QuotedLiteral(_) | Sumti::Number(_) | Sumti::ProSumti(_) => quants.len()
            == 0,
        Sumti::Description { gadri, selbri, quantifier } => if gadri == Gadri::La {
            quants.len() == 0
        } else {
            &&& quants.len() == 1
            &&& t == Term::Variable(quants[0].var)
            &&& quants[0].kind == spec_quant_kind(quantifier)
            &&& applied(names, selbris, selbri as int, seq![t], quants[0].restrictor)
        },
        _ => true,
    }
}

/// The quantifiers a sumti introduces stay as they are as the interner grows.
pub proof fn lemma_resolved_quants_mono(
    node: Sumti,
    selbris: Seq<Selbri>,
    n1: Seq<Seq<char>>,
    n2: Seq<Seq<char>>,
    t: Term,
    quants: Seq<QuantifierEntry>,
)
    requires
        prefix_of(n1, n2),
        resolved_quants(node, selbris, n1, t, quants),
    ensures
        resolved_quants(node, selbris, n2, t, quants),
{
    if let Sumti::Description { gadri, selbri, .. } = node {
        if gadri != Gadri::La {
            lemma_applied_mono(n1, n2, selbris, selbri as int, seq![t], quants[0].restrictor);
        }
    }
}

/// One term's scopes: the quantifiers `q` its target sumti introduces, resolved to `t`,
/// are added to the description markers when the term is not a modal term, and to the
/// modal terms' quantifiers when it is.
pub open spec fn term_scope(
    target: Sumti,
    node: Sumti,
    selbris: Seq<Selbri>,
    names: Seq<Seq<char>>,
    t: Term,
    q: Seq<QuantifierEntry>,
    markers0: Seq<ScopeMarker>,
    markers1: Seq<ScopeMarker>,
    modals0: Seq<(ModalTag, Term, Vec<QuantifierEntry>)>,
    modals1: Seq<(ModalTag, Term, Vec<QuantifierEntry>)>,
) -> bool {
    &&& resolved_quants(target, selbris, names, t, q)
    &&& spec_desc_quants(markers1) == spec_desc_quants(markers0) + if node is ModalTagged {
        Seq::empty()
    } else {
        q
    }
    &&& spec_modal_entry_quants(modals1) == spec_modal_entry_quants(modals0) + if node is ModalTagged {
        q
    } else {
        Seq::empty()
    }
}

/// The description quantifiers among scope markers, in order.
pub open spec fn spec_desc_quants(ms: Seq<ScopeMarker>) -> Seq<QuantifierEntry>
    decreases ms.len(),
{
    if ms.len() == 0 {
        Seq::empty()
    } else {
        let rest = spec_desc_quants(ms.drop_last());
        match ms.last() {
            ScopeMarker::Desc(q) => rest.push(q),
            ScopeMarker::Bare(_) => rest,
        }
    }
}

/// The description quantifiers of concatenated markers are concatenated.
pub proof fn lemma_desc_quants_add(a: Seq<ScopeMarker>, b: Seq<ScopeMarker>)
    ensures
        spec_desc_quants(a + b) == spec_desc_quants(a) + spec_desc_quants(b),
    decreases b.len(),
{
    if b.len() == 0 {
        assert(a + b =~= a);
        assert(spec_desc_quants(b) =~= Seq::<QuantifierEntry>::empty());
        assert(spec_desc_quants(a) + spec_desc_quants(b) =~= spec_desc_quants(a));
    } else {
        lemma_desc_quants_add(a, b.drop_last());
        assert((a + b).drop_last() =~= a + b.drop_last());
        assert((a + b).last() == b.last());
        match b.last() {
            ScopeMarker::Desc(q) => {
                assert(spec_desc_quants(a) + spec_desc_quants(b) =~= (spec_desc_quants(a) + spec_desc_quants(b.drop_last())).push(q));
            },
            ScopeMarker::Bare(_) => {},
        }
    }
}

/// The markers of a description's quantifiers give back those quantifiers.
pub proof fn lemma_desc_quants_descs(qs: Seq<QuantifierEntry>)
    ensures
        spec_desc_quants(spec_descs(qs)) == qs,
    decreases qs.len(),
{
    if qs.len() > 0 {
        lemma_desc_quants_descs(qs.drop_last());
        assert(spec_descs(qs).drop_last() =~= spec_descs(qs.drop_last()));
        assert(qs.drop_last().push(qs.last()) =~= qs);
    } else {
        assert(spec_descs(qs) =~= Seq::<ScopeMarker>::empty());
    }
}

/// The quantifiers of the terms of `terms` that are not modal terms, `qs[k]` for term
/// `k`, in surface order.
pub open spec fn spec_term_quants(
    sumtis: Seq<Sumti>,
    terms: Seq<u32>,
    qs: Seq<Seq<QuantifierEntry>>,
) -> Seq<QuantifierEntry>
    decreases terms.len(),
{
    if terms.len() == 0 || qs.len() != terms.len() {
        Seq::empty()
    } else {
        let rest = spec_term_quants(sumtis, terms.drop_last(), qs.drop_last());
        match sumtis[terms.last() as int] {
            Sumti::ModalTagged(..) => rest,
            _ => rest + qs.last(),
        }
    }
}

/// The quantifiers of the modal terms of `terms`, `qs[k]` for term `k`, in surface order.
pub open spec fn spec_modal_quants(
    sumtis: Seq<Sumti>,
    terms: Seq<u32>,
    qs: Seq<Seq<QuantifierEntry>>,
) -> Seq<QuantifierEntry>
    decreases terms.len(),
{
    if terms.len() == 0 || qs.len() != terms.len() {
        Seq::empty()
    } else {
        let rest = spec_modal_quants(sumtis, terms.drop_last(), qs.drop_last());
        match sumtis[terms.last() as int] {
            Sumti::ModalTagged(..) => rest + qs.last(),
            _ => rest,
        }
    }
}

/// The quantifiers of a list of modal terms, in order.
pub open spec fn spec_modal_entry_quants(ms: Seq<(ModalTag, Term, Vec<QuantifierEntry>)>) -> Seq<QuantifierEntry>
    decreases ms.len(),
{
    if ms.len() == 0 {
        Seq::empty()
    } else {
        spec_modal_entry_quants(ms.drop_last()) + ms.last().2@
    }
}

/// Collecting the quantifiers of terms that exist in a prefix of the sumti buffer reads
/// only that prefix.
pub proof fn lemma_term_quants_prefix(u1: Seq<Sumti>, u2: Seq<Sumti>, terms: Seq<u32>, qs: Seq<Seq<QuantifierEntry>>)
    requires
        prefix_of(u1, u2),
        terms_wf(terms, u1.len()),
    ensures
        spec_term_quants(u1, terms, qs) == spec_term_quants(u2, terms, qs),
        spec_modal_quants(u1, terms, qs) == spec_modal_quants(u2, terms, qs),
    decreases terms.len(),
{
    if terms.len() > 0 && qs.len() == terms.len() {
        assert(terms_wf(terms.drop_last(), u1.len())) by {
            assert forall|k: int| 0 <= k < terms.drop_last().len() implies #[trigger] terms.drop_last()[k] < u1.len() by {
                assert(terms.drop_last()[k] == terms[k]);
            }
        }
        lemma_term_quants_prefix(u1, u2, terms.drop_last(), qs.drop_last());
        assert(terms[terms.len() - 1] < u1.len());
        assert(u2[terms.last() as int] == u1[terms.last() as int]);
    }
}

/// A constant or variable named in `n1` is named alike in a longer interner.
pub proof fn lemma_resolved_mono(
    sumtis: Seq<Sumti>,
    id: int,
    kea: Option<Term>,
    selbris: Seq<Selbri>,
    n1: Seq<Seq<char>>,
    n2: Seq<Seq<char>>,
    t: Term,
)
    requires
        prefix_of(n1, n2),
        resolved_term(sumtis, id, kea, selbris, n1, t),
    ensures
        resolved_term(sumtis, id, kea, selbris, n2, t),
    decreases id,
{
    if let Sumti::Restricted { inner, .. } = sumtis[id] {
        lemma_resolved_mono(sumtis, inner as int, kea, selbris, n1, n2, t);
    }
}

/// Resolution of an existing sumti reads only that sumti and earlier ones.
pub proof fn lemma_resolved_grow(
    u1: Seq<Sumti>,
    u2: Seq<Sumti>,
    id: int,
    kea: Option<Term>,
    selbris: Seq<Selbri>,
    names: Seq<Seq<char>>,
    t: Term,
)
    requires
        prefix_of(u1, u2),
        0 <= id < u1.len(),
        resolved_term(u2, id, kea, selbris, names, t),
    ensures
        resolved_term(u1, id, kea, selbris, names, t),
    decreases id,
{
    assert(u2[id] == u1[id]);
    if let Sumti::Restricted { inner, .. } = u1[id] {
        if inner < id {
            lemma_resolved_grow(u1, u2, inner as int, kea, selbris, names, t);
        }
    }
}

/// Resolution of an existing sumti stays as the buffer grows.
pub proof fn lemma_resolved_up(
    u1: Seq<Sumti>,
    u2: Seq<Sumti>,
    id: int,
    kea: Option<Term>,
    selbris: Seq<Selbri>,
    names: Seq<Seq<char>>,
    t: Term,
)
    requires
        prefix_of(u1, u2),
        resolved_term(u1, id, kea, selbris, names, t),
    ensures
        resolved_term(u2, id, kea, selbris, names, t),
    decreases id,
{
    assert(u2[id] == u1[id]);
    if let Sumti::Restricted { inner, .. } = u1[id] {
        lemma_resolved_up(u1, u2, inner as int, kea, selbris, names, t);
    }
}

/// Whether an existing sumti is unresolvable does not change as the buffer grows.
pub proof fn lemma_unresolvable_up(u1: Seq<Sumti>, u2: Seq<Sumti>, id: int, kea: Option<Term>)
    requires
        prefix_of(u1, u2),
        unresolvable(u1, id, kea),
    ensures
        unresolvable(u2, id, kea),
    decreases id,
{
    assert(u2[id] == u1[id]);
    if let Sumti::Restricted { inner, .. } = u1[id] {
        lemma_unresolvable_up(u1, u2, inner as int, kea);
    }
}

/// A copy of a sumti node.
fn copy_sumti(s: &Sumti) -> (r: Sumti)
    ensures
        same_sumti(r, *s),
{
    match s {
        Sumti::ProSumti(c) => Sumti::ProSumti(*c),
        Sumti::Name(n) => Sumti::Name(n.clone()),
        Sumti::QuotedLiteral(w) => Sumti::QuotedLiteral(w.clone()),
        Sumti::Number(n) => Sumti::Number(*n),
        Sumti::Description { gadri, selbri, quantifier } => Sumti::Description {
            gadri: *gadri,
            selbri: *selbri,
            quantifier: *quantifier,
        },
        Sumti::Restricted { inner, clause, restrictive } => Sumti::Restricted {
            inner: *inner,
            clause: *clause,
            restrictive: *restrictive,
        },
        Sumti::Tagged(t, i) => Sumti::Tagged(*t, *i),
        Sumti::ModalTagged(m, i) => Sumti::ModalTagged(*m, *i),
        Sumti::Connected(l, c, n, r) => Sumti::Connected(*l, *c, *n, *r),
    }
}

/// Append a sumti node that refers only to existing nodes.
fn push_sumti(
    selbris: &Vec<Selbri>,
    sumtis: &mut Vec<Sumti>,
    sentences: &Vec<Sentence>,
    s: Sumti,
) -> (id: Option<u32>)
    requires
        ast_wf(selbris@, old(sumtis)@, sentences@),
        sumti_wf(old(sumtis)@.push(s), selbris@.len(), sentences@.len(), old(sumtis)@.len() as int),
    ensures
        grown(selbris@, old(sumtis)@, final(sumtis)@, sentences@),
        match id {
            Some(id) => id == old(sumtis)@.len() && final(sumtis)@ == old(sumtis)@.push(s),
            None => final(sumtis)@ == old(sumtis)@,
        },
        id is Some <==> old(sumtis)@.len() < 0xffff_fff0,
{
    if sumtis.len() >= 0xffff_fff0 {
        return None;
    }
    let id = sumtis.len() as u32;
    let ghost before = sumtis@;
    sumtis.push(s);
    proof {
        lemma_wf_grow(selbris@, before, sentences@, selbris@, sumtis@, sentences@);
    }
    Some(id)
}

/// A formula standing in for a part that could not be compiled (an error is recorded
/// whenever one is built).
fn placeholder() -> (f: LogicalForm)
    ensures
        f matches LogicalForm::Predicate { relation, args } && relation == 0 && args@.len() == 0,
{
    LogicalForm::Predicate { relation: 0, args: Vec::new() }
}

/// The split a connected term gives is well formed: its operands exist, and a `fi'o`
/// wrapper names an existing selbri.
pub open spec fn split_ok(nsel: nat, nsum: nat, s: ConnectedSplit) -> bool {
    &&& s.left_id < nsum
    &&& s.right_id < nsum
    &&& s.wrapper matches ConnWrapper::Modal(ModalTag::Fio(sel)) ==> sel < nsel
}

/// A found split of well-formed buffers is well formed.
proof fn lemma_split_ok(
    selbris: Seq<Selbri>,
    sumtis: Seq<Sumti>,
    sentences: Seq<Sentence>,
    terms: Seq<u32>,
    s: ConnectedSplit,
)
    requires
        ast_wf(selbris, sumtis, sentences),
        s.term_pos < terms.len(),
        split_of(sumtis, terms, s.term_pos as int, s),
    ensures
        split_ok(selbris.len(), sumtis.len(), s),
{
    lemma_wf_nodes(selbris, sumtis, sentences);
    let t = terms[s.term_pos as int] as int;
    let (w, c) = connected_at(sumtis, t)->0;
    assert(sumti_wf(sumtis, selbris.len(), sentences.len(), c as int));
    assert(sumti_wf(sumtis, selbris.len(), sentences.len(), t));
}

/// `f` is the event predication of word `name` on variable `e`, conjoined with one role
/// predication `name_xk(e, a)` per filled place `a` among the first `n` of `args`, left to
/// right. Names are read through `names`.
pub open spec fn event_body(
    names: Seq<Seq<char>>,
    e: u32,
    name: Seq<char>,
    args: Seq<Term>,
    n: int,
    f: LogicalForm,
) -> bool
    decreases n,
{
    if n <= 0 {
        f matches LogicalForm::Predicate { relation, args: a } && relation < names.len()
            && names[relation as int] == name && a@ == seq![Term::Variable(e)]
    } else if args[n - 1] == Term::Unspecified {
        event_body(names, e, name, args, n - 1, f)
    } else {
        f matches LogicalForm::And(l, r) && event_body(names, e, name, args, n - 1, *l) && (
        *r matches LogicalForm::Predicate { relation, args: a } && relation < names.len()
            && names[relation as int] == spec_role_name(name, n - 1) && a@ == seq![
            Term::Variable(e),
            args[n - 1],
        ])
    }
}

/// `f` is the event-decomposed predication of word `name` over `args`:
/// `∃e.(name(e) ∧ name_x1(e, a1) ∧ …)`, one role per filled place.
pub open spec fn event_form(names: Seq<Seq<char>>, name: Seq<char>, args: Seq<Term>, f: LogicalForm) -> bool {
    f matches LogicalForm::Exists(e, body) && event_body(names, e, name, args, args.len() as int, *body)
}

/// An event predication stays one as the interner grows.
pub proof fn lemma_event_body_mono(
    n1: Seq<Seq<char>>,
    n2: Seq<Seq<char>>,
    e: u32,
    name: Seq<char>,
    args: Seq<Term>,
    n: int,
    f: LogicalForm,
)
    requires
        prefix_of(n1, n2),
        event_body(n1, e, name, args, n, f),
    ensures
        event_body(n2, e, name, args, n, f),
    decreases n,
{
    if n > 0 {
        if args[n - 1] == Term::Unspecified {
            lemma_event_body_mono(n1, n2, e, name, args, n - 1, f);
        } else if let LogicalForm::And(l, _) = f {
            lemma_event_body_mono(n1, n2, e, name, args, n - 1, *l);
        }
    }
}

impl SemanticCompiler {
    /// The event-decomposed predication of word `name` over `args`:
    /// `∃e.(name(e) ∧ name_x1(e, a1) ∧ …)`, one role per filled place, with `e` the next
    /// compiler variable.
    fn event_predicate(&mut self, name: &str, args: &Vec<Term>) -> (f: LogicalForm)
        ensures
            kept(*old(self), *final(self)),
            final(self).pending_matrix_conjuncts == old(self).pending_matrix_conjuncts,
            final(self).pending_clause_subject == old(self).pending_clause_subject,
            final(self).kea == old(self).kea,
            final(self).kea_used == old(self).kea_used,
            prenex_named(interned(old(self).interner), old(self).prenex_vars@) && final(self).errors@.len()
                == old(self).errors@.len() ==> clear_form(f, old(self).prenex_vars@),
            free_sub(f, term_vars(args@)),
            final(self).errors@.len() == old(self).errors@.len() ==> {
                &&& event_form(interned(final(self).interner), name@, args@, f)
                &&& f matches LogicalForm::Exists(e, _) && e < interned(final(self).interner).len()
                    && interned(final(self).interner)[e as int] == spec_var_name(old(self).next_var as nat)
            },
    {
        let ghost e0 = self.errors@.len();
        let e = self.fresh_var();
        let rel = self.intern(name);
        let mut ev_args: Vec<Term> = Vec::new();
        ev_args.push(Term::Variable(e));
        proof {
            assert forall|k: u32| #[trigger] term_vars(ev_args@).contains(k) implies term_vars(args@).insert(e).contains(k) by {
                assert(ev_args@[0] == Term::Variable(e));
            }
            lemma_pred_free(rel, ev_args, term_vars(args@).insert(e));
        }
        let mut conj = LogicalForm::Predicate { relation: rel, args: ev_args };
        let ghost names_e = interned(self.interner);
        let mut i: usize = 0;
        while i < args.len()
            invariant
                i <= args@.len(),
                kept(*old(self), *self),
                self.pending_matrix_conjuncts == old(self).pending_matrix_conjuncts,
                self.pending_clause_subject == old(self).pending_clause_subject,
                self.kea == old(self).kea,
                self.kea_used == old(self).kea_used,
                e0 == old(self).errors@.len(),
                prefix_of(names_e, interned(self.interner)),
                clear_form(conj, old(self).prenex_vars@),
                free_sub(conj, term_vars(args@).insert(e)),
                self.errors@.len() == e0 ==> {
                    &&& event_body(interned(self.interner), e, name@, args@, i as int, conj)
                    &&& e < names_e.len()
                    &&& names_e[e as int] == spec_var_name(old(self).next_var as nat)
                },
            decreases args@.len() - i,
        {
            if args[i] != Term::Unspecified {
                let role_str = role_name(name, i);
                let ghost n0 = interned(self.interner);
                let role = self.intern(role_str.as_str());
                let mut role_args: Vec<Term> = Vec::new();
                role_args.push(Term::Variable(e));
                role_args.push(args[i]);
                proof {
                    if self.errors@.len() == e0 {
                        lemma_event_body_mono(n0, interned(self.interner), e, name@, args@, i as int, conj);
                        assert(role_args@ =~= seq![Term::Variable(e), args@[i as int]]);
                    }
                }
                let ghost pred = LogicalForm::Predicate { relation: role, args: role_args };
                assert(clear_form(pred, old(self).prenex_vars@));
                proof {
                    let sv = term_vars(args@).insert(e);
                    assert forall|k: u32| #[trigger] term_vars(role_args@).contains(k) implies sv.contains(k) by {
                        let j = choose|j: int| 0 <= j < role_args@.len() && #[trigger] role_args@[j] == Term::Variable(k);
                        if j == 1 {
                            assert(args@[i as int] == Term::Variable(k));
                            assert(term_vars(args@).contains(k));
                        }
                    }
                    lemma_pred_free(role, role_args, sv);
                    let c0 = conj;
                    let c1 = LogicalForm::And(Box::new(c0), Box::new(pred));
                    assert forall|k: u32| #[trigger] occurs_free(c1, k) implies sv.contains(k) by {
                        assert(occurs_free(c0, k) || occurs_free(pred, k));
                    }
                }
                conj = LogicalForm::And(
                    Box::new(conj),
                    Box::new(LogicalForm::Predicate { relation: role, args: role_args }),
                );
            }
            i = i + 1;
        }
        proof {
            if prenex_named(interned(old(self).interner), old(self).prenex_vars@) && self.errors@.len() == e0 {
                lemma_prenex_named_mono(interned(old(self).interner), interned(self.interner), old(self).prenex_vars@);
                lemma_fresh_not_prenex(interned(self.interner), old(self).prenex_vars@, e, old(self).next_var as nat);
            }
            let ex = LogicalForm::Exists(e, Box::new(conj));
            assert forall|k: u32| #[trigger] occurs_free(ex, k) implies term_vars(args@).contains(k) by {
                assert(occurs_free(conj, k));
            }
        }
        LogicalForm::Exists(e, Box::new(conj))
    }
}

/// The first argument, or an unfilled place when there is none.
pub open spec fn spec_x1(args: Seq<Term>) -> Term {
    if args.len() > 0 {
        args[0]
    } else {
        Term::Unspecified
    }
}

/// `args` padded with unfilled places to hold place `k`, then places 0 and `k` swapped.
pub open spec fn spec_swapped(args: Seq<Term>, k: int) -> Seq<Term> {
    let padded = if args.len() > k {
        args
    } else {
        args + Seq::new((k + 1 - args.len()) as nat, |i: int| Term::Unspecified)
    };
    padded.update(0, padded[k]).update(k, padded[0])
}

/// `f` is selbri `id` applied to `args`: a word's event predication; a tanru's head over
/// `args` and its modifier over x1, conjoined; the inner selbri over the swapped
/// arguments of a conversion; the negation of the inner selbri's predication; or, for an
/// abstraction, `nu(x1)` conjoined with the compiled event sentence. Names are read
/// through `names`.
pub open spec fn applied(
    names: Seq<Seq<char>>,
    selbris: Seq<Selbri>,
    id: int,
    args: Seq<Term>,
    f: LogicalForm,
) -> bool
    decreases id,
{
    if !(0 <= id < selbris.len()) {
        false
    } else {
        match selbris[id] {
            Selbri::Root(w) => event_form(names, w@, args, f),
            Selbri::Tanru(m, h) => m < id && h < id && (f matches LogicalForm::And(fh, fm) && applied(
                names,
                selbris,
                h as int,
                args,
                *fh,
            ) && applied(names, selbris, m as int, seq![spec_x1(args)], *fm)),
            Selbri::Converted(c, i) => i < id && applied(
                names,
                selbris,
                i as int,
                spec_swapped(args, spec_conversion_place(c) as int),
                f,
            ),
            Selbri::Negated(i) => i < id && (f matches LogicalForm::Not(g) && applied(
                names,
                selbris,
                i as int,
                args,
                *g,
            )),
            Selbri::Abstraction(_) => f matches LogicalForm::And(p, _) && (
            *p matches LogicalForm::Predicate { relation, args: a } && relation < names.len()
                && names[relation as int] == "nu"@ && a@ == seq![spec_x1(args)]),
        }
    }
}

/// A selbri's predication stays one as the interner grows.
pub proof fn lemma_applied_mono(
    n1: Seq<Seq<char>>,
    n2: Seq<Seq<char>>,
    selbris: Seq<Selbri>,
    id: int,
    args: Seq<Term>,
    f: LogicalForm,
)
    requires
        prefix_of(n1, n2),
        applied(n1, selbris, id, args, f),
    ensures
        applied(n2, selbris, id, args, f),
    decreases id,
{
    match selbris[id] {
        Selbri::Root(w) => {
            if let LogicalForm::Exists(e, body) = f {
                lemma_event_body_mono(n1, n2, e, w@, args, args.len() as int, *body);
            }
        },
        Selbri::Tanru(m, h) => {
            if let LogicalForm::And(fh, fm) = f {
                lemma_applied_mono(n1, n2, selbris, h as int, args, *fh);
                lemma_applied_mono(n1, n2, selbris, m as int, seq![spec_x1(args)], *fm);
            }
        },
        Selbri::Converted(c, i) => {
            lemma_applied_mono(n1, n2, selbris, i as int, spec_swapped(args, spec_conversion_place(c) as int), f);
        },
        Selbri::Negated(i) => {
            if let LogicalForm::Not(g) = f {
                lemma_applied_mono(n1, n2, selbris, i as int, args, *g);
            }
        },
        Selbri::Abstraction(_) => {},
    }
}

impl SemanticCompiler {
    /// Apply selbri `id` to `args`: a word's event predication, a tanru's head over the
    /// arguments and modifier over x1, a conversion with its places swapped, a
    /// negation, or an abstraction (`nu(x1)` and the compiled event sentence).
    pub fn apply_selbri(
        &mut self,
        id: u32,
        args: Vec<Term>,
        selbris: &Vec<Selbri>,
        sumtis: &mut Vec<Sumti>,
        sentences: &Vec<Sentence>,
    ) -> (f: LogicalForm)
        requires
            ast_wf(selbris@, old(sumtis)@, sentences@),
            id < selbris@.len(),
        ensures
            kept(*old(self), *final(self)),
            grown(selbris@, old(sumtis)@, final(sumtis)@, sentences@),
            final(self).errors@.len() == old(self).errors@.len() ==> applied(
                interned(final(self).interner),
                selbris@,
                id as int,
                args@,
                f,
            ),
            final(self).pending_matrix_conjuncts@ == old(self).pending_matrix_conjuncts@,
            clean_run(*old(self), *final(self), sentences@) ==> clear_form(f, old(self).prenex_vars@),
            final(self).errors@.len() == old(self).errors@.len() && giha_clause_free(old(sumtis)@, sentences@) ==> free_sub(
                f,
                term_vars(args@).union(open_vars(*old(self))),
            ),
        decreases old(self).budget,
    {
        if !self.step() {
            return placeholder();
        }
        proof {
            lemma_wf_nodes(selbris@, sumtis@, sentences@);
            assert(selbri_wf(selbris@, sentences@.len(), id as int));
        }
        let ghost sa = term_vars(args@).union(open_vars(*old(self)));
        assert(open_vars(*self) =~= open_vars(*old(self)));
        let ghost e0 = self.errors@.len();
        match &selbris[id as usize] {
            Selbri::Root(name) => {
                let ghost s1 = *self;
                let f = self.event_predicate(name.as_str(), &args);
                proof {
                    if clean_run(*old(self), *self, sentences@) {
                        lemma_ready_kept(*old(self), s1, sentences@);
                    }
                    lemma_free_sub_mono(f, term_vars(args@), sa);
                }
                f
            },
            Selbri::Tanru(m, h) => {
                let x1 = if args.len() > 0 {
                    args[0]
                } else {
                    Term::Unspecified
                };
                let ghost a0 = args@;
                let ghost s1 = *self;
                let head = self.apply_selbri(*h, args, selbris, sumtis, sentences);
                let ghost s2 = *self;
                let ghost n1 = interned(self.interner);
                let ghost e1 = self.errors@.len();
                let mut margs: Vec<Term> = Vec::new();
                margs.push(x1);
                assert(margs@ =~= seq![spec_x1(a0)]);
                let ghost u_h = sumtis@;
                let modifier = self.apply_selbri(*m, margs, selbris, sumtis, sentences);
                proof {
                    if self.errors@.len() == e0 {
                        assert(e1 == e0);
                        lemma_applied_mono(n1, interned(self.interner), selbris@, *h as int, a0, head);
                    }
                    if clean_run(*old(self), *self, sentences@) {
                        lemma_ready_kept(*old(self), s1, sentences@);
                        lemma_ready_kept(*old(self), s2, sentences@);
                        assert(s1.errors@.len() == e0 && s2.errors@.len() == e0);
                        assert(clear_form(head, old(self).prenex_vars@));
                        assert(clear_form(modifier, old(self).prenex_vars@));
                    }
                    if self.errors@.len() == e0 && giha_clause_free(old(sumtis)@, sentences@) {
                        assert(e1 == e0);
                        lemma_giha_grow(selbris@, old(sumtis)@, u_h, sentences@);
                        lemma_open_kept(*old(self), s1);
                        lemma_open_kept(*old(self), s2);
                        lemma_free_sub_mono(head, term_vars(a0).union(open_vars(s1)), sa);
                        assert forall|k: u32| #[trigger] term_vars(seq![spec_x1(a0)]).contains(k) implies term_vars(a0).contains(k) by {
                            assert(a0[0] == spec_x1(a0));
                        }
                        lemma_free_sub_mono(modifier, term_vars(seq![spec_x1(a0)]).union(open_vars(s2)), sa);
                        let c = LogicalForm::And(Box::new(head), Box::new(modifier));
                        assert forall|k: u32| #[trigger] occurs_free(c, k) implies sa.contains(k) by {
                            assert(occurs_free(head, k) || occurs_free(modifier, k));
                        }
                    }
                }
                LogicalForm::And(Box::new(head), Box::new(modifier))
            },
            Selbri::Converted(c, inner) => {
                let k = conversion_place(*c);
                let ghost a0 = args@;
                let mut swapped = args;
                while swapped.len() <= k
                    invariant
                        k <= 4,
                        k >= 1,
                        swapped@.len() >= a0.len(),
                        swapped@.len() <= a0.len() || swapped@.len() <= k + 1,
                        swapped@ == a0 + Seq::new((swapped@.len() - a0.len()) as nat, |i: int| Term::Unspecified),
                    decreases k + 1 - swapped@.len(),
                {
                    swapped.push(Term::Unspecified);
                    assert(swapped@ =~= a0 + Seq::new((swapped@.len() - a0.len()) as nat, |i: int| Term::Unspecified));
                }
                let ghost padded = swapped@;
                assert(padded =~= if a0.len() > k {
                    a0
                } else {
                    a0 + Seq::new((k + 1 - a0.len()) as nat, |i: int| Term::Unspecified)
                });
                let first = swapped[0];
                let other = swapped[k];
                swapped.set(0, other);
                swapped.set(k, first);
                assert(swapped@ == spec_swapped(a0, spec_conversion_place(*c) as int));
                let ghost s1 = *self;
                let ghost sw = swapped@;
                let f = self.apply_selbri(*inner, swapped, selbris, sumtis, sentences);
                proof {
                    if clean_run(*old(self), *self, sentences@) {
                        lemma_ready_kept(*old(self), s1, sentences@);
                    }
                    if self.errors@.len() == e0 && giha_clause_free(old(sumtis)@, sentences@) {
                        assert(open_vars(s1) =~= open_vars(*old(self)));
                        assert forall|v: u32| #[trigger] term_vars(sw).contains(v) implies term_vars(a0).contains(v) by {
                            let i = choose|i: int| 0 <= i < sw.len() && #[trigger] sw[i] == Term::Variable(v);
                            let kk = spec_conversion_place(*c) as int;
                            if i == 0 {
                                assert(padded[kk] == Term::Variable(v));
                                assert(a0[kk] == Term::Variable(v));
                            } else if i == kk {
                                assert(padded[0] == Term::Variable(v));
                                assert(a0[0] == Term::Variable(v));
                            } else {
                                assert(padded[i] == Term::Variable(v));
                                assert(a0[i] == Term::Variable(v));
                            }
                        }
                        lemma_free_sub_mono(f, term_vars(sw).union(open_vars(s1)), sa);
                    }
                }
                f
            },
            Selbri::Negated(inner) => {
                let ghost s1 = *self;
                let f = self.apply_selbri(*inner, args, selbris, sumtis, sentences);
                proof {
                    if clean_run(*old(self), *self, sentences@) {
                        lemma_ready_kept(*old(self), s1, sentences@);
                    }
                    if self.errors@.len() == e0 && giha_clause_free(old(sumtis)@, sentences@) {
                        assert(open_vars(s1) =~= open_vars(*old(self)));
                        lemma_not_free(f, sa);
                    }
                }
                LogicalForm::Not(Box::new(f))
            },
            Selbri::Abstraction(s) => {
                let x1 = if args.len() > 0 {
                    args[0]
                } else {
                    Term::Unspecified
                };
                let ghost s1 = *self;
                let body = self.compile_sentence(*s, selbris, sumtis, sentences);
                let ghost s2 = *self;
                let nu = self.intern("nu");
                let mut nargs: Vec<Term> = Vec::new();
                nargs.push(x1);
                assert(nargs@ =~= seq![spec_x1(args@)]);
                proof {
                    if clean_run(*old(self), *self, sentences@) {
                        lemma_ready_kept(*old(self), s1, sentences@);
                        assert(s1.errors@.len() == e0 && s2.errors@.len() == e0);
                        assert(clear_form(body, old(self).prenex_vars@));
                        let pred = LogicalForm::Predicate { relation: nu, args: nargs };
                        assert(clear_form(pred, old(self).prenex_vars@));
                    }
                    if self.errors@.len() == e0 && giha_clause_free(old(sumtis)@, sentences@) {
                        assert(s2.errors@.len() == e0);
                        assert(open_vars(s1) =~= open_vars(*old(self)));
                        lemma_free_sub_mono(body, open_vars(s1), sa);
                        assert forall|k: u32| #[trigger] term_vars(nargs@).contains(k) implies sa.contains(k) by {
                            assert(nargs@[0] == spec_x1(args@));
                            assert(args@[0] == Term::Variable(k));
                            assert(term_vars(args@).contains(k));
                        }
                        lemma_pred_free(nu, nargs, sa);
                        let pred = LogicalForm::Predicate { relation: nu, args: nargs };
                        let c = LogicalForm::And(Box::new(pred), Box::new(body));
                        assert forall|k: u32| #[trigger] occurs_free(c, k) implies sa.contains(k) by {
                            assert(occurs_free(pred, k) || occurs_free(body, k));
                        }
                    }
                }
                LogicalForm::And(
                    Box::new(LogicalForm::Predicate { relation: nu, args: nargs }),
                    Box::new(body),
                )
            },
        }
    }

    /// Compile relative clause `clause` about `subject`: the clause's first predication
    /// takes the subject in x1 when it has no head terms, and `ke'a` in it refers to the
    /// subject. The clause context is restored afterwards.
    fn compile_clause(
        &mut self,
        clause: u32,
        subject: Term,
        selbris: &Vec<Selbri>,
        sumtis: &mut Vec<Sumti>,
        sentences: &Vec<Sentence>,
    ) -> (f: LogicalForm)
        requires
            ast_wf(selbris@, old(sumtis)@, sentences@),
            clause < sentences@.len(),
        ensures
            kept(*old(self), *final(self)),
            grown(selbris@, old(sumtis)@, final(sumtis)@, sentences@),
            final(self).pending_clause_subject == old(self).pending_clause_subject,
            final(self).kea == old(self).kea,
            final(self).kea_used == old(self).kea_used,
            final(self).pending_matrix_conjuncts@ == old(self).pending_matrix_conjuncts@,
            clean_run(*old(self), *final(self), sentences@) ==> clear_form(f, old(self).prenex_vars@),
            final(self).errors@.len() == old(self).errors@.len() && giha_clause_free(old(sumtis)@, sentences@) ==> free_sub(
                f,
                Set::new(|k: u32| old(self).prenex_vars@.contains(k) || subject == Term::Variable(k)),
            ),
            final(self).errors@.len() == old(self).errors@.len() ==> match sentences@[clause as int] {
                Sentence::Connected(c, _, _) => exists|l: LogicalForm, r: LogicalForm| f == spec_sentence_join(c, l, r),
                Sentence::Prenex(vars, _) => exists|keys: Seq<u32>, body: LogicalForm|
                    {
                        &&& keys.len() == vars@.len()
                        &&& f == spec_forall_all(keys, body)
                        &&& forall|i: int|
                            0 <= i < keys.len() ==> #[trigger] keys[i] < interned(final(self).interner).len()
                                && interned(final(self).interner)[keys[i] as int] == spec_cmavo_text(vars@[i])
                    },
                _ => true,
            },
            clean_run(*old(self), *final(self), sentences@) ==> prenex_kept(
                interned(final(self).interner),
                sentences@,
                clause as int,
                f,
            ),
        decreases old(self).budget,
    {
        if !self.step() {
            return placeholder();
        }
        let saved_subject = self.pending_clause_subject;
        let saved_kea = self.kea;
        let saved_used = self.kea_used;
        self.pending_clause_subject = Some(subject);
        self.kea = Some(subject);
        self.kea_used = false;
        let ghost s1 = *self;
        proof {
            if law_ready(*old(self), sentences@) {
                assert(interned(s1.interner) == interned(old(self).interner));
                assert(law_ready(s1, sentences@));
            }
        }
        let f = self.compile_sentence(clause, selbris, sumtis, sentences);
        proof {
            if clean_run(*old(self), *self, sentences@) {
                assert(s1.errors@.len() == old(self).errors@.len());
                assert(law_ready(s1, sentences@));
            }
            if self.errors@.len() == old(self).errors@.len() {
                assert(s1.errors@.len() == old(self).errors@.len());
            }
            if self.errors@.len() == old(self).errors@.len() && giha_clause_free(old(sumtis)@, sentences@) {
                assert(s1.errors@.len() == old(self).errors@.len());
                assert(open_vars(s1) =~= Set::new(|k: u32| old(self).prenex_vars@.contains(k) || subject == Term::Variable(k)));
            }
        }
        self.pending_clause_subject = saved_subject;
        self.kea = saved_kea;
        self.kea_used = saved_used;
        f
    }

    /// Resolve a sumti to the term that fills its place and the quantifiers it
    /// introduces (a description's), in surface order.
    #[verifier::spinoff_prover]
    pub fn resolve_sumti(
        &mut self,
        id: u32,
        selbris: &Vec<Selbri>,
        sumtis: &mut Vec<Sumti>,
        sentences: &Vec<Sentence>,
    ) -> (r: (Term, Vec<QuantifierEntry>))
        requires
            ast_wf(selbris@, old(sumtis)@, sentences@),
            id < old(sumtis)@.len(),
        ensures
            kept(*old(self), *final(self)),
            grown(selbris@, old(sumtis)@, final(sumtis)@, sentences@),
            final(self).errors@.len() == old(self).errors@.len() ==> {
                &&& resolved_term(old(sumtis)@, id as int, old(self).kea, selbris@, interned(final(self).interner), r.0)
                &&& resolved_quants(old(sumtis)@[id as int], selbris@, interned(final(self).interner), r.0, r.1@)
            },
            unresolvable(old(sumtis)@, id as int, old(self).kea) ==> final(self).errors@.len() > old(
                self,
            ).errors@.len(),
            prefix_of(old(self).pending_matrix_conjuncts@, final(self).pending_matrix_conjuncts@),
            clean_run(*old(self), *final(self), sentences@) ==> clear_quants(r.1@, old(self).prenex_vars@)
                && clear_forms(
                added(old(self).pending_matrix_conjuncts@, final(self).pending_matrix_conjuncts@),
                old(self).prenex_vars@,
            ),
            final(self).errors@.len() == old(self).errors@.len() && giha_clause_free(old(sumtis)@, sentences@) ==> resolved_open(*old(self), *final(self), r.0, r.1@),
            !(old(sumtis)@[id as int] is Restricted) ==> final(self).pending_matrix_conjuncts@ == old(self).pending_matrix_conjuncts@,
            final(self).errors@.len() == old(self).errors@.len() ==> {
                &&& r.1@.len() == quant_count(old(sumtis)@, id as int)
                &&& added(old(self).pending_matrix_conjuncts@, final(self).pending_matrix_conjuncts@).len()
                    == matrix_clause_count(old(sumtis)@, id as int)
            },
        decreases old(self).budget,
    {
        if !self.step() {
            return (Term::Unspecified, Vec::new());
        }
        let ghost s_st = *self;
        assert(open_vars(s_st) =~= open_vars(*old(self)));
        proof {
            lemma_wf_nodes(selbris@, sumtis@, sentences@);
            assert(sumti_wf(sumtis@, selbris@.len(), sentences@.len(), id as int));
        }
        let node = copy_sumti(&sumtis[id as usize]);
        let r: (Term, Vec<QuantifierEntry>) = match node {
            Sumti::ProSumti(c) => {
                let r: (Term, Vec<QuantifierEntry>) = if c == Cmavo::Da || c == Cmavo::De || c == Cmavo::Di {
                    let k = self.intern(cmavo_text(c));
                    (Term::Variable(k), Vec::new())
                } else if c == Cmavo::Keha {
                    match self.kea {
                        Some(t) => {
                            self.kea_used = true;
                            (t, Vec::new())
                        },
                        None => {
                            self.fail("`ke'a` is only meaningful inside a relative clause".to_owned());
                            (Term::Unspecified, Vec::new())
                        },
                    }
                } else {
                    let k = self.intern(cmavo_text(c));
                    (Term::Constant(k), Vec::new())
                };
                proof {
                    assert(self.pending_matrix_conjuncts@ == old(self).pending_matrix_conjuncts@);
                    assert(added(old(self).pending_matrix_conjuncts@, self.pending_matrix_conjuncts@).len() == 0);
                    assert(r.1@.len() == 0);
                }
                r
            },
            Sumti::Name(n) => {
                let k = self.intern(n.as_str());
                (Term::Constant(k), Vec::new())
            },
            Sumti::QuotedLiteral(w) => {
                let k = self.intern(w.as_str());
                (Term::Constant(k), Vec::new())
            },
            Sumti::Number(n) => (Term::Number(n), Vec::new()),
            Sumti::Description { gadri, selbri, quantifier } => {
                if gadri == Gadri::La {
                    let name = get_selbri_head_name(selbris, selbri);
                    let k = self.intern(name.as_str());
                    (Term::Constant(k), Vec::new())
                } else {
                    let ghost s0 = *self;
                    let v = self.fresh_var();
                    let ghost s1 = *self;
                    let mut rargs: Vec<Term> = Vec::new();
                    rargs.push(Term::Variable(v));
                    let ghost rargs_v = rargs@;
                    let restrictor = self.apply_selbri(selbri, rargs, selbris, sumtis, sentences);
                    let kind = match quantifier {
                        None => QuantKind::Existential,
                        Some(Quantifier::Ro) => QuantKind::Universal,
                        Some(Quantifier::Number(n)) => QuantKind::Count(n),
                    };
                    let mut quants: Vec<QuantifierEntry> = Vec::new();
                    quants.push(QuantifierEntry { kind, var: v, restrictor });
                    proof {
                        if clean_run(*old(self), *self, sentences@) {
                            lemma_ready_kept(*old(self), s1, sentences@);
                            assert(s1.errors@.len() == old(self).errors@.len());
                            assert(s0.errors@.len() == old(self).errors@.len());
                            lemma_prenex_named_mono(interned(old(self).interner), interned(s1.interner), old(self).prenex_vars@);
                            lemma_fresh_not_prenex(interned(s1.interner), old(self).prenex_vars@, v, s0.next_var as nat);
                            assert(clear_form(restrictor, old(self).prenex_vars@));
                            assert(quants@[0].var == v);
                            assert(added(old(self).pending_matrix_conjuncts@, self.pending_matrix_conjuncts@).len() == 0);
                        }
                        if self.errors@.len() == old(self).errors@.len() && giha_clause_free(old(sumtis)@, sentences@) {
                            assert(s1.errors@.len() == old(self).errors@.len());
                            assert(open_vars(s1) =~= open_vars(*old(self)));
                            assert(term_vars(seq![Term::Variable(v)]) =~= Set::<u32>::empty().insert(v));
                            assert(rargs_v =~= seq![Term::Variable(v)]);
                            lemma_free_sub_mono(restrictor, term_vars(rargs_v).union(open_vars(s1)), open_vars(*old(self)).insert(v));
                            assert(quants@[0].var == v && quants@[0].restrictor == restrictor);
                            assert(quants_within(quants@, open_vars(*old(self))));
                        }
                    }
                    (Term::Variable(v), quants)
                }
            },
            Sumti::Restricted { inner, clause, restrictive } => {
                let ghost e0 = self.errors@.len();
                let ghost s0 = *self;
                let (term, mut quants) = self.resolve_sumti(inner, selbris, sumtis, sentences);
                let ghost n1 = interned(self.interner);
                let ghost e1 = self.errors@.len();
                let ghost s1 = *self;
                let ghost q1 = quants@;
                let ghost u_r = sumtis@;
                let clause_form = self.compile_clause(clause, term, selbris, sumtis, sentences);
                proof {
                    if self.errors@.len() == e0 {
                        assert(e1 == e0);
                        lemma_resolved_mono(old(sumtis)@, inner as int, old(self).kea, selbris@, n1, interned(self.interner), term);
                    }
                    if clean_run(*old(self), *self, sentences@) {
                        lemma_ready_kept(*old(self), s0, sentences@);
                        lemma_ready_kept(*old(self), s1, sentences@);
                        assert(e1 == e0);
                        assert(clear_quants(q1, old(self).prenex_vars@));
                        assert(clear_form(clause_form, old(self).prenex_vars@));
                        assert(clear_forms(added(old(self).pending_matrix_conjuncts@, self.pending_matrix_conjuncts@), old(self).prenex_vars@));
                    }
                    if self.errors@.len() == e0 && giha_clause_free(old(sumtis)@, sentences@) {
                        assert(e1 == e0);
                        lemma_giha_grow(selbris@, old(sumtis)@, u_r, sentences@);
                        assert(open_vars(s0) =~= open_vars(*old(self)));
                        assert(resolved_open(s0, s1, term, q1));
                        lemma_resolved_open_names(s0, s1, *self, term, q1);
                        assert forall|v: u32| #[trigger] occurs_free(clause_form, v) implies open_vars(*old(self)).union(term_vars(seq![term])).contains(v) by {
                            assert(seq![term][0] == term);
                        }
                    }
                }
                let ghost pend_b = self.pending_matrix_conjuncts@;
                if restrictive && quants.len() > 0 {
                    let last = quants.pop().unwrap();
                    quants.push(
                        QuantifierEntry {
                            kind: last.kind,
                            var: last.var,
                            restrictor: LogicalForm::And(
                                Box::new(last.restrictor),
                                Box::new(clause_form),
                            ),
                        },
                    );
                } else {
                    self.pending_matrix_conjuncts.push(clause_form);
                }
                proof {
                    if self.errors@.len() == e0 && giha_clause_free(old(sumtis)@, sentences@) {
                        let so = open_vars(*old(self));
                        let st = so.union(term_vars(seq![term]));
                        assert forall|j: int| 0 <= j < quants@.len() implies free_sub(#[trigger] quants@[j].restrictor, so.insert(quants@[j].var)) by {
                            if j < q1.len() - 1 || !(restrictive && q1.len() > 0) {
                                assert(quants@[j] == q1[j]);
                            } else {
                                assert(quants@[j].var == q1[j].var);
                                assert(term == Term::Variable(q1.last().var));
                                assert(free_sub(q1[j].restrictor, so.insert(q1[j].var)));
                                let rr = quants@[j].restrictor;
                                assert forall|v: u32| #[trigger] occurs_free(rr, v) implies so.insert(q1[j].var).contains(v) by {
                                    assert(occurs_free(q1[j].restrictor, v) || occurs_free(clause_form, v));
                                    if occurs_free(clause_form, v) && !so.contains(v) {
                                        assert(term_vars(seq![term]).contains(v));
                                        let i = choose|i: int| 0 <= i < 1 && #[trigger] seq![term][i] == Term::Variable(v);
                                        assert(seq![term][i] == term);
                                    }
                                }
                            }
                        }
                        assert forall|j: int| old(self).pending_matrix_conjuncts@.len() <= j < self.pending_matrix_conjuncts@.len() implies free_sub(
                            #[trigger] self.pending_matrix_conjuncts@[j],
                            st,
                        ) by {
                            if j < pend_b.len() {
                                assert(self.pending_matrix_conjuncts@[j] == pend_b[j]);
                            }
                        }
                        if quants@.len() > 0 {
                            assert(quants@.last().var == q1.last().var);
                        }
                    }
                    if clean_run(*old(self), *self, sentences@) {
                        let p = old(self).prenex_vars@;
                        assert forall|j: int| 0 <= j < quants@.len() implies !p.contains(#[trigger] quants@[j].var)
                            && clear_form(quants@[j].restrictor, p) by {
                            if j < q1.len() - 1 || !(restrictive && q1.len() > 0) {
                                assert(quants@[j] == q1[j]);
                            } else {
                                assert(quants@[j].var == q1[j].var);
                                assert(clear_form(q1[j].restrictor, p));
                            }
                        }
                        let a = added(old(self).pending_matrix_conjuncts@, self.pending_matrix_conjuncts@);
                        let a0 = added(old(self).pending_matrix_conjuncts@, pend_b);
                        assert forall|j: int| 0 <= j < a.len() implies #[trigger] clear_form(a[j], p) by {
                            if j < a0.len() {
                                assert(a[j] == a0[j]);
                            }
                        }
                    }
                    assert(self.errors@.len() == e0 ==> {
                        &&& quants@.len() == quant_count(old(sumtis)@, id as int)
                        &&& added(old(self).pending_matrix_conjuncts@, self.pending_matrix_conjuncts@).len()
                            == matrix_clause_count(old(sumtis)@, id as int)
                    }) by {
                        if self.errors@.len() == e0 {
                            assert(e1 == e0);
                            assert(inner < id);
                            assert(q1.len() == quant_count(old(sumtis)@, inner as int));
                            assert(added(old(self).pending_matrix_conjuncts@, pend_b).len() == matrix_clause_count(
                                old(sumtis)@,
                                inner as int,
                            ));
                        }
                    }
                }
                (term, quants)
            },
            _ => {
                self.fail(
                    "a place tag, modal or connected sumti cannot stand inside another sumti here".to_owned(),
                );
                (Term::Unspecified, Vec::new())
            },
        };
        proof {
            if self.pending_matrix_conjuncts@ == old(self).pending_matrix_conjuncts@ {
                assert(added(old(self).pending_matrix_conjuncts@, self.pending_matrix_conjuncts@).len() == 0);
            }
        }
        r
    }
}

impl SemanticCompiler {
    /// Compile sentence `id`: a predication, a prenex (`∀` over its variables, outermost
    /// first, with those variables never closed existentially inside), two sentences
    /// joined by a connective, or a GIhA chain with a shared head.
    pub fn compile_sentence(
        &mut self,
        id: u32,
        selbris: &Vec<Selbri>,
        sumtis: &mut Vec<Sumti>,
        sentences: &Vec<Sentence>,
    ) -> (f: LogicalForm)
        requires
            ast_wf(selbris@, old(sumtis)@, sentences@),
            id < sentences@.len(),
        ensures
            kept(*old(self), *final(self)),
            grown(selbris@, old(sumtis)@, final(sumtis)@, sentences@),
            final(self).errors@.len() == old(self).errors@.len() ==> match sentences@[id as int] {
                Sentence::Connected(c, _, _) => exists|l: LogicalForm, r: LogicalForm|
                    f == spec_sentence_join(c, l, r),
                Sentence::Prenex(vars, _) => exists|keys: Seq<u32>, body: LogicalForm|
                    {
                        &&& keys.len() == vars@.len()
                        &&& f == spec_forall_all(keys, body)
                        &&& forall|i: int|
                            0 <= i < keys.len() ==> #[trigger] keys[i] < interned(
                                final(self).interner,
                            ).len() && interned(final(self).interner)[keys[i] as int]
                                == spec_cmavo_text(vars@[i])
                    },
                _ => true,
            },
            old(self).pending_clause_subject is None && final(self).errors@.len() == old(
                self,
            ).errors@.len() ==> sentence_compiled(
                interned(final(self).interner),
                selbris@,
                final(sumtis)@,
                sentences@,
                old(self).kea,
                id as int,
                f,
            ),
            sentences@[id as int] matches Sentence::Simple(b) ==> (no_connected(old(sumtis)@, b)
                ==> tag_beyond_reported(old(self).errors@, final(self).errors@, selbris@, old(sumtis)@, b)),
            simple_tag_beyond(selbris@, old(sumtis)@, sentences@, id as int) ==> final(self).errors@.len() > old(
                self,
            ).errors@.len(),
            final(self).pending_matrix_conjuncts@ == old(self).pending_matrix_conjuncts@,
            clean_run(*old(self), *final(self), sentences@) ==> clear_form(f, old(self).prenex_vars@),
            clean_run(*old(self), *final(self), sentences@) ==> prenex_kept(
                interned(final(self).interner),
                sentences@,
                id as int,
                f,
            ),
            final(self).errors@.len() == old(self).errors@.len() && giha_clause_free(old(sumtis)@, sentences@) ==> free_sub(f, open_vars(*old(self))),
        decreases old(self).budget,
    {
        if !self.step() {
            return placeholder();
        }
        proof {
            lemma_wf_nodes(selbris@, sumtis@, sentences@);
            assert(sentence_wf(sentences@, selbris@.len(), sumtis@.len(), id as int));
        }
        let ghost e0 = self.errors@.len();
        let ghost s0 = *self;
        proof {
            if law_ready(*old(self), sentences@) {
                lemma_ready_kept(*old(self), s0, sentences@);
            }
        }
        assert(open_vars(s0) =~= open_vars(*old(self)));
        match &sentences[id as usize] {
            Sentence::Simple(b) => self.compile_bridi(b, selbris, sumtis, sentences),
            Sentence::Prenex(vars, body) => {
                let saved_len = self.prenex_vars.len();
                proof {
                    if law_ready(*old(self), sentences@) {
                        assert(sentences@[id as int] matches Sentence::Prenex(vs, _) ==> forall|i: int|
                            0 <= i < vs@.len() ==> is_logic_var_cmavo(#[trigger] vs@[i]));
                    }
                }
                let mut keys: Vec<u32> = Vec::new();
                let mut i: usize = 0;
                while i < vars.len()
                    invariant
                        i <= vars@.len(),
                        self.prenex_vars@.len() >= saved_len,
                        self.prenex_vars@.subrange(0, saved_len as int) == old(self).prenex_vars@,
                        saved_len == old(self).prenex_vars@.len(),
                        prefix_of(old(self).errors@, self.errors@),
                        prefix_of(interned(old(self).interner), interned(self.interner)),
                        self.budget < old(self).budget,
                        self.kea == old(self).kea,
                        old(self).pending_clause_subject is None ==> self.pending_clause_subject is None,
                        sumtis@ == old(sumtis)@,
                        keys@.len() == i,
                        e0 <= self.errors@.len(),
                        self.errors@.len() == e0 ==> forall|j: int|
                            0 <= j < i ==> #[trigger] keys@[j] < interned(self.interner).len()
                                && interned(self.interner)[keys@[j] as int] == spec_cmavo_text(vars@[j]),
                        self.pending_matrix_conjuncts == old(self).pending_matrix_conjuncts,
                        law_ready(*old(self), sentences@) ==> forall|j: int|
                            0 <= j < vars@.len() ==> is_logic_var_cmavo(#[trigger] vars@[j]),
                        law_ready(*old(self), sentences@) && self.errors@.len() == e0 ==> prenex_named(
                            interned(self.interner),
                            self.prenex_vars@,
                        ),
                        forall|j: int| 0 <= j < i ==> self.prenex_vars@.contains(#[trigger] keys@[j]),
                        forall|v: u32| #[trigger] self.prenex_vars@.contains(v) ==> old(self).prenex_vars@.contains(v)
                            || keys@.contains(v),
                        self.kea == old(self).kea,
                        self.pending_clause_subject == old(self).pending_clause_subject,
                    decreases vars@.len() - i,
                {
                    let ghost names0 = interned(self.interner);
                    let ghost p0 = self.prenex_vars@;
                    let ghost kh = keys@;
                    assert(forall|v: u32| #[trigger] p0.contains(v) ==> old(self).prenex_vars@.contains(v) || kh.contains(v));
                    let ghost errs0 = self.errors@.len();
                    let word = cmavo_text(vars[i]);
                    let k = self.intern(word);
                    keys.push(k);
                    proof {
                        if self.errors@.len() == e0 {
                            assert(errs0 == e0);
                            assert(keys@[i as int] == k);
                            assert forall|j: int| 0 <= j < i + 1 implies #[trigger] keys@[j] < interned(
                                self.interner,
                            ).len() && interned(self.interner)[keys@[j] as int] == spec_cmavo_text(
                                vars@[j],
                            ) by {
                                if j < i {
                                    assert(names0[keys@[j] as int] == interned(self.interner)[keys@[j] as int]);
                                }
                            }
                        }
                    }
                    let ghost pk = self.prenex_vars@;
                    if !contains_id(&self.prenex_vars, k) {
                        self.prenex_vars.push(k);
                    }
                    proof {
                        assert forall|v: u32| #[trigger] self.prenex_vars@.contains(v) implies old(self).prenex_vars@.contains(v)
                            || keys@.contains(v) by {
                            if pk.contains(v) {
                                assert(p0.contains(v));
                                if !old(self).prenex_vars@.contains(v) {
                                    assert(kh.contains(v));
                                    let w = choose|w: int| 0 <= w < kh.len() && kh[w] == v;
                                    assert(keys@[w] == v);
                                }
                            } else {
                                let w = choose|w: int| 0 <= w < self.prenex_vars@.len() && self.prenex_vars@[w] == v;
                                assert(w == pk.len());
                                assert(keys@[i as int] == v);
                            }
                        }
                        assert forall|j: int| 0 <= j < i + 1 implies self.prenex_vars@.contains(#[trigger] keys@[j]) by {
                            if j < i {
                                let w = choose|w: int| 0 <= w < pk.len() && pk[w] == keys@[j];
                                assert(self.prenex_vars@[w] == keys@[j]);
                            } else {
                                assert(keys@[j] == k);
                                if !pk.contains(k) {
                                    assert(self.prenex_vars@[pk.len() as int] == k);
                                }
                            }
                        }
                        if law_ready(*old(self), sentences@) && self.errors@.len() == e0 {
                            lemma_prenex_named_mono(names0, interned(self.interner), p0);
                            assert(is_logic_var_cmavo(vars@[i as int]));
                            assert(is_logic_var_name(interned(self.interner)[k as int]));
                            assert forall|j: int| 0 <= j < self.prenex_vars@.len() implies #[trigger] self.prenex_vars@[j]
                                < interned(self.interner).len() && is_logic_var_name(
                                interned(self.interner)[self.prenex_vars@[j] as int],
                            ) by {
                                if j < p0.len() {
                                    assert(self.prenex_vars@[j] == p0[j]);
                                }
                            }
                        }
                        assert(self.prenex_vars@.subrange(0, saved_len as int) =~= p0.subrange(0, saved_len as int));
                    }
                    i = i + 1;
                }
                let ghost mid = interned(self.interner);
                let ghost s_mid = *self;
                let form = self.compile_sentence(*body, selbris, sumtis, sentences);
                proof {
                    if clean_run(*old(self), *self, sentences@) {
                        assert(s_mid.errors@.len() == e0);
                        assert(law_ready(s_mid, sentences@));
                        assert(clear_form(form, s_mid.prenex_vars@));
                        assert forall|v: u32| #[trigger] old(self).prenex_vars@.contains(v) implies s_mid.prenex_vars@.contains(v) by {
                            let j = choose|j: int| 0 <= j < old(self).prenex_vars@.len() && old(self).prenex_vars@[j] == v;
                            assert(s_mid.prenex_vars@.subrange(0, saved_len as int)[j] == v);
                            assert(s_mid.prenex_vars@[j] == v);
                        }
                        lemma_clear_sub(form, old(self).prenex_vars@, s_mid.prenex_vars@);
                        lemma_forall_all_clear(keys@, form, old(self).prenex_vars@);
                        lemma_clear_sub(form, keys@, s_mid.prenex_vars@);
                    }
                }
                self.prenex_vars.truncate(saved_len);
                proof {
                    assert(self.prenex_vars@ =~= old(self).prenex_vars@);
                    if self.errors@.len() == e0 {
                        assert forall|j: int| 0 <= j < keys@.len() implies #[trigger] keys@[j] < interned(
                            self.interner,
                        ).len() && interned(self.interner)[keys@[j] as int] == spec_cmavo_text(vars@[j]) by {
                            assert(mid[keys@[j] as int] == interned(self.interner)[keys@[j] as int]);
                        }
                    }
                }
                let ghost fg = form;
                let f = forall_all(&keys, form);
                assert(f == spec_forall_all(keys@, fg));
                proof {
                    if self.errors@.len() == e0 && giha_clause_free(old(sumtis)@, sentences@) {
                        assert(s_mid.errors@.len() == e0);
                        assert(free_sub(fg, open_vars(s_mid)));
                        assert forall|v: u32| #[trigger] occurs_free(fg, v) implies open_vars(*old(self)).union(keys@.to_set()).contains(v) by {
                            assert(open_vars(s_mid).contains(v));
                            if s_mid.prenex_vars@.contains(v) && !old(self).prenex_vars@.contains(v) {
                                assert(keys@.contains(v));
                                assert(keys@.to_set().contains(v));
                            }
                        }
                        lemma_forall_all_free(keys@, fg, open_vars(*old(self)));
                    }
                }
                proof {
                    if clean_run(*old(self), *self, sentences@) {
                        assert(clear_form(fg, keys@));
                        assert(prenex_kept(interned(self.interner), sentences@, id as int, f));
                    }
                }
                proof {
                    if old(self).pending_clause_subject is None && self.errors@.len() == e0 {
                        assert(sentence_compiled(interned(self.interner), selbris@, sumtis@, sentences@, old(self).kea, *body as int, fg));
                    }
                }
                f
            },
            Sentence::Connected(c, l, r) => {
                let lf = self.compile_sentence(*l, selbris, sumtis, sentences);
                let ghost n1 = interned(self.interner);
                let ghost u1 = sumtis@;
                let ghost e1 = self.errors@.len();
                let ghost s1 = *self;
                let rf = self.compile_sentence(*r, selbris, sumtis, sentences);
                let ghost (lg, rg) = (lf, rf);
                let f = sentence_join(*c, lf, rf);
                assert(f == spec_sentence_join(*c, lg, rg));
                proof {
                    if clean_run(*old(self), *self, sentences@) {
                        assert(e1 == e0);
                        lemma_ready_kept(*old(self), s1, sentences@);
                        assert(clear_form(lg, old(self).prenex_vars@));
                        assert(clear_form(rg, old(self).prenex_vars@));
                        lemma_join_clear(*c, lg, rg, old(self).prenex_vars@);
                    }
                    if self.errors@.len() == e0 && giha_clause_free(old(sumtis)@, sentences@) {
                        assert(e1 == e0);
                        lemma_giha_grow(selbris@, old(sumtis)@, u1, sentences@);
                        lemma_open_kept(*old(self), s1);
                        lemma_free_sub_mono(rg, open_vars(s1), open_vars(*old(self)));
                        lemma_sentence_join_free(*c, lg, rg, open_vars(*old(self)));
                    }
                    if old(self).pending_clause_subject is None && self.errors@.len() == e0 {
                        assert(e1 == e0);
                        lemma_compiled_lift(n1, interned(self.interner), u1, sumtis@, selbris@, sentences@, old(self).kea, *l as int, lg);
                    }
                }
                f
            },
            Sentence::SharedHead(head, tails) => self.compile_shared_head(
                head,
                tails,
                selbris,
                sumtis,
                sentences,
            ),
        }
    }

    /// Distribute a connected sumti: compile the predication once per operand (the
    /// operand under the same place tag or modal as the connected sumti) and join the
    /// two with the connective, the right one negated under `nai`.
    #[verifier::spinoff_prover]
    #[verifier::rlimit(40)]
    pub fn distribute_connected(
        &mut self,
        bridi: &Bridi,
        split: ConnectedSplit,
        selbris: &Vec<Selbri>,
        sumtis: &mut Vec<Sumti>,
        sentences: &Vec<Sentence>,
    ) -> (f: LogicalForm)
        requires
            ast_wf(selbris@, old(sumtis)@, sentences@),
            bridi_wf(*bridi, selbris@.len(), old(sumtis)@.len()),
            split.term_pos < bridi.head_terms@.len() + bridi.tail_terms@.len(),
            split_ok(selbris@.len(), old(sumtis)@.len(), split),
        ensures
            kept(*old(self), *final(self)),
            grown(selbris@, old(sumtis)@, final(sumtis)@, sentences@),
            final(self).errors@.len() == old(self).errors@.len() ==> exists|l: LogicalForm, r: LogicalForm|
                f == spec_join(split.connective, l, r),
            old(self).pending_clause_subject is None && final(self).errors@.len() == old(
                self,
            ).errors@.len() ==> exists|n: nat|
                split_compiled(
                    interned(final(self).interner),
                    selbris@,
                    final(sumtis)@,
                    old(self).kea,
                    *bridi,
                    split,
                    f,
                    n,
                ),
            final(self).pending_matrix_conjuncts@ == old(self).pending_matrix_conjuncts@,
            clean_run(*old(self), *final(self), sentences@) ==> clear_form(f, old(self).prenex_vars@),
            final(self).errors@.len() == old(self).errors@.len() && giha_clause_free(old(sumtis)@, sentences@) ==> free_sub(f, open_vars(*old(self))),
        decreases old(self).budget,
    {
        if !self.step() {
            return placeholder();
        }
        let (left_slot, right_slot) = match split.wrapper {
            ConnWrapper::Bare => (split.left_id, split.right_id),
            ConnWrapper::Place(tag) => {
                let a = push_sumti(selbris, sumtis, sentences, Sumti::Tagged(tag, split.left_id));
                let b = push_sumti(selbris, sumtis, sentences, Sumti::Tagged(tag, split.right_id));
                match (a, b) {
                    (Some(a), Some(b)) => (a, b),
                    _ => {
                        self.fail("too many sumti to distribute a connective".to_owned());
                        return placeholder();
                    },
                }
            },
            ConnWrapper::Modal(m) => {
                let a = push_sumti(selbris, sumtis, sentences, Sumti::ModalTagged(m, split.left_id));
                let b = push_sumti(
                    selbris,
                    sumtis,
                    sentences,
                    Sumti::ModalTagged(m, split.right_id),
                );
                match (a, b) {
                    (Some(a), Some(b)) => (a, b),
                    _ => {
                        self.fail("too many sumti to distribute a connective".to_owned());
                        return placeholder();
                    },
                }
            },
        };
        let ghost u_mid = sumtis@;
        assert(slot_for(u_mid, split.wrapper, split.left_id, left_slot));
        assert(slot_for(u_mid, split.wrapper, split.right_id, right_slot));
        let head_len = bridi.head_terms.len();
        let (lh, lt, rh, rt) = if split.term_pos < head_len {
            (
                with_term(&bridi.head_terms, split.term_pos, left_slot),
                copy_ids(&bridi.tail_terms),
                with_term(&bridi.head_terms, split.term_pos, right_slot),
                copy_ids(&bridi.tail_terms),
            )
        } else {
            (
                copy_ids(&bridi.head_terms),
                with_term(&bridi.tail_terms, split.term_pos - head_len, left_slot),
                copy_ids(&bridi.head_terms),
                with_term(&bridi.tail_terms, split.term_pos - head_len, right_slot),
            )
        };
        let left_bridi = Bridi {
            relation: bridi.relation,
            head_terms: lh,
            tail_terms: lt,
            negated: bridi.negated,
            tense: bridi.tense,
            attitudinal: bridi.attitudinal,
        };
        let right_bridi = Bridi {
            relation: bridi.relation,
            head_terms: rh,
            tail_terms: rt,
            negated: bridi.negated,
            tense: bridi.tense,
            attitudinal: bridi.attitudinal,
        };
        proof {
            let pos = split.term_pos as int;
            assert(bridi_terms(left_bridi) =~= bridi_terms(*bridi).update(pos, left_slot));
            assert(bridi_terms(right_bridi) =~= bridi_terms(*bridi).update(pos, right_slot));
            assert(split_parts(u_mid, *bridi, split, left_bridi, right_bridi));
            lemma_bridi_wf_terms(*bridi, selbris@.len(), old(sumtis)@.len());
            assert(terms_wf(bridi_terms(left_bridi), u_mid.len())) by {
                assert forall|k: int| 0 <= k < bridi_terms(left_bridi).len() implies #[trigger] bridi_terms(left_bridi)[k] < u_mid.len() by {
                    if k != pos {
                        assert(bridi_terms(left_bridi)[k] == bridi_terms(*bridi)[k]);
                    }
                }
            }
            assert(terms_wf(bridi_terms(right_bridi), u_mid.len())) by {
                assert forall|k: int| 0 <= k < bridi_terms(right_bridi).len() implies #[trigger] bridi_terms(right_bridi)[k] < u_mid.len() by {
                    if k != pos {
                        assert(bridi_terms(right_bridi)[k] == bridi_terms(*bridi)[k]);
                    }
                }
            }
            lemma_bridi_terms_wf(left_bridi, selbris@.len(), u_mid.len());
            lemma_bridi_terms_wf(right_bridi, selbris@.len(), u_mid.len());
        }
        let ghost e1 = self.errors@.len();
        let ghost s1 = *self;
        let left_form = self.compile_bridi(&left_bridi, selbris, sumtis, sentences);
        let ghost u_l = sumtis@;
        let ghost n_l = interned(self.interner);
        let ghost e2 = self.errors@.len();
        let ghost s2 = *self;
        let mut right_form = self.compile_bridi(&right_bridi, selbris, sumtis, sentences);
        let ghost rg0 = right_form;
        if split.right_negated {
            right_form = LogicalForm::Not(Box::new(right_form));
        }
        let ghost (lg, rg) = (left_form, right_form);
        let f = join(split.connective, left_form, right_form);
        assert(f == spec_join(split.connective, lg, rg));
        proof {
            if self.errors@.len() == old(self).errors@.len() && giha_clause_free(old(sumtis)@, sentences@) {
                assert(e1 == old(self).errors@.len() && e2 == e1);
                lemma_giha_grow(selbris@, old(sumtis)@, u_mid, sentences@);
                lemma_giha_grow(selbris@, old(sumtis)@, u_l, sentences@);
                lemma_open_kept(*old(self), s1);
                lemma_open_kept(*old(self), s2);
                lemma_free_sub_mono(lg, open_vars(s1), open_vars(*old(self)));
                lemma_free_sub_mono(rg0, open_vars(s2), open_vars(*old(self)));
                if split.right_negated {
                    lemma_not_free(rg0, open_vars(*old(self)));
                }
                lemma_join_free(split.connective, lg, rg, open_vars(*old(self)));
            }
            if clean_run(*old(self), *self, sentences@) {
                assert(e1 == old(self).errors@.len() && e2 == e1);
                lemma_ready_kept(*old(self), s1, sentences@);
                lemma_ready_kept(*old(self), s2, sentences@);
                assert(clear_form(lg, old(self).prenex_vars@));
                assert(clear_form(rg0, old(self).prenex_vars@));
                assert(clear_form(rg, old(self).prenex_vars@));
                lemma_connective_clear(split.connective, lg, rg, old(self).prenex_vars@);
            }
        }
        proof {
            if old(self).pending_clause_subject is None && self.errors@.len() == old(self).errors@.len() {
                assert(e1 == old(self).errors@.len());
                assert(e2 == old(self).errors@.len());
                lemma_split_sides(
                    n_l,
                    interned(self.interner),
                    u_mid,
                    u_l,
                    sumtis@,
                    selbris@,
                    sentences@,
                    old(self).kea,
                    *bridi,
                    split,
                    left_bridi,
                    right_bridi,
                    lg,
                    rg0,
                    f,
                );
            }
        }
        f
    }
}

/// The terms of a predication in order: head terms, then tail terms.
pub open spec fn bridi_terms(b: Bridi) -> Seq<u32> {
    b.head_terms@ + b.tail_terms@
}

/// Term `id` is a place tag naming a place beyond the first `arity`.
pub open spec fn tag_beyond(sumtis: Seq<Sumti>, id: int, arity: nat) -> bool {
    &&& 0 <= id < sumtis.len()
    &&& sumtis[id] matches Sumti::Tagged(tag, _)
    &&& spec_tag_index(tag) >= arity
}

/// What a predication's terms have built so far: the filled places, the next place an
/// untagged term takes, the scopes in surface order, the logic variables already
/// introduced, the modal terms and how many untagged terms found no place.
pub struct Frame {
    pub slots: Vec<Option<Term>>,
    pub next_place: usize,
    pub markers: Vec<ScopeMarker>,
    pub introduced: Vec<u32>,
    pub modals: Vec<(ModalTag, Term, Vec<QuantifierEntry>)>,
    pub overflow: usize,
}

/// The scope markers of a description's quantifiers, in order.
pub open spec fn spec_descs(quants: Seq<QuantifierEntry>) -> Seq<ScopeMarker> {
    quants.map_values(|q: QuantifierEntry| ScopeMarker::Desc(q))
}

/// Append a description's quantifiers to the scope markers, in order.
fn push_descs(markers: &mut Vec<ScopeMarker>, quants: Vec<QuantifierEntry>)
    ensures
        final(markers)@ == old(markers)@ + spec_descs(quants@),
{
    let ghost q0 = quants@;
    let mut quants = quants;
    let mut rev: Vec<QuantifierEntry> = Vec::new();
    while quants.len() > 0
        invariant
            q0 == quants@ + rev@.reverse(),
        decreases quants@.len(),
    {
        let ghost before = quants@;
        let q = quants.pop().unwrap();
        let ghost r0 = rev@;
        rev.push(q);
        assert(before == quants@.push(q));
        assert(rev@.reverse() =~= seq![q] + r0.reverse());
        assert(q0 =~= quants@ + rev@.reverse());
    }
    assert(quants@ =~= Seq::<QuantifierEntry>::empty());
    assert(q0 =~= rev@.reverse());
    while rev.len() > 0
        invariant
            markers@ == old(markers)@ + spec_descs(q0.subrange(0, q0.len() - rev@.len())),
            q0 == q0.subrange(0, q0.len() - rev@.len()) + rev@.reverse(),
            rev@.len() <= q0.len(),
        decreases rev@.len(),
    {
        let ghost r0 = rev@;
        let ghost m0 = markers@;
        let q = rev.pop().unwrap();
        markers.push(ScopeMarker::Desc(q));
        proof {
            let k = q0.len() - r0.len();
            assert(r0 == rev@.push(q));
            assert(r0.reverse() =~= seq![q] + rev@.reverse());
            assert(q0[k] == q) by {
                assert(q0 == q0.subrange(0, k) + r0.reverse());
            }
            assert(q0.subrange(0, k + 1) =~= q0.subrange(0, k).push(q));
            assert(spec_descs(q0.subrange(0, k + 1)) =~= spec_descs(q0.subrange(0, k)).push(ScopeMarker::Desc(q)));
            assert(markers@ =~= old(markers)@ + spec_descs(q0.subrange(0, k + 1)));
            assert(q0 =~= q0.subrange(0, k + 1) + rev@.reverse());
        }
    }
    assert(q0.subrange(0, q0.len() as int) =~= q0);
}

/// The first unfilled place at or after `from`, or the number of places.
pub open spec fn spec_first_free(slots: Seq<Option<Term>>, from: int) -> int
    decreases slots.len() - from,
{
    if from >= slots.len() {
        slots.len() as int
    } else if slots[from] is None {
        from
    } else {
        spec_first_free(slots, from + 1)
    }
}

/// The first unfilled place at or after `from`, or `slots.len()`.
fn first_free(slots: &Vec<Option<Term>>, from: usize) -> (k: usize)
    requires
        from <= slots@.len(),
    ensures
        from <= k <= slots@.len(),
        k < slots@.len() ==> slots@[k as int] is None,
        k == spec_first_free(slots@, from as int),
{
    let mut k = from;
    while k < slots.len() && slots[k].is_some()
        invariant
            from <= k <= slots@.len(),
            spec_first_free(slots@, from as int) == spec_first_free(slots@, k as int),
        decreases slots@.len() - k,
    {
        k = k + 1;
    }
    k
}

/// The sumti a term resolves through: the sumti under a place tag or modal, or the term
/// itself.
pub open spec fn term_target(sumtis: Seq<Sumti>, id: int) -> int {
    match sumtis[id] {
        Sumti::Tagged(_, inner) => inner as int,
        Sumti::ModalTagged(_, inner) => inner as int,
        _ => id,
    }
}

/// How many quantifiers sumti `id` introduces where it stands: one for a description
/// other than a `la` name, those of its inner sumti for a sumti with a relative clause,
/// none otherwise.
pub open spec fn quant_count(sumtis: Seq<Sumti>, id: int) -> nat
    decreases id,
{
    if !(0 <= id < sumtis.len()) {
        0
    } else {
        match sumtis[id] {
            Sumti::Description { gadri, .. } => if gadri == Gadri::La {
                0
            } else {
                1
            },
            Sumti::Restricted { inner, .. } => if 0 <= inner < id {
                quant_count(sumtis, inner as int)
            } else {
                0
            },
            _ => 0,
        }
    }
}

/// How many relative clauses of sumti `id` are conjoined to the predication it stands
/// in: each of its clauses, except a restrictive one on a sumti that introduces a
/// quantifier, which goes into that quantifier's restrictor instead.
pub open spec fn matrix_clause_count(sumtis: Seq<Sumti>, id: int) -> nat
    decreases id,
{
    if !(0 <= id < sumtis.len()) {
        0
    } else {
        match sumtis[id] {
            Sumti::Restricted { inner, restrictive, .. } => if 0 <= inner < id {
                matrix_clause_count(sumtis, inner as int) + if restrictive && quant_count(sumtis, inner as int)
                    > 0 {
                    0nat
                } else {
                    1nat
                }
            } else {
                0
            },
            _ => 0,
        }
    }
}

/// How many relative clauses the terms `terms` conjoin to their predication, in all.
pub open spec fn clause_total(sumtis: Seq<Sumti>, terms: Seq<u32>) -> nat
    decreases terms.len(),
{
    if terms.len() == 0 {
        0
    } else {
        clause_total(sumtis, terms.drop_last()) + matrix_clause_count(
            sumtis,
            term_target(sumtis, terms.last() as int),
        )
    }
}

/// The counts of a sumti read only the buffer up to it.
pub proof fn lemma_clause_counts_prefix(u1: Seq<Sumti>, u2: Seq<Sumti>, id: int)
    requires
        prefix_of(u1, u2),
        0 <= id < u1.len(),
    ensures
        quant_count(u1, id) == quant_count(u2, id),
        matrix_clause_count(u1, id) == matrix_clause_count(u2, id),
    decreases id,
{
    assert(u1[id] == u2[id]);
    if let Sumti::Restricted { inner, .. } = u1[id] {
        if 0 <= inner < id {
            lemma_clause_counts_prefix(u1, u2, inner as int);
        }
    }
}

/// The clause total of terms reads only the buffer up to them.
pub proof fn lemma_clause_total_prefix(u1: Seq<Sumti>, u2: Seq<Sumti>, terms: Seq<u32>)
    requires
        prefix_of(u1, u2),
        forall|k: int| 0 <= k < terms.len() ==> 0 <= term_target(u1, #[trigger] terms[k] as int) < u1.len()
            && terms[k] < u1.len(),
    ensures
        clause_total(u1, terms) == clause_total(u2, terms),
    decreases terms.len(),
{
    if terms.len() > 0 {
        assert forall|k: int| 0 <= k < terms.drop_last().len() implies 0 <= term_target(
            u1,
            #[trigger] terms.drop_last()[k] as int,
        ) < u1.len() && terms.drop_last()[k] < u1.len() by {
            assert(terms.drop_last()[k] == terms[k]);
        }
        lemma_clause_total_prefix(u1, u2, terms.drop_last());
        let t = terms.last() as int;
        assert(terms.last() == terms[terms.len() - 1]);
        assert(u1[t] == u2[t]);
        assert(term_target(u1, t) == term_target(u2, t));
        lemma_clause_counts_prefix(u1, u2, term_target(u1, t));
    }
}

/// One term placed, given the places filled so far and the next place an untagged term
/// takes: a place-tagged term takes its place when the selbri has it and it is free, and
/// the next untagged term goes after it; a modal term takes no place; an untagged term
/// takes the first free place from the next one on, or, when none is left, no place.
pub open spec fn spec_place_step(
    slots: Seq<Option<Term>>,
    next: int,
    node: Sumti,
    t: Term,
) -> (Seq<Option<Term>>, int) {
    match node {
        Sumti::Tagged(tag, _) => {
            let idx = spec_tag_index(tag) as int;
            if idx < slots.len() && slots[idx] is None {
                (slots.update(idx, Some(t)), idx + 1)
            } else {
                (slots, next)
            }
        },
        Sumti::ModalTagged(_, _) => (slots, next),
        _ => {
            let k = spec_first_free(slots, next);
            if k < slots.len() {
                (slots.update(k, Some(t)), k + 1)
            } else {
                (slots, slots.len() as int)
            }
        },
    }
}

/// The places after placing `terms`, resolved to `ts`, in order, from the places `init`
/// with `next0` the next place an untagged term takes.
pub open spec fn spec_placed_from(
    sumtis: Seq<Sumti>,
    terms: Seq<u32>,
    ts: Seq<Term>,
    init: Seq<Option<Term>>,
    next0: int,
) -> (Seq<Option<Term>>, int)
    decreases terms.len(),
{
    if terms.len() == 0 || ts.len() != terms.len() {
        (init, next0)
    } else {
        let (slots, next) = spec_placed_from(sumtis, terms.drop_last(), ts.drop_last(), init, next0);
        spec_place_step(slots, next, sumtis[terms.last() as int], ts.last())
    }
}

/// The places after placing `terms`, resolved to `ts`, in order, from the places `init`,
/// untagged terms starting at the first place.
pub open spec fn spec_placed(
    sumtis: Seq<Sumti>,
    terms: Seq<u32>,
    ts: Seq<Term>,
    init: Seq<Option<Term>>,
) -> (Seq<Option<Term>>, int) {
    spec_placed_from(sumtis, terms, ts, init, 0)
}

/// The argument list of places: an unfilled place is `Unspecified`.
pub open spec fn spec_slot_args(slots: Seq<Option<Term>>) -> Seq<Term> {
    slots.map_values(|o: Option<Term>| match o {
        Some(t) => t,
        None => Term::Unspecified,
    })
}

/// `arity` unfilled places.
pub open spec fn spec_empty_slots(arity: nat) -> Seq<Option<Term>> {
    Seq::new(arity, |i: int| None)
}

/// `n` in decimal.
pub(crate) fn decimal(n: u128) -> (s: String)
    ensures
        s@ == spec_decimal(n as nat),
{
    let mut digits: Vec<char> = Vec::new();
    let mut m = n;
    loop
        invariant_except_break
            spec_decimal(n as nat) == spec_decimal(m as nat) + digits@.reverse(),
        ensures
            spec_decimal(n as nat) == digits@.reverse(),
        decreases m,
    {
        let d = m % 10;
        let c = if d == 0 {
            '0'
        } else if d == 1 {
            '1'
        } else if d == 2 {
            '2'
        } else if d == 3 {
            '3'
        } else if d == 4 {
            '4'
        } else if d == 5 {
            '5'
        } else if d == 6 {
            '6'
        } else if d == 7 {
            '7'
        } else if d == 8 {
            '8'
        } else {
            '9'
        };
        assert(c == spec_digit_char(d as nat));
        let ghost before = digits@;
        digits.push(c);
        assert(digits@.reverse() =~= seq![c] + before.reverse());
        let m0 = m;
        m = m / 10;
        if m == 0 {
            assert(spec_decimal(m0 as nat) == seq![c]);
            break ;
        }
        assert(spec_decimal(m0 as nat) == spec_decimal(m as nat).push(c));
        assert(spec_decimal(m as nat).push(c) + before.reverse() =~= spec_decimal(m as nat) + digits@.reverse());
    }
    let mut out: Vec<char> = Vec::new();
    let mut i = digits.len();
    while i > 0
        invariant
            i <= digits@.len(),
            out@ =~= digits@.reverse().subrange(0, digits@.len() - i),
        decreases i,
    {
        i = i - 1;
        out.push(digits[i]);
        assert(out@ =~= digits@.reverse().subrange(0, digits@.len() - i));
    }
    crate::lexer::string_of(&out)
}

/// The error for a place tag `tag` beyond the `arity` places of the selbri.
pub open spec fn spec_tag_beyond_message(tag: PlaceTag, arity: nat) -> Seq<char> {
    "Place tag `"@ + spec_tag_name(tag) + "` targets place x"@ + spec_decimal(spec_tag_index(tag) + 1)
        + ", but the selbri only has "@ + spec_decimal(arity) + " place(s); the tagged term cannot be placed."@
}

/// The error for a place tag `tag` whose place is already filled.
pub open spec fn spec_tag_filled_message(tag: PlaceTag) -> Seq<char> {
    "Place tag `"@ + spec_tag_name(tag) + "` targets place x"@ + spec_decimal(spec_tag_index(tag) + 1)
        + ", which is already filled; the same place cannot be set twice."@
}

/// The error for a place tag beyond the selbri's places.
fn tag_beyond_arity_message(tag: PlaceTag, arity: usize) -> (s: String)
    ensures
        s@ == spec_tag_beyond_message(tag, arity as nat),
{
    let mut s = "Place tag `".to_owned();
    s.append(tag.name());
    s.append("` targets place x");
    s.append(decimal(tag.to_index() as u128 + 1).as_str());
    s.append(", but the selbri only has ");
    s.append(decimal(arity as u128).as_str());
    s.append(" place(s); the tagged term cannot be placed.");
    s
}

/// The error for a place tag whose place is already filled.
fn tag_filled_message(tag: PlaceTag) -> (s: String)
    ensures
        s@ == spec_tag_filled_message(tag),
{
    let mut s = "Place tag `".to_owned();
    s.append(tag.name());
    s.append("` targets place x");
    s.append(decimal(tag.to_index() as u128 + 1).as_str());
    s.append(", which is already filled; the same place cannot be set twice.");
    s
}

/// The error for `extra` untagged sumti beyond the `arity` places of the selbri `head`:
/// `du` has its own message.
pub open spec fn spec_overflow_message(head: Seq<char>, extra: nat, arity: nat) -> Seq<char> {
    if head == "du"@ {
        "`du` (identity) is a 2-place relation, but "@ + spec_decimal(extra)
            + " extra sumti were supplied; n-ary identity is unsupported."@
    } else {
        spec_decimal(extra) + " untagged sumti overflow the selbri `"@ + head + "`'s "@ + spec_decimal(arity)
            + " place(s); the extra sumti cannot be placed."@
    }
}

/// The error for untagged sumti beyond the selbri's places.
fn overflow_message(head: &str, extra: usize, arity: usize) -> (s: String)
    ensures
        s@ == spec_overflow_message(head@, extra as nat, arity as nat),
{
    if str_equal(head, "du") {
        let mut s = "`du` (identity) is a 2-place relation, but ".to_owned();
        s.append(decimal(extra as u128).as_str());
        s.append(" extra sumti were supplied; n-ary identity is unsupported.");
        s
    } else {
        let mut s = decimal(extra as u128);
        s.append(" untagged sumti overflow the selbri `");
        s.append(head);
        s.append("`'s ");
        s.append(decimal(arity as u128).as_str());
        s.append(" place(s); the extra sumti cannot be placed.");
        s
    }
}

/// The error for a modal tag whose selbri `name` has fewer than 2 places.
pub open spec fn spec_modal_arity_message(name: Seq<char>, arity: nat) -> Seq<char> {
    "Modal tag `"@ + name + "` maps to a "@ + spec_decimal(arity)
        + "-place selbri, but a modal needs at least 2 places (x1 = the tag's own sumti, x2 = the main bridi's x1 link); the main bridi's x1 cannot be carried."@
}

/// The error for a modal tag whose selbri has fewer than 2 places.
fn modal_arity_message(name: &str, arity: usize) -> (s: String)
    ensures
        s@ == spec_modal_arity_message(name@, arity as nat),
{
    let mut s = "Modal tag `".to_owned();
    s.append(name);
    s.append("` maps to a ");
    s.append(decimal(arity as u128).as_str());
    s.append(
        "-place selbri, but a modal needs at least 2 places (x1 = the tag's own sumti, x2 = the main bridi's x1 link); the main bridi's x1 cannot be carried.",
    );
    s
}

/// The error for a shared GIhA head position `place` beyond the `arity` places of a
/// tail's selbri.
pub open spec fn spec_head_beyond_message(place: nat, arity: nat) -> Seq<char> {
    "the shared GIhA head fills place x"@ + spec_decimal(place + 1) + ", but this tail's selbri has only "@
        + spec_decimal(arity) + " place(s); the shared head cannot be placed."@
}

/// The error for a shared GIhA head position beyond a tail's places.
fn head_beyond_message(place: usize, arity: usize) -> (s: String)
    ensures
        s@ == spec_head_beyond_message(place as nat, arity as nat),
{
    let mut s = "the shared GIhA head fills place x".to_owned();
    s.append(decimal(place as u128 + 1).as_str());
    s.append(", but this tail's selbri has only ");
    s.append(decimal(arity as u128).as_str());
    s.append(" place(s); the shared head cannot be placed.");
    s
}

/// `form` with each of `cs` conjoined on its right in turn: the first innermost.
pub open spec fn conjoin_all(form: LogicalForm, cs: Seq<LogicalForm>) -> LogicalForm
    decreases cs.len(),
{
    if cs.len() == 0 {
        form
    } else {
        LogicalForm::And(Box::new(conjoin_all(form, cs.drop_last())), Box::new(cs.last()))
    }
}

/// `h` is `g` with formulas conjoined on its right and variables closed existentially
/// around it, any number of times in any order.
pub open spec fn extends(h: LogicalForm, g: LogicalForm) -> bool
    decreases h,
{
    h == g || match h {
        LogicalForm::And(l, _) => extends(*l, g),
        LogicalForm::Exists(_, b) => extends(*b, g),
        _ => false,
    }
}

/// Extending an extension extends the original.
pub proof fn lemma_extends_trans(a: LogicalForm, b: LogicalForm, c: LogicalForm)
    requires
        extends(a, b),
        extends(b, c),
    ensures
        extends(a, c),
    decreases a,
{
    if a != b {
        match a {
            LogicalForm::And(l, _) => lemma_extends_trans(*l, b, c),
            LogicalForm::Exists(_, x) => lemma_extends_trans(*x, b, c),
            _ => {},
        }
    }
}

/// Message `msg` is among the errors recorded after `before`.
pub open spec fn error_pushed(before: Seq<String>, after: Seq<String>, msg: Seq<char>) -> bool {
    exists|i: int| before.len() <= i < after.len() && (#[trigger] after[i])@ == msg
}

/// The error recorded once the step budget is spent.
pub open spec fn spec_budget_message() -> Seq<char> {
    "the sentence is too large to compile"@
}

/// The place tag of term `id`, when it is a place-tagged term.
pub open spec fn spec_tag_of(sumtis: Seq<Sumti>, id: int) -> PlaceTag {
    match sumtis[id] {
        Sumti::Tagged(tag, _) => tag,
        _ => PlaceTag::Fa,
    }
}

/// A message recorded after a later point was recorded after an earlier one too.
pub proof fn lemma_error_pushed_from(a: Seq<String>, b: Seq<String>, c: Seq<String>, msg: Seq<char>)
    requires
        error_pushed(b, c, msg),
        a.len() <= b.len(),
    ensures
        error_pushed(a, c, msg),
{
    let i = choose|i: int| b.len() <= i < c.len() && (#[trigger] c[i])@ == msg;
    assert(a.len() <= i < c.len() && c[i]@ == msg);
}

/// A message recorded stays recorded as more are added.
pub proof fn lemma_error_pushed_grow(a: Seq<String>, b: Seq<String>, c: Seq<String>, msg: Seq<char>)
    requires
        error_pushed(a, b, msg),
        prefix_of(b, c),
    ensures
        error_pushed(a, c, msg),
{
    let i = choose|i: int| a.len() <= i < b.len() && (#[trigger] b[i])@ == msg;
    assert(c[i] == b[i]);
}

impl SemanticCompiler {
    /// Resolve one term of a predication and put it in its place: a place-tagged term in
    /// the tagged place (an error if the selbri has no such place, or it is filled), a
    /// modal term aside for its modal predicate, an untagged term in the next free place
    /// after the last one filled.
    fn place_term(
        &mut self,
        term_id: u32,
        frame: &mut Frame,
        arity: usize,
        selbris: &Vec<Selbri>,
        sumtis: &mut Vec<Sumti>,
        sentences: &Vec<Sentence>,
    ) -> (t: Term)
        requires
            ast_wf(selbris@, old(sumtis)@, sentences@),
            term_id < old(sumtis)@.len(),
            old(frame).slots@.len() == arity,
            old(frame).next_place <= arity,
        ensures
            kept(*old(self), *final(self)),
            grown(selbris@, old(sumtis)@, final(sumtis)@, sentences@),
            final(frame).slots@.len() == arity,
            final(frame).next_place <= arity,
            tag_beyond(old(sumtis)@, term_id as int, arity as nat) ==> final(self).errors@.len()
                > old(self).errors@.len(),
            unresolvable(old(sumtis)@, term_target(old(sumtis)@, term_id as int), old(self).kea)
                ==> final(self).errors@.len() > old(self).errors@.len(),
            (old(sumtis)@[term_id as int] matches Sumti::Tagged(tag, _) && spec_tag_index(tag) < arity
                && old(frame).slots@[spec_tag_index(tag) as int] is Some) ==> final(self).errors@.len()
                > old(self).errors@.len(),
            old(self).budget == 0 ==> error_pushed(old(self).errors@, final(self).errors@, spec_budget_message()),
            old(self).budget > 0 ==> (old(sumtis)@[term_id as int] matches Sumti::Tagged(tag, _) ==> {
                &&& spec_tag_index(tag) >= arity ==> error_pushed(
                    old(self).errors@,
                    final(self).errors@,
                    spec_tag_beyond_message(tag, arity as nat),
                )
                &&& spec_tag_index(tag) < arity && old(frame).slots@[spec_tag_index(tag) as int] is Some
                    ==> error_pushed(old(self).errors@, final(self).errors@, spec_tag_filled_message(tag))
            }),
            final(self).errors@.len() == old(self).errors@.len() ==> {
                &&& resolved_term(
                    old(sumtis)@,
                    term_target(old(sumtis)@, term_id as int),
                    old(self).kea,
                    selbris@,
                    interned(final(self).interner),
                    t,
                )
                &&& (final(frame).slots@, final(frame).next_place as int) == spec_place_step(
                    old(frame).slots@,
                    old(frame).next_place as int,
                    old(sumtis)@[term_id as int],
                    t,
                )
                &&& spec_modal_pairs(final(frame).modals@) == match old(sumtis)@[term_id as int] {
                    Sumti::ModalTagged(m, _) => spec_modal_pairs(old(frame).modals@).push((m, t)),
                    _ => spec_modal_pairs(old(frame).modals@),
                }
                &&& exists|q: Seq<QuantifierEntry>|
                    #[trigger] term_scope(
                        old(sumtis)@[term_target(old(sumtis)@, term_id as int)],
                        old(sumtis)@[term_id as int],
                        selbris@,
                        interned(final(self).interner),
                        t,
                        q,
                        old(frame).markers@,
                        final(frame).markers@,
                        old(frame).modals@,
                        final(frame).modals@,
                    )
            },
            prefix_of(old(self).pending_matrix_conjuncts@, final(self).pending_matrix_conjuncts@),
            prefix_of(old(frame).markers@, final(frame).markers@),
            prefix_of(old(frame).modals@, final(frame).modals@),
            clean_run(*old(self), *final(self), sentences@) ==> {
                &&& clear_forms(
                    added(old(self).pending_matrix_conjuncts@, final(self).pending_matrix_conjuncts@),
                    old(self).prenex_vars@,
                )
                &&& clear_markers(added(old(frame).markers@, final(frame).markers@), old(self).prenex_vars@)
                &&& forall|j: int|
                    old(frame).modals@.len() <= j < final(frame).modals@.len() ==> clear_quants(
                        #[trigger] final(frame).modals@[j].2@,
                        old(self).prenex_vars@,
                    )
            },
            intro_marked(old(frame).introduced@, old(frame).markers@) ==> intro_marked(
                final(frame).introduced@,
                final(frame).markers@,
            ),
            forall|i: int|
                0 <= i < final(frame).slots@.len() ==> (#[trigger] final(frame).slots@[i] is Some
                    ==> final(frame).slots@[i] == old(frame).slots@[i] || final(frame).slots@[i] == Some(t)),
            clause_free(old(sumtis)@, term_id as int) ==> final(self).pending_matrix_conjuncts@ == old(
                self,
            ).pending_matrix_conjuncts@,
            final(self).errors@.len() == old(self).errors@.len() ==> added(
                old(self).pending_matrix_conjuncts@,
                final(self).pending_matrix_conjuncts@,
            ).len() == matrix_clause_count(old(sumtis)@, term_target(old(sumtis)@, term_id as int)),
            final(self).errors@.len() == old(self).errors@.len() && giha_clause_free(old(sumtis)@, sentences@) ==> term_placed_open(
                *old(self),
                *final(self),
                t,
                *old(frame),
                *final(frame),
            ),
        decreases old(self).budget,
    {
        if !self.step() {
            return Term::Unspecified;
        }
        proof {
            lemma_wf_nodes(selbris@, sumtis@, sentences@);
            assert(sumti_wf(sumtis@, selbris@.len(), sentences@.len(), term_id as int));
        }
        let ghost s_b = *self;
        let node = copy_sumti(&sumtis[term_id as usize]);
        match node {
            Sumti::Tagged(tag, inner) => {
                let ghost e0 = self.errors@.len();
                proof {
                    if clause_free(old(sumtis)@, term_id as int) {
                        assert(clause_free(old(sumtis)@, inner as int));
                        assert(!(old(sumtis)@[inner as int] is Restricted));
                    }
                }
                let (term, quants) = self.resolve_sumti(inner, selbris, sumtis, sentences);
                let ghost q = quants@;
                let ghost s_r = *self;
                let ghost mk0 = frame.markers@;
                self.record_bare_marker(term, &mut frame.introduced, &mut frame.markers);
                let ghost mk1 = frame.markers@;
                push_descs(&mut frame.markers, quants);
                proof {
                    lemma_markers_concat(mk1, spec_descs(q), Set::empty());
                }
                proof {
                    if law_ready(*old(self), sentences@) && s_r.errors@.len() == old(self).errors@.len() {
                        lemma_ready_kept(*old(self), s_b, sentences@);
                        assert(clear_quants(q, old(self).prenex_vars@));
                        lemma_descs_clear(mk0, mk1, q, old(self).prenex_vars@);
                    }
                    lemma_desc_quants_add(mk1, spec_descs(q));
                    lemma_desc_quants_descs(q);
                    if mk1 != mk0 {
                        assert(mk1.drop_last() =~= mk0);
                    }
                }
                let idx = tag.to_index();
                let ghost n = self.errors@.len();
                if idx >= arity {
                    self.fail(tag_beyond_arity_message(tag, arity));
                    assert(self.errors@[n as int]@ == spec_tag_beyond_message(tag, arity as nat));
                } else if frame.slots[idx].is_some() {
                    self.fail(tag_filled_message(tag));
                    assert(self.errors@[n as int]@ == spec_tag_filled_message(tag));
                } else {
                    frame.slots.set(idx, Some(term));
                    frame.next_place = idx + 1;
                }
                proof {
                    if self.errors@.len() == old(self).errors@.len() && giha_clause_free(old(sumtis)@, sentences@) {
                        let so = open_vars(*old(self));
                        assert(s_r.errors@.len() == old(self).errors@.len());
                        assert(open_vars(s_b) =~= so);
                        assert(resolved_open(s_b, s_r, term, q));
                        lemma_scope_push(mk0, mk1, q, so);
                        assert(frame.markers@ == mk1 + spec_descs(q));
                        if intro_marked(old(frame).introduced@, old(frame).markers@) {
                            if let Term::Variable(k) = term {
                                if q.len() > 0 {
                                    assert(q[q.len() - 1].var == k);
                                    assert(quant_vars(q).contains(k));
                                } else if old(self).kea == Some(Term::Variable(k)) {
                                    assert(so.contains(k));
                                } else {
                                    assert(self.prenex_vars@.contains(k) || marker_vars(mk1).contains(k));
                                }
                                assert(scoped(so, frame.markers@, frame.modals@, k));
                            }
                        }
                    }
                }
                proof {
                    if self.errors@.len() == old(self).errors@.len() {
                        assert(term_target(old(sumtis)@, term_id as int) == inner as int);
                        assert(term_scope(old(sumtis)@[inner as int], old(sumtis)@[term_id as int], selbris@, interned(self.interner), term, q, old(frame).markers@, frame.markers@, old(frame).modals@, frame.modals@));
                        assert(exists|q: Seq<QuantifierEntry>| #[trigger] term_scope(
                            old(sumtis)@[term_target(old(sumtis)@, term_id as int)],
                            old(sumtis)@[term_id as int],
                            selbris@,
                            interned(self.interner),
                            term,
                            q,
                            old(frame).markers@,
                            frame.markers@,
                            old(frame).modals@,
                            frame.modals@,
                        ));
                    }
                }
                term
            },
            Sumti::ModalTagged(m, inner) => {
                proof {
                    if clause_free(old(sumtis)@, term_id as int) {
                        assert(clause_free(old(sumtis)@, inner as int));
                        assert(!(old(sumtis)@[inner as int] is Restricted));
                    }
                }
                let (term, quants) = self.resolve_sumti(inner, selbris, sumtis, sentences);
                let ghost q = quants@;
                let ghost s_r = *self;
                let ghost mk0 = frame.markers@;
                self.record_bare_marker(term, &mut frame.introduced, &mut frame.markers);
                let ghost m_before = frame.modals@;
                frame.modals.push((m, term, quants));
                assert(spec_modal_pairs(frame.modals@) =~= spec_modal_pairs(m_before).push((m, term)));
                proof {
                    if self.errors@.len() == old(self).errors@.len() && giha_clause_free(old(sumtis)@, sentences@) {
                        let so = open_vars(*old(self));
                        assert(s_r.errors@.len() == old(self).errors@.len());
                        assert(open_vars(s_b) =~= so);
                        assert(resolved_open(s_b, s_r, term, q));
                        lemma_bare_within(added(mk0, frame.markers@), so);
                        assert(frame.modals@[m_before.len() as int] == (m, term, quants));
                        assert(frame.modals@[m_before.len() as int].2@ == q);
                        if intro_marked(old(frame).introduced@, old(frame).markers@) {
                            if let Term::Variable(k) = term {
                                if q.len() > 0 {
                                    assert(q[q.len() - 1].var == k);
                                    assert(quant_vars(frame.modals@[m_before.len() as int].2@).contains(k));
                                } else if old(self).kea == Some(Term::Variable(k)) {
                                    assert(so.contains(k));
                                } else {
                                    assert(self.prenex_vars@.contains(k) || marker_vars(frame.markers@).contains(k));
                                }
                                assert(scoped(so, frame.markers@, frame.modals@, k));
                            }
                        }
                    }
                }
                proof {
                    if law_ready(*old(self), sentences@) && s_r.errors@.len() == old(self).errors@.len() {
                        lemma_ready_kept(*old(self), s_b, sentences@);
                        assert(clear_quants(q, old(self).prenex_vars@));
                        assert(frame.modals@[m_before.len() as int].2@ == q);
                    }
                    if frame.markers@ != mk0 {
                        assert(frame.markers@.drop_last() =~= mk0);
                    }
                    assert(frame.modals@.drop_last() =~= m_before);
                    if self.errors@.len() == old(self).errors@.len() {
                        assert(term_target(old(sumtis)@, term_id as int) == inner as int);
                        assert(term_scope(old(sumtis)@[inner as int], old(sumtis)@[term_id as int], selbris@, interned(self.interner), term, q, old(frame).markers@, frame.markers@, old(frame).modals@, frame.modals@));
                        assert(exists|q: Seq<QuantifierEntry>| #[trigger] term_scope(
                            old(sumtis)@[term_target(old(sumtis)@, term_id as int)],
                            old(sumtis)@[term_id as int],
                            selbris@,
                            interned(self.interner),
                            term,
                            q,
                            old(frame).markers@,
                            frame.markers@,
                            old(frame).modals@,
                            frame.modals@,
                        ));
                    }
                }
                term
            },
            _ => {
                let (term, quants) = self.resolve_sumti(term_id, selbris, sumtis, sentences);
                let ghost q = quants@;
                let ghost s_r = *self;
                let ghost mk0 = frame.markers@;
                self.record_bare_marker(term, &mut frame.introduced, &mut frame.markers);
                let ghost mk1 = frame.markers@;
                push_descs(&mut frame.markers, quants);
                proof {
                    lemma_markers_concat(mk1, spec_descs(q), Set::empty());
                }
                proof {
                    if self.errors@.len() == old(self).errors@.len() && giha_clause_free(old(sumtis)@, sentences@) {
                        let so = open_vars(*old(self));
                        assert(s_r.errors@.len() == old(self).errors@.len());
                        assert(open_vars(s_b) =~= so);
                        assert(resolved_open(s_b, s_r, term, q));
                        lemma_scope_push(mk0, mk1, q, so);
                        assert(frame.markers@ == mk1 + spec_descs(q));
                        if intro_marked(old(frame).introduced@, old(frame).markers@) {
                            if let Term::Variable(k) = term {
                                if q.len() > 0 {
                                    assert(q[q.len() - 1].var == k);
                                    assert(quant_vars(q).contains(k));
                                } else if old(self).kea == Some(Term::Variable(k)) {
                                    assert(so.contains(k));
                                } else {
                                    assert(self.prenex_vars@.contains(k) || marker_vars(mk1).contains(k));
                                }
                                assert(scoped(so, frame.markers@, frame.modals@, k));
                            }
                        }
                    }
                }
                proof {
                    if law_ready(*old(self), sentences@) && s_r.errors@.len() == old(self).errors@.len() {
                        lemma_ready_kept(*old(self), s_b, sentences@);
                        assert(clear_quants(q, old(self).prenex_vars@));
                        lemma_descs_clear(mk0, mk1, q, old(self).prenex_vars@);
                    }
                    lemma_desc_quants_add(mk1, spec_descs(q));
                    lemma_desc_quants_descs(q);
                    if mk1 != mk0 {
                        assert(mk1.drop_last() =~= mk0);
                    }
                    if self.errors@.len() == old(self).errors@.len() {
                        assert(term_scope(old(sumtis)@[term_id as int], old(sumtis)@[term_id as int], selbris@, interned(self.interner), term, q, old(frame).markers@, frame.markers@, old(frame).modals@, frame.modals@));
                    }
                }
                let k = first_free(&frame.slots, frame.next_place);
                if k < arity {
                    frame.slots.set(k, Some(term));
                    frame.next_place = k + 1;
                } else {
                    frame.next_place = arity;
                    if frame.overflow < usize::MAX {
                        frame.overflow = frame.overflow + 1;
                    }
                }
                proof {
                    if self.errors@.len() == old(self).errors@.len() {
                        assert(term_target(old(sumtis)@, term_id as int) == term_id as int);
                        assert(spec_desc_quants(frame.markers@) == spec_desc_quants(old(frame).markers@) + q);
                        assert(term_scope(old(sumtis)@[term_target(old(sumtis)@, term_id as int)], old(sumtis)@[term_id as int], selbris@, interned(self.interner), term, q, old(frame).markers@, frame.markers@, old(frame).modals@, frame.modals@));
                        assert(exists|q: Seq<QuantifierEntry>| #[trigger] term_scope(
                            old(sumtis)@[term_target(old(sumtis)@, term_id as int)],
                            old(sumtis)@[term_id as int],
                            selbris@,
                            interned(self.interner),
                            term,
                            q,
                            old(frame).markers@,
                            frame.markers@,
                            old(frame).modals@,
                            frame.modals@,
                        ));
                    }
                }
                term
            },
        }
    }

    /// Conjoin each modal term's predicate: the modal's selbri with the tagged term in
    /// x1 and the main predication's x1 in x2. A modal selbri with fewer than two places
    /// cannot carry that link, and is an error.
    fn conjoin_modals(
        &mut self,
        form: LogicalForm,
        modals: Vec<(ModalTag, Term, Vec<QuantifierEntry>)>,
        main_x1: Term,
        markers: &mut Vec<ScopeMarker>,
        selbris: &Vec<Selbri>,
    ) -> (f: LogicalForm)
        ensures
            kept(*old(self), *final(self)),
            extends(f, form),
            final(self).errors@.len() == old(self).errors@.len() ==> modals_conjoined(
                interned(final(self).interner),
                selbris@,
                form,
                spec_modal_pairs(modals@),
                main_x1,
                f,
            ),
            (exists|j: int| 0 <= j < modals@.len() && #[trigger] spec_modal_arity(selbris@, modals@[j].0) < 2)
                ==> final(self).errors@.len() > old(self).errors@.len(),
            forall|j: int|
                0 <= j < modals@.len() && #[trigger] spec_modal_arity(selbris@, modals@[j].0) < 2 ==> error_pushed(
                    old(self).errors@,
                    final(self).errors@,
                    spec_modal_arity_message(
                        spec_modal_name(selbris@, modals@[j].0),
                        spec_modal_arity(selbris@, modals@[j].0),
                    ),
                ),
            spec_desc_quants(final(markers)@) == spec_desc_quants(old(markers)@) + spec_modal_entry_quants(modals@),
            prefix_of(old(markers)@, final(markers)@),
            clear_form(form, old(self).prenex_vars@) ==> clear_form(f, old(self).prenex_vars@),
            (forall|j: int| 0 <= j < modals@.len() ==> clear_quants(#[trigger] modals@[j].2@, old(self).prenex_vars@))
                ==> clear_markers(added(old(markers)@, final(markers)@), old(self).prenex_vars@),
            final(self).pending_matrix_conjuncts == old(self).pending_matrix_conjuncts,
            added(old(markers)@, final(markers)@) == spec_descs(spec_modal_entry_quants(modals@)),
            forall|k: u32| #[trigger] occurs_free(f, k) ==> occurs_free(form, k) || main_x1 == Term::Variable(k)
                || exists|j: int| 0 <= j < modals@.len() && #[trigger] modals@[j].1 == Term::Variable(k),
    {
        let ghost form0 = form;
        let ghost m0 = modals@;
        let ghost e0 = self.errors@.len();
        let mut form = form;
        let mut modals = modals;
        let mut rev: Vec<(ModalTag, Term, Vec<QuantifierEntry>)> = Vec::new();
        while modals.len() > 0
            invariant
                m0 == modals@ + rev@.reverse(),
            decreases modals@.len(),
        {
            let ghost before = modals@;
            let ghost r0 = rev@;
            let m = modals.pop().unwrap();
            rev.push(m);
            assert(before == modals@.push(m));
            assert(rev@.reverse() =~= seq![m] + r0.reverse());
            assert(m0 =~= modals@ + rev@.reverse());
        }
        assert(modals@ =~= Seq::<(ModalTag, Term, Vec<QuantifierEntry>)>::empty());
        assert(m0 =~= rev@.reverse());
        assert(spec_modal_pairs(m0.subrange(0, 0)) =~= Seq::<(ModalTag, Term)>::empty());
        assert(spec_modal_entry_quants(m0.subrange(0, 0)) =~= Seq::<QuantifierEntry>::empty());
        assert(spec_desc_quants(markers@) == spec_desc_quants(old(markers)@) + spec_modal_entry_quants(m0.subrange(0, 0)));
        while rev.len() > 0
            invariant
                kept(*old(self), *self),
                self.pending_matrix_conjuncts == old(self).pending_matrix_conjuncts,
                extends(form, form0),
                rev@.len() <= m0.len(),
                m0 == m0.subrange(0, m0.len() - rev@.len()) + rev@.reverse(),
                e0 == old(self).errors@.len(),
                e0 <= self.errors@.len(),
                self.errors@.len() == e0 ==> modals_conjoined(
                    interned(self.interner),
                    selbris@,
                    form0,
                    spec_modal_pairs(m0.subrange(0, m0.len() - rev@.len())),
                    main_x1,
                    form,
                ),
                (exists|j: int| 0 <= j < m0.len() - rev@.len() && #[trigger] spec_modal_arity(selbris@, m0[j].0) < 2)
                    ==> self.errors@.len() > e0,
                forall|j: int|
                    0 <= j < m0.len() - rev@.len() && #[trigger] spec_modal_arity(selbris@, m0[j].0) < 2 ==> error_pushed(
                        old(self).errors@,
                        self.errors@,
                        spec_modal_arity_message(spec_modal_name(selbris@, m0[j].0), spec_modal_arity(selbris@, m0[j].0)),
                    ),
                spec_desc_quants(markers@) == spec_desc_quants(old(markers)@) + spec_modal_entry_quants(
                    m0.subrange(0, m0.len() - rev@.len()),
                ),
                prefix_of(old(markers)@, markers@),
                clear_form(form0, old(self).prenex_vars@) ==> clear_form(form, old(self).prenex_vars@),
                (forall|j: int| 0 <= j < m0.len() ==> clear_quants(#[trigger] m0[j].2@, old(self).prenex_vars@))
                    ==> clear_markers(added(old(markers)@, markers@), old(self).prenex_vars@),
                added(old(markers)@, markers@) == spec_descs(spec_modal_entry_quants(m0.subrange(0, m0.len() - rev@.len()))),
                forall|k: u32| #[trigger] occurs_free(form, k) ==> occurs_free(form0, k) || main_x1 == Term::Variable(k)
                    || exists|j: int| 0 <= j < m0.len() && #[trigger] m0[j].1 == Term::Variable(k),
            decreases rev@.len(),
        {
            let ghost r0 = rev@;
            let ghost errs_b = self.errors@;
            let ghost k = m0.len() - r0.len();
            let ghost names0 = interned(self.interner);
            let ghost fb = form;
            let (tag, tagged, quants) = rev.pop().unwrap();
            proof {
                assert(r0 == rev@.push((tag, tagged, quants)));
                assert(r0.reverse() =~= seq![(tag, tagged, quants)] + rev@.reverse());
                assert(m0[k] == (tag, tagged, quants)) by {
                    assert(m0 == m0.subrange(0, k) + r0.reverse());
                }
                assert(m0.subrange(0, k + 1) =~= m0.subrange(0, k).push((tag, tagged, quants)));
                assert(spec_modal_pairs(m0.subrange(0, k + 1)) =~= spec_modal_pairs(m0.subrange(0, k)).push((tag, tagged)));
                assert(m0 =~= m0.subrange(0, k + 1) + rev@.reverse());
            }
            let ghost qv = quants@;
            let ghost mk0 = markers@;
            push_descs(markers, quants);
            proof {
                if forall|j: int| 0 <= j < m0.len() ==> clear_quants(#[trigger] m0[j].2@, old(self).prenex_vars@) {
                    assert(clear_quants(m0[k].2@, old(self).prenex_vars@));
                    assert(qv == m0[k].2@);
                    let a0 = added(old(markers)@, mk0);
                    let a1 = added(old(markers)@, markers@);
                    assert(a1 =~= a0 + spec_descs(qv));
                    assert forall|i: int| 0 <= i < a1.len() implies match #[trigger] a1[i] {
                        ScopeMarker::Bare(v) => !old(self).prenex_vars@.contains(v),
                        ScopeMarker::Desc(q) => !old(self).prenex_vars@.contains(q.var) && clear_form(q.restrictor, old(self).prenex_vars@),
                    } by {
                        if i < a0.len() {
                            assert(a1[i] == a0[i]);
                        } else {
                            let j = i - a0.len();
                            assert(a1[i] == ScopeMarker::Desc(qv[j]));
                            assert(!old(self).prenex_vars@.contains(qv[j].var));
                            assert(clear_form(qv[j].restrictor, old(self).prenex_vars@));
                        }
                    }
                }
                lemma_desc_quants_add(mk0, spec_descs(qv));
                lemma_desc_quants_descs(qv);
                assert(m0.subrange(0, k + 1).drop_last() =~= m0.subrange(0, k));
                assert(spec_modal_entry_quants(m0.subrange(0, k + 1)) =~= spec_modal_entry_quants(m0.subrange(0, k)) + qv);
                assert(added(old(markers)@, markers@) =~= added(old(markers)@, mk0) + spec_descs(qv));
                assert(spec_descs(spec_modal_entry_quants(m0.subrange(0, k)) + qv) =~= spec_descs(spec_modal_entry_quants(m0.subrange(0, k))) + spec_descs(qv));
                assert(m0.subrange(0, k + 1).last() == m0[k]);
                assert(spec_desc_quants(markers@) =~= spec_desc_quants(old(markers)@) + spec_modal_entry_quants(m0.subrange(0, k + 1)));
            }
            let (name, arity) = match tag {
                ModalTag::Fixed(bai) => {
                    let g = bai_to_gismu(bai);
                    (g.to_owned(), get_arity_or_default(g))
                },
                ModalTag::Fio(sel) => (
                    get_selbri_head_name(selbris, sel),
                    get_selbri_arity(selbris, sel),
                ),
            };
            assert(name@ == spec_modal_name(selbris@, tag));
            assert(arity == spec_modal_arity(selbris@, tag));
            proof {
                if exists|j: int| 0 <= j < k + 1 && #[trigger] spec_modal_arity(selbris@, m0[j].0) < 2 {
                    let j = choose|j: int| 0 <= j < k + 1 && #[trigger] spec_modal_arity(selbris@, m0[j].0) < 2;
                    if j < k {
                        assert(exists|j: int| 0 <= j < k && #[trigger] spec_modal_arity(selbris@, m0[j].0) < 2);
                    }
                }
            }
            let ghost n = self.errors@.len();
            if arity < 2 {
                self.fail(modal_arity_message(name.as_str(), arity));
                assert(self.errors@[n as int]@ == spec_modal_arity_message(name@, arity as nat));
            } else {
                let rel = self.intern(name.as_str());
                let mut margs: Vec<Term> = Vec::new();
                margs.push(tagged);
                margs.push(main_x1);
                while margs.len() < arity
                    invariant
                        arity <= 5,
                        2 <= margs@.len() <= arity,
                        margs@ == seq![tagged, main_x1] + Seq::new((margs@.len() - 2) as nat, |i: int| Term::Unspecified),
                    decreases arity - margs@.len(),
                {
                    margs.push(Term::Unspecified);
                    assert(margs@ =~= seq![tagged, main_x1] + Seq::new((margs@.len() - 2) as nat, |i: int| Term::Unspecified));
                }
                proof {
                    assert(margs@ =~= spec_modal_args(tagged, main_x1, arity as nat));
                    if self.errors@.len() == e0 {
                        lemma_modals_conjoined_mono(names0, interned(self.interner), selbris@, form0, spec_modal_pairs(m0.subrange(0, k)), main_x1, fb);
                    }
                }
                let ghost margs_v = margs@;
                let ghost fprev = form;
                form = LogicalForm::And(
                    Box::new(form),
                    Box::new(LogicalForm::Predicate { relation: rel, args: margs }),
                );
                proof {
                    let pred = LogicalForm::Predicate { relation: rel, args: margs };
                    assert(clear_form(pred, old(self).prenex_vars@));
                    assert forall|v: u32| #[trigger] occurs_free(form, v) implies occurs_free(form0, v) || main_x1 == Term::Variable(v)
                        || exists|j: int| 0 <= j < m0.len() && #[trigger] m0[j].1 == Term::Variable(v) by {
                        assert(occurs_free(fprev, v) || occurs_free(pred, v));
                        if occurs_free(pred, v) && !occurs_free(fprev, v) {
                            let i = choose|i: int| 0 <= i < margs_v.len() && #[trigger] margs_v[i] == Term::Variable(v);
                            if i == 0 {
                                assert(m0[k].1 == tagged);
                            }
                        }
                    }
                    if self.errors@.len() == e0 {
                        let ms = spec_modal_pairs(m0.subrange(0, k + 1));
                        assert(ms.drop_last() =~= spec_modal_pairs(m0.subrange(0, k)));
                        assert(ms.last() == (tag, tagged));
                        assert(rel < interned(self.interner).len());
                        assert(interned(self.interner)[rel as int] == spec_modal_name(selbris@, tag));
                        assert(margs_v == spec_modal_args(tagged, main_x1, spec_modal_arity(selbris@, tag)));
                        assert(modals_conjoined(interned(self.interner), selbris@, form0, ms, main_x1, form));
                    }
                }
            }
            proof {
                assert(prefix_of(errs_b, self.errors@));
                assert forall|j: int|
                    0 <= j < k + 1 && #[trigger] spec_modal_arity(selbris@, m0[j].0) < 2 implies error_pushed(
                        old(self).errors@,
                        self.errors@,
                        spec_modal_arity_message(spec_modal_name(selbris@, m0[j].0), spec_modal_arity(selbris@, m0[j].0)),
                    ) by {
                    let m = spec_modal_arity_message(spec_modal_name(selbris@, m0[j].0), spec_modal_arity(selbris@, m0[j].0));
                    if j < k {
                        lemma_error_pushed_grow(old(self).errors@, errs_b, self.errors@, m);
                    } else {
                        assert(j == k);
                        assert(old(self).errors@.len() <= n);
                        assert(self.errors@[n as int]@ == m);
                    }
                }
            }
        }
        assert(m0.subrange(0, m0.len() as int) =~= m0);
        assert(spec_modal_entry_quants(m0.subrange(0, 0)) =~= Seq::<QuantifierEntry>::empty());
        form
    }

    /// Conjoin the relative clauses waiting since `checkpoint` into `form`, in order.
    fn drain_conjuncts(&mut self, form: LogicalForm, checkpoint: usize) -> (f: LogicalForm)
        ensures
            kept(*old(self), *final(self)),
            extends(f, form),
            f == conjoin_all(
                form,
                if checkpoint < old(self).pending_matrix_conjuncts@.len() {
                    old(self).pending_matrix_conjuncts@.subrange(
                        checkpoint as int,
                        old(self).pending_matrix_conjuncts@.len() as int,
                    )
                } else {
                    Seq::empty()
                },
            ),
            final(self).pending_matrix_conjuncts@ == if checkpoint < old(self).pending_matrix_conjuncts@.len() {
                old(self).pending_matrix_conjuncts@.subrange(0, checkpoint as int)
            } else {
                old(self).pending_matrix_conjuncts@
            },
            final(self).pending_clause_subject == old(self).pending_clause_subject,
            clear_form(form, old(self).prenex_vars@) && (checkpoint < old(self).pending_matrix_conjuncts@.len()
                ==> clear_forms(
                old(self).pending_matrix_conjuncts@.subrange(
                    checkpoint as int,
                    old(self).pending_matrix_conjuncts@.len() as int,
                ),
                old(self).prenex_vars@,
            )) ==> clear_form(f, old(self).prenex_vars@),
            forall|k: u32| #[trigger] occurs_free(f, k) ==> occurs_free(form, k) || exists|j: int|
                checkpoint <= j < old(self).pending_matrix_conjuncts@.len() && #[trigger] occurs_free(
                    old(self).pending_matrix_conjuncts@[j],
                    k,
                ),
    {
        let ghost form0 = form;
        let ghost p = self.prenex_vars@;
        let mut form = form;
        if self.pending_matrix_conjuncts.len() > checkpoint {
            let ghost pend = self.pending_matrix_conjuncts@;
            let mut late = self.pending_matrix_conjuncts.split_off(checkpoint);
            let ghost l0 = late@;
            assert(l0 =~= pend.subrange(checkpoint as int, pend.len() as int));
            let mut rev: Vec<LogicalForm> = Vec::new();
            while late.len() > 0
                invariant
                    l0 == late@ + rev@.reverse(),
                decreases late@.len(),
            {
                let ghost before = late@;
                let ghost r0 = rev@;
                let c = late.pop().unwrap();
                rev.push(c);
                assert(before == late@.push(c));
                assert(rev@.reverse() =~= seq![c] + r0.reverse());
                assert(l0 =~= late@ + rev@.reverse());
            }
            assert(late@ =~= Seq::<LogicalForm>::empty());
            assert(l0 =~= rev@.reverse());
            while rev.len() > 0
                invariant
                    extends(form, form0),
                    rev@.len() <= l0.len(),
                    form == conjoin_all(form0, l0.subrange(0, l0.len() - rev@.len())),
                    l0 == l0.subrange(0, l0.len() - rev@.len()) + rev@.reverse(),
                    clear_form(form0, p) && clear_forms(l0, p) ==> clear_form(form, p),
                    forall|k: u32| #[trigger] occurs_free(form, k) ==> occurs_free(form0, k) || exists|j: int|
                        0 <= j < l0.len() && #[trigger] occurs_free(l0[j], k),
                decreases rev@.len(),
            {
                let ghost r0 = rev@;
                let ghost k = l0.len() - r0.len();
                let c = rev.pop().unwrap();
                proof {
                    assert(r0 == rev@.push(c));
                    assert(r0.reverse() =~= seq![c] + rev@.reverse());
                    assert(l0[k] == c) by {
                        assert(l0 == l0.subrange(0, k) + r0.reverse());
                    }
                    assert(l0 =~= l0.subrange(0, k + 1) + rev@.reverse());
                    assert(l0.subrange(0, k + 1).drop_last() =~= l0.subrange(0, k));
                    if clear_forms(l0, p) {
                        assert(clear_form(l0[k], p));
                    }
                    let fa = LogicalForm::And(Box::new(form), Box::new(c));
                    assert forall|v: u32| #[trigger] occurs_free(fa, v) implies occurs_free(form0, v) || exists|j: int|
                        0 <= j < l0.len() && #[trigger] occurs_free(l0[j], v) by {
                        assert(occurs_free(form, v) || occurs_free(c, v));
                        if occurs_free(c, v) {
                            assert(occurs_free(l0[k], v));
                        }
                    }
                }
                form = LogicalForm::And(Box::new(form), Box::new(c));
            }
            proof {
                assert forall|v: u32| #[trigger] occurs_free(form, v) implies occurs_free(form0, v) || exists|j: int|
                    checkpoint <= j < pend.len() && #[trigger] occurs_free(pend[j], v) by {
                    if !occurs_free(form0, v) {
                        let j = choose|j: int| 0 <= j < l0.len() && #[trigger] occurs_free(l0[j], v);
                        assert(l0[j] == pend[checkpoint + j]);
                    }
                }
            }
            assert(l0.subrange(0, l0.len() as int) =~= l0);
        }
        form
    }

    /// Close existentially every logic variable free in `form` that no surface position
    /// introduced (one reachable only inside a merged predicate), innermost.
    fn close_residual_vars(&self, form: LogicalForm, introduced: &Vec<u32>) -> (f: LogicalForm)
        ensures
            extends(f, form),
            forall|k: u32| #[trigger] occurs_free(f, k) ==> occurs_free(form, k),
            clear_form(form, self.prenex_vars@) ==> clear_form(f, self.prenex_vars@),
            exists|vs: Seq<u32>|
                {
                    &&& vs.no_duplicates()
                    &&& forall|k: u32|
                        #[trigger] vs.contains(k) <==> (collectable(
                            interned(self.interner),
                            self.prenex_vars@,
                            Seq::empty(),
                            form,
                            k,
                        ) && !introduced@.contains(k))
                    &&& f == spec_exists_all(vs, form)
                },
    {
        let ghost form0 = form;
        let mut out: Vec<u32> = Vec::new();
        let bound: Vec<u32> = Vec::new();
        assert(bound@ =~= Seq::<u32>::empty());
        self.collect_free_logic_vars(&form, &bound, &mut out);
        let mut form = form;
        let mut i: usize = 0;
        let ghost mut vs: Seq<u32> = Seq::empty();
        while i < out.len()
            invariant
                i <= out@.len(),
                out@.no_duplicates(),
                extends(form, form0),
                clear_form(form0, self.prenex_vars@) ==> clear_form(form, self.prenex_vars@),
                forall|k: u32| #[trigger] out@.contains(k) ==> !self.prenex_vars@.contains(k),
                forall|k: u32| #[trigger] occurs_free(form, k) ==> occurs_free(form0, k),
                forall|k: u32|
                    #[trigger] out@.contains(k) <==> collectable(
                        interned(self.interner),
                        self.prenex_vars@,
                        Seq::empty(),
                        form0,
                        k,
                    ),
                vs.no_duplicates(),
                forall|k: u32|
                    #[trigger] vs.contains(k) <==> (out@.subrange(0, i as int).contains(k) && !introduced@.contains(k)),
                form == spec_exists_all(vs, form0),
            decreases out@.len() - i,
        {
            assert(out@.contains(out@[i as int]));
            let ghost v = out@[i as int];
            let ghost sub0 = out@.subrange(0, i as int);
            assert(out@.subrange(0, i + 1) =~= sub0.push(v));
            assert(!sub0.contains(v)) by {
                if sub0.contains(v) {
                    let j = choose|j: int| 0 <= j < sub0.len() && sub0[j] == v;
                    assert(out@[j] == out@[i as int]);
                }
            }
            if !contains_id(introduced, out[i]) {
                let ghost fb = form;
                form = LogicalForm::Exists(out[i], Box::new(form));
                assert forall|k: u32| #[trigger] occurs_free(form, k) implies occurs_free(form0, k) by {
                    assert(occurs_free(fb, k));
                }
                proof {
                    let vs1 = vs.push(v);
                    assert(vs1.drop_last() =~= vs);
                    assert(!vs.contains(v));
                    assert forall|a: int, b: int| 0 <= a < b < vs1.len() implies vs1[a] != vs1[b] by {
                        if b == vs.len() {
                            assert(vs.contains(vs1[a]));
                        }
                    }
                    assert forall|k: u32| #[trigger] vs1.contains(k) <==> (out@.subrange(0, i + 1).contains(k) && !introduced@.contains(k)) by {
                        if vs1.contains(k) && k != v {
                            let j = choose|j: int| 0 <= j < vs1.len() && vs1[j] == k;
                            assert(vs[j] == k);
                            assert(vs.contains(k));
                        }
                        if k == v {
                            assert(vs1[vs.len() as int] == v);
                            assert(out@.subrange(0, i + 1)[i as int] == v);
                            assert(!introduced@.contains(v));
                        }
                        if out@.subrange(0, i + 1).contains(k) && k != v {
                            let sub1 = out@.subrange(0, i + 1);
                            let j = choose|j: int| 0 <= j < sub1.len() && sub1[j] == k;
                            assert(sub0[j] == k);
                            assert(sub0.contains(k));
                        }
                        if vs.contains(k) {
                            let j = choose|j: int| 0 <= j < vs.len() && vs[j] == k;
                            assert(vs1[j] == k);
                            assert(sub0.contains(k));
                            let w = choose|w: int| 0 <= w < sub0.len() && sub0[w] == k;
                            assert(out@.subrange(0, i + 1)[w] == k);
                        }
                    }
                    vs = vs1;
                }
            } else {
                proof {
                    assert forall|k: u32| #[trigger] vs.contains(k) <==> (out@.subrange(0, i + 1).contains(k) && !introduced@.contains(k)) by {
                        if k == v {
                            assert(introduced@.contains(v));
                        }
                        if out@.subrange(0, i + 1).contains(k) && k != v {
                            let sub1 = out@.subrange(0, i + 1);
                            let j = choose|j: int| 0 <= j < sub1.len() && sub1[j] == k;
                            assert(sub0[j] == k);
                            assert(sub0.contains(k));
                        }
                        if sub0.contains(k) {
                            let j = choose|j: int| 0 <= j < sub0.len() && sub0[j] == k;
                            assert(out@.subrange(0, i + 1)[j] == k);
                        }
                    }
                }
            }
            i = i + 1;
        }
        assert(out@.subrange(0, out@.len() as int) =~= out@);
        form
    }

    /// Compile a predication: distribute the first connected sumti if there is one;
    /// otherwise place the terms, apply the selbri, conjoin modal predicates and
    /// waiting relative clauses, close the scopes in surface order (first outermost),
    /// and wrap in `na`, the tense and the attitudinal, in that order.
    #[verifier::spinoff_prover]
    pub fn compile_bridi(
        &mut self,
        bridi: &Bridi,
        selbris: &Vec<Selbri>,
        sumtis: &mut Vec<Sumti>,
        sentences: &Vec<Sentence>,
    ) -> (f: LogicalForm)
        requires
            ast_wf(selbris@, old(sumtis)@, sentences@),
            bridi_wf(*bridi, selbris@.len(), old(sumtis)@.len()),
        ensures
            kept(*old(self), *final(self)),
            grown(selbris@, old(sumtis)@, final(sumtis)@, sentences@),
            (forall|k: int|
                0 <= k < bridi_terms(*bridi).len() ==> #[trigger] connected_at(
                    old(sumtis)@,
                    bridi_terms(*bridi)[k] as int,
                ) is None) ==> {
                &&& (exists|k: int|
                    0 <= k < bridi_terms(*bridi).len() && #[trigger] tag_beyond(
                        old(sumtis)@,
                        bridi_terms(*bridi)[k] as int,
                        spec_selbri_arity(selbris@, bridi.relation as int),
                    )) ==> final(self).errors@.len() > old(self).errors@.len()
                &&& (exists|k: int|
                    0 <= k < bridi_terms(*bridi).len() && #[trigger] unresolvable(
                        old(sumtis)@,
                        term_target(old(sumtis)@, bridi_terms(*bridi)[k] as int),
                        old(self).kea,
                    )) ==> final(self).errors@.len() > old(self).errors@.len()
                &&& final(self).errors@.len() == old(self).errors@.len() ==> exists|inner: LogicalForm|
                    f == spec_wrapped(bridi.negated, bridi.tense, bridi.attitudinal, inner)
                &&& forall|k: int|
                    0 <= k < bridi_terms(*bridi).len() && #[trigger] tag_beyond(
                        old(sumtis)@,
                        bridi_terms(*bridi)[k] as int,
                        spec_selbri_arity(selbris@, bridi.relation as int),
                    ) ==> error_pushed(
                        old(self).errors@,
                        final(self).errors@,
                        spec_tag_beyond_message(
                            spec_tag_of(old(sumtis)@, bridi_terms(*bridi)[k] as int),
                            spec_selbri_arity(selbris@, bridi.relation as int),
                        ),
                    ) || error_pushed(old(self).errors@, final(self).errors@, spec_budget_message())
            },
            no_connected(old(sumtis)@, *bridi) && old(self).pending_clause_subject is None
                && final(self).errors@.len() == old(self).errors@.len() ==> predication_of(
                interned(final(self).interner),
                selbris@,
                old(sumtis)@,
                old(self).kea,
                *bridi,
                f,
            ),
            old(self).pending_clause_subject is None && final(self).errors@.len() == old(
                self,
            ).errors@.len() ==> exists|n: nat|
                bridi_compiled(
                    interned(final(self).interner),
                    selbris@,
                    final(sumtis)@,
                    old(self).kea,
                    *bridi,
                    f,
                    n,
                ),
            final(self).pending_matrix_conjuncts@ == old(self).pending_matrix_conjuncts@,
            clean_run(*old(self), *final(self), sentences@) ==> clear_form(f, old(self).prenex_vars@),
            final(self).errors@.len() == old(self).errors@.len() && giha_clause_free(old(sumtis)@, sentences@) ==> free_sub(f, open_vars(*old(self))),
        decreases old(self).budget,
    {
        let ghost errs_in = self.errors@;
        if !self.step() {
            return placeholder();
        }
        let checkpoint = self.pending_matrix_conjuncts.len();
        let all_terms = concat_ids(&bridi.head_terms, &bridi.tail_terms);
        assert(terms_wf(all_terms@, sumtis@.len())) by {
            assert forall|k: int| 0 <= k < all_terms@.len() implies #[trigger] all_terms@[k] < sumtis@.len() by {
                if k < bridi.head_terms@.len() {
                    assert(all_terms@[k] == bridi.head_terms@[k]);
                } else {
                    assert(all_terms@[k] == bridi.tail_terms@[k - bridi.head_terms@.len()]);
                }
            }
        }
        assert(all_terms@ == bridi_terms(*bridi));
        match find_connected_term(&all_terms, sumtis) {
            Some(split) => {
                proof {
                    lemma_split_ok(selbris@, sumtis@, sentences@, all_terms@, split);
                }
                let ghost u0 = sumtis@;
                let ghost s_d = *self;
                let f = self.distribute_connected(bridi, split, selbris, sumtis, sentences);
                proof {
                    if law_ready(*old(self), sentences@) {
                        lemma_ready_kept(*old(self), s_d, sentences@);
                    }
                    if self.errors@.len() == old(self).errors@.len() && giha_clause_free(old(sumtis)@, sentences@) {
                        assert(open_vars(s_d) =~= open_vars(*old(self)));
                    }
                    if old(self).pending_clause_subject is None && self.errors@.len() == old(self).errors@.len() {
                        let n = choose|n: nat|
                            split_compiled(interned(self.interner), selbris@, sumtis@, old(self).kea, *bridi, split, f, n);
                        assert(first_split(u0, bridi_terms(*bridi), split));
                        lemma_first_split_up(u0, sumtis@, selbris@, sentences@, *bridi, split);
                        lemma_connected_at_prefix(u0, sumtis@, selbris@, sentences@, all_terms@[split.term_pos as int] as int);
                        assert(!no_connected(sumtis@, *bridi));
                        assert(bridi_compiled(interned(self.interner), selbris@, sumtis@, old(self).kea, *bridi, f, n));
                    }
                }
                return f;
            },
            None => {},
        }
        let ghost e0 = self.errors@.len();
        let ghost u0 = sumtis@;
        let ghost p = old(self).prenex_vars@;
        let ghost pend0 = old(self).pending_matrix_conjuncts@;
        let ghost so = open_vars(*old(self));
        let arity = get_selbri_arity(selbris, bridi.relation);
        let subject = self.pending_clause_subject;
        self.pending_clause_subject = None;
        let mut frame = Frame {
            slots: empty_slots(arity),
            next_place: 0,
            markers: Vec::new(),
            introduced: Vec::new(),
            modals: Vec::new(),
            overflow: 0,
        };
        let mut subject_placed = false;
        if bridi.head_terms.len() == 0 {
            if let Some(t) = subject {
                frame.slots.set(0, Some(t));
                subject_placed = true;
                self.kea_used = true;
            }
        }
        let ghost init = frame.slots@;
        let ghost mut ts: Seq<Term> = Seq::empty();
        let ghost mut qs: Seq<Seq<QuantifierEntry>> = Seq::empty();
        proof {
            assert forall|j: int| 0 <= j < frame.slots@.len() implies (#[trigger] frame.slots@[j] matches Some(Term::Variable(k))
                ==> so.contains(k) || term_vars(ts).contains(k)) by {
                if j != 0 || !(bridi.head_terms@.len() == 0 && subject is Some) {
                    assert(frame.slots@[j] == spec_empty_slots(arity as nat)[j]);
                }
            }
        }
        assert(all_terms@.take(0) =~= Seq::<u32>::empty());
        assert(spec_modal_pairs(frame.modals@) =~= Seq::<(ModalTag, Term)>::empty());
        assert(spec_desc_quants(frame.markers@) =~= Seq::<QuantifierEntry>::empty());
        assert(spec_modal_entry_quants(frame.modals@) =~= Seq::<QuantifierEntry>::empty());
        let mut i: usize = 0;
        while i < all_terms.len()
            invariant
                i <= all_terms@.len(),
                ts.len() == i,
                qs.len() == i,
                ast_wf(selbris@, u0, sentences@),
                self.errors@.len() == e0 ==> {
                    &&& (frame.slots@, frame.next_place as int) == spec_placed(u0, all_terms@.take(i as int), ts, init)
                    &&& spec_modal_pairs(frame.modals@) == spec_modal_terms(u0, all_terms@.take(i as int), ts)
                    &&& spec_desc_quants(frame.markers@) == spec_term_quants(u0, all_terms@.take(i as int), qs)
                    &&& spec_modal_entry_quants(frame.modals@) == spec_modal_quants(u0, all_terms@.take(i as int), qs)
                    &&& forall|k: int|
                        0 <= k < i ==> #[trigger] resolved_quants(
                            u0[term_target(u0, all_terms@[k] as int)],
                            selbris@,
                            interned(self.interner),
                            ts[k],
                            qs[k],
                        )
                    &&& forall|k: int|
                        0 <= k < i ==> #[trigger] resolved_term(
                            u0,
                            term_target(u0, all_terms@[k] as int),
                            old(self).kea,
                            selbris@,
                            interned(self.interner),
                            ts[k],
                        )
                },
                ast_wf(selbris@, sumtis@, sentences@),
                prefix_of(old(sumtis)@, sumtis@),
                terms_wf(all_terms@, sumtis@.len()),
                kept(*old(self), *self),
                self.budget < old(self).budget,
                frame.slots@.len() == arity,
                frame.next_place <= arity,
                arity == spec_selbri_arity(selbris@, bridi.relation as int),
                prefix_of(u0, sumtis@),
                u0 == old(sumtis)@,
                terms_wf(all_terms@, u0.len()),
                e0 <= self.errors@.len(),
                e0 == old(self).errors@.len(),
                (exists|k: int| 0 <= k < i && #[trigger] tag_beyond(u0, all_terms@[k] as int, arity as nat))
                    ==> self.errors@.len() > e0,
                (exists|k: int| 0 <= k < i && #[trigger] unresolvable(u0, term_target(u0, all_terms@[k] as int), old(self).kea))
                    ==> self.errors@.len() > e0,
                checkpoint == pend0.len(),
                p == old(self).prenex_vars@,
                pend0 == old(self).pending_matrix_conjuncts@,
                prefix_of(pend0, self.pending_matrix_conjuncts@),
                law_ready(*old(self), sentences@) && self.errors@.len() == e0 ==> {
                    &&& clear_forms(added(pend0, self.pending_matrix_conjuncts@), p)
                    &&& clear_markers(frame.markers@, p)
                    &&& forall|j: int| 0 <= j < frame.modals@.len() ==> clear_quants(#[trigger] frame.modals@[j].2@, p)
                },
                so == open_vars(*old(self)),
                subject == old(self).pending_clause_subject,
                intro_marked(frame.introduced@, frame.markers@),
                forall|j: int| 0 <= j < frame.slots@.len() ==> (#[trigger] frame.slots@[j] matches Some(Term::Variable(k))
                    ==> so.contains(k) || term_vars(ts).contains(k)),
                self.errors@.len() == e0 && giha_clause_free(old(sumtis)@, sentences@) ==> bridi_open(so, ts, pend0, self.pending_matrix_conjuncts@, frame.markers@, frame.modals@),
                errs_in == old(self).errors@,
                prefix_of(old(self).errors@, self.errors@),
                forall|k: int|
                    0 <= k < i && #[trigger] tag_beyond(u0, all_terms@[k] as int, arity as nat) ==> error_pushed(
                        errs_in,
                        self.errors@,
                        spec_tag_beyond_message(spec_tag_of(u0, all_terms@[k] as int), arity as nat),
                    ) || error_pushed(errs_in, self.errors@, spec_budget_message()),
                self.errors@.len() == e0 ==> added(pend0, self.pending_matrix_conjuncts@).len() == clause_total(
                    u0,
                    all_terms@.take(i as int),
                ),
            decreases all_terms@.len() - i,
        {
            let ghost s_i = *self;
            let ghost fr_i = frame;
            let ghost ts_i = ts;
            let ghost pend_i = self.pending_matrix_conjuncts@;
            let ghost before = sumtis@;
            let ghost eb = self.errors@.len();
            let ghost names_b = interned(self.interner);
            let ghost slots_b = (frame.slots@, frame.next_place as int);
            let ghost mk_b = frame.markers@;
            let ghost md_b = frame.modals@;
            let t = self.place_term(all_terms[i], &mut frame, arity, selbris, sumtis, sentences);
            let ghost mut q: Seq<QuantifierEntry> = Seq::empty();
            proof {
                if self.errors@.len() == e0 && giha_clause_free(old(sumtis)@, sentences@) {
                    assert(eb == e0);
                    lemma_giha_grow(selbris@, old(sumtis)@, before, sentences@);
                    assert(term_placed_open(s_i, *self, t, fr_i, frame));
                    assert forall|j: int| fr_i.modals@.len() <= j < frame.modals@.len() implies quants_within(
                        #[trigger] frame.modals@[j].2@,
                        open_vars(s_i),
                    ) && frame.modals@[j].1 == t by {
                        lemma_placed_open_modal(s_i, *self, t, fr_i, frame, j);
                    }
                    lemma_open_kept(*old(self), s_i);
                    assert(intro_marked(fr_i.introduced@, fr_i.markers@));
                    lemma_bridi_open_step(so, open_vars(s_i), ts_i, t, pend0, pend_i, self.pending_matrix_conjuncts@, fr_i.markers@, frame.markers@, fr_i.modals@, frame.modals@);
                }
                assert forall|j: int| 0 <= j < frame.slots@.len() implies (#[trigger] frame.slots@[j] matches Some(Term::Variable(k))
                    ==> so.contains(k) || term_vars(ts_i.push(t)).contains(k)) by {
                    if let Some(Term::Variable(k)) = frame.slots@[j] {
                        if frame.slots@[j] == Some(t) {
                            assert(ts_i.push(t)[ts_i.len() as int] == t);
                        } else {
                            assert(fr_i.slots@[j] == frame.slots@[j]);
                            if !so.contains(k) {
                                let w = choose|w: int| 0 <= w < ts_i.len() && #[trigger] ts_i[w] == Term::Variable(k);
                                assert(ts_i.push(t)[w] == ts_i[w]);
                            }
                        }
                    }
                }
            }
            proof {
                if self.errors@.len() == e0 {
                    assert(eb == e0);
                    let id = all_terms@[i as int] as int;
                    lemma_wf_nodes(selbris@, u0, sentences@);
                    assert(sumti_wf(u0, selbris@.len(), sentences@.len(), id));
                    assert(before[id] == u0[id]);
                    assert(term_target(before, id) == term_target(u0, id));
                    lemma_clause_counts_prefix(u0, before, term_target(u0, id));
                    assert(all_terms@.take(i + 1).drop_last() =~= all_terms@.take(i as int));
                    assert(all_terms@.take(i + 1).last() == all_terms@[i as int]);
                    assert(added(pend0, self.pending_matrix_conjuncts@).len() == added(pend0, pend_i).len() + added(
                        pend_i,
                        self.pending_matrix_conjuncts@,
                    ).len());
                }
                lemma_added_forms_prefix(pend0, pend_i, self.pending_matrix_conjuncts@);
                if law_ready(*old(self), sentences@) && self.errors@.len() == e0 {
                    assert(eb == e0);
                    lemma_ready_kept(*old(self), s_i, sentences@);
                    lemma_added_forms(pend0, pend_i, self.pending_matrix_conjuncts@, p);
                    lemma_markers_extend(mk_b, frame.markers@, p);
                    assert forall|j: int| 0 <= j < frame.modals@.len() implies clear_quants(#[trigger] frame.modals@[j].2@, p) by {
                        if j < md_b.len() {
                            assert(frame.modals@[j] == md_b[j]);
                        }
                    }
                }
            }
            proof {
                let id = all_terms@[i as int] as int;
                if self.errors@.len() == e0 {
                    q = choose|q: Seq<QuantifierEntry>| #[trigger] term_scope(
                        before[term_target(before, id)],
                        before[id],
                        selbris@,
                        interned(self.interner),
                        t,
                        q,
                        mk_b,
                        frame.markers@,
                        md_b,
                        frame.modals@,
                    );
                    lemma_wf_nodes(selbris@, u0, sentences@);
                    assert(sumti_wf(u0, selbris@.len(), sentences@.len(), id));
                    assert(before[term_target(u0, id)] == u0[term_target(u0, id)]);
                    assert(qs.push(q).drop_last() =~= qs);
                    assert forall|j: int| 0 <= j < i implies #[trigger] resolved_quants(
                        u0[term_target(u0, all_terms@[j] as int)],
                        selbris@,
                        interned(self.interner),
                        ts[j],
                        qs[j],
                    ) by {
                        lemma_resolved_quants_mono(u0[term_target(u0, all_terms@[j] as int)], selbris@, names_b, interned(self.interner), ts[j], qs[j]);
                    }
                    assert(eb == e0);
                    assert(before[id] == u0[id]);
                    lemma_wf_nodes(selbris@, u0, sentences@);
                    assert(sumti_wf(u0, selbris@.len(), sentences@.len(), id));
                    assert(term_target(before, id) == term_target(u0, id));
                    lemma_resolved_grow(u0, before, term_target(u0, id), old(self).kea, selbris@, interned(self.interner), t);
                    assert forall|k: int| 0 <= k < i implies #[trigger] resolved_term(
                        u0,
                        term_target(u0, all_terms@[k] as int),
                        old(self).kea,
                        selbris@,
                        interned(self.interner),
                        ts[k],
                    ) by {
                        lemma_resolved_mono(u0, term_target(u0, all_terms@[k] as int), old(self).kea, selbris@, names_b, interned(self.interner), ts[k]);
                    }
                    assert(all_terms@.take(i + 1).drop_last() =~= all_terms@.take(i as int));
                    assert(all_terms@.take(i + 1).last() == all_terms@[i as int]);
                    assert(ts.push(t).drop_last() =~= ts);
                }
                ts = ts.push(t);
                qs = qs.push(q);
                assert(all_terms@[i as int] < u0.len());
                if tag_beyond(u0, all_terms@[i as int] as int, arity as nat) {
                    assert(before[all_terms@[i as int] as int] == u0[all_terms@[i as int] as int]);
                    assert(tag_beyond(before, all_terms@[i as int] as int, arity as nat));
                }
                lemma_wf_nodes(selbris@, u0, sentences@);
                assert(sumti_wf(u0, selbris@.len(), sentences@.len(), id));
                assert(before[id] == u0[id]);
                assert(term_target(before, id) == term_target(u0, id));
                if unresolvable(u0, term_target(u0, id), old(self).kea) {
                    lemma_unresolvable_up(u0, before, term_target(u0, id), old(self).kea);
                }
                if exists|k: int| 0 <= k < i + 1 && #[trigger] unresolvable(u0, term_target(u0, all_terms@[k] as int), old(self).kea) {
                    let k = choose|k: int| 0 <= k < i + 1 && #[trigger] unresolvable(u0, term_target(u0, all_terms@[k] as int), old(self).kea);
                    if k < i {
                        assert(exists|k: int| 0 <= k < i && #[trigger] unresolvable(u0, term_target(u0, all_terms@[k] as int), old(self).kea));
                    }
                }
                if exists|k: int| 0 <= k < i + 1 && #[trigger] tag_beyond(u0, all_terms@[k] as int, arity as nat) {
                    let k = choose|k: int| 0 <= k < i + 1 && #[trigger] tag_beyond(u0, all_terms@[k] as int, arity as nat);
                    if k < i {
                        assert(exists|k: int| 0 <= k < i && #[trigger] tag_beyond(u0, all_terms@[k] as int, arity as nat));
                    }
                }
            }
            proof {
                let id = all_terms@[i as int] as int;
                assert(before[id] == u0[id]);
                assert forall|k: int|
                    0 <= k < i + 1 && #[trigger] tag_beyond(u0, all_terms@[k] as int, arity as nat) implies error_pushed(
                        errs_in,
                        self.errors@,
                        spec_tag_beyond_message(spec_tag_of(u0, all_terms@[k] as int), arity as nat),
                    ) || error_pushed(errs_in, self.errors@, spec_budget_message()) by {
                    let m = spec_tag_beyond_message(spec_tag_of(u0, all_terms@[k] as int), arity as nat);
                    if k < i {
                        if error_pushed(errs_in, s_i.errors@, m) {
                            lemma_error_pushed_grow(errs_in, s_i.errors@, self.errors@, m);
                        } else {
                            lemma_error_pushed_grow(errs_in, s_i.errors@, self.errors@, spec_budget_message());
                        }
                    } else {
                        assert(k == i);
                        if s_i.budget > 0 {
                            assert(error_pushed(s_i.errors@, self.errors@, m));
                            lemma_error_pushed_from(errs_in, s_i.errors@, self.errors@, m);
                        } else {
                            lemma_error_pushed_from(errs_in, s_i.errors@, self.errors@, spec_budget_message());
                        }
                    }
                }
            }
            i = i + 1;
        }
        let ghost errs_loop = self.errors@;
        let ghost slots_loop = frame.slots@;
        if let Some(t) = subject {
            if !subject_placed && !self.kea_used {
                let k = first_free(&frame.slots, 0);
                if k < arity {
                    frame.slots.set(k, Some(t));
                    proof {
                        assert forall|j: int| 0 <= j < frame.slots@.len() implies (#[trigger] frame.slots@[j] matches Some(Term::Variable(v))
                            ==> so.contains(v) || term_vars(ts).contains(v)) by {
                            if j != k as int {
                                assert(frame.slots@[j] == slots_loop[j]);
                            }
                        }
                    }
                    self.kea_used = true;
                } else {
                    self.fail("a relative clause leaves no place for the sumti it is about".to_owned());
                }
            }
        }
        let args = slots_to_args(&frame.slots);
        let main_x1 = args[0];
        if frame.overflow > 0 {
            let head = get_selbri_head_name(selbris, bridi.relation);
            if str_equal(head.as_str(), "du") || get_arity(head.as_str()).is_some() {
                self.fail(overflow_message(head.as_str(), frame.overflow, arity));
            }
        }
        let ghost args_v = args@;
        let ghost e1 = self.errors@.len();
        let ghost names1 = interned(self.interner);
        let ghost s_a = *self;
        let ghost md_loop = frame.modals@;
        let ghost pend_a = self.pending_matrix_conjuncts@;
        let ghost slots_a = frame.slots@;
        let ghost u_a = sumtis@;
        let mut form = self.apply_selbri(bridi.relation, args, selbris, sumtis, sentences);
        let ghost g = form;
        let ghost names2 = interned(self.interner);
        let ghost e2 = self.errors@.len();
        let mut markers = frame.markers;
        let ghost mods = spec_modal_pairs(frame.modals@);
        let ghost mq = spec_modal_entry_quants(frame.modals@);
        let ghost mk_loop = markers@;
        form = self.conjoin_modals(form, frame.modals, main_x1, &mut markers, selbris);
        let ghost f2 = form;
        let ghost names3 = interned(self.interner);
        let ghost pend_d = self.pending_matrix_conjuncts@;
        form = self.drain_conjuncts(form, checkpoint);
        let ghost f3 = form;
        let ghost names_c = interned(self.interner);
        form = self.close_residual_vars(form, &frame.introduced);
        let ghost h = form;
        let ghost cs = added(pend0, pend_d);
        let ghost vs = choose|vs: Seq<u32>|
            {
                &&& vs.no_duplicates()
                &&& forall|k: u32|
                    #[trigger] vs.contains(k) <==> (collectable(names_c, p, Seq::empty(), f3, k)
                        && !frame.introduced@.contains(k))
                &&& h == spec_exists_all(vs, f3)
            };
        let ghost ms = markers@;
        form = fold_markers(markers, form);
        let f = wrap_bridi(bridi.negated, bridi.tense, bridi.attitudinal, form);
        assert(f == spec_wrapped(bridi.negated, bridi.tense, bridi.attitudinal, form));
        proof {
            if checkpoint < pend_a.len() {
                assert(pend_a.subrange(0, checkpoint as int) =~= pend0);
            } else {
                assert(pend_a =~= pend0);
            }
            if self.errors@.len() == e0 && giha_clause_free(old(sumtis)@, sentences@) {
                assert(e1 == e0 && e2 == e0);
                lemma_giha_grow(selbris@, old(sumtis)@, u_a, sentences@);
                lemma_open_kept(*old(self), s_a);
                lemma_bridi_close(so, ts, slots_a, args_v, main_x1, g, f2, f3, h, pend0, pend_a, mk_loop, ms, md_loop);
                lemma_wrapped_free(bridi.negated, bridi.tense, bridi.attitudinal, form, so);
            }
            if clean_run(*old(self), *self, sentences@) {
                assert(e1 == e0 && e2 == e0);
                lemma_ready_kept(*old(self), s_a, sentences@);
                assert(clear_form(g, p));
                assert(forall|j: int| 0 <= j < md_loop.len() ==> clear_quants(#[trigger] md_loop[j].2@, p));
                assert(clear_form(f2, p));
                lemma_markers_extend(mk_loop, ms, p);
                assert(pend_a.subrange(checkpoint as int, pend_a.len() as int) == added(pend0, pend_a));
                assert(clear_form(f3, p));
                assert(clear_form(h, p));
                lemma_fold_clear(ms, h, p);
                lemma_wrapped_clear(bridi.negated, bridi.tense, bridi.attitudinal, form, p);
            }
        }
        proof {
            if old(self).pending_clause_subject is None && self.errors@.len() == e0 {
                assert(e1 == e0);
                assert(e2 == e0);
                assert(all_terms@.take(all_terms@.len() as int) =~= all_terms@);
                assert(init =~= spec_empty_slots(arity as nat));
                assert(args_v =~= spec_slot_args(frame.slots@));
                lemma_applied_mono(names2, interned(self.interner), selbris@, bridi.relation as int, args_v, g);
                lemma_modals_conjoined_mono(names3, interned(self.interner), selbris@, g, mods, main_x1, f2);
                assert(main_x1 == spec_x1(args_v));
                assert forall|k: int| 0 <= k < ts.len() implies #[trigger] resolved_term(
                    old(sumtis)@,
                    term_target(old(sumtis)@, bridi_terms(*bridi)[k] as int),
                    old(self).kea,
                    selbris@,
                    interned(self.interner),
                    ts[k],
                ) by {
                    lemma_resolved_mono(u0, term_target(u0, all_terms@[k] as int), old(self).kea, selbris@, names1, interned(self.interner), ts[k]);
                }
                assert(form == spec_fold_markers(ms, h));
                assert(ts.len() == bridi_terms(*bridi).len());
                assert(frame.slots@ == spec_placed(old(sumtis)@, bridi_terms(*bridi), ts, spec_empty_slots(spec_selbri_arity(selbris@, bridi.relation as int))).0);
                assert(applied(
                    interned(self.interner),
                    selbris@,
                    bridi.relation as int,
                    spec_slot_args(frame.slots@),
                    g,
                ));
                lemma_extends_trans(h, f3, f2);
                assert(extends(h, f2));
                assert(mods == spec_modal_terms(old(sumtis)@, bridi_terms(*bridi), ts));
                assert(spec_desc_quants(ms) == spec_term_quants(old(sumtis)@, bridi_terms(*bridi), qs) + spec_modal_quants(old(sumtis)@, bridi_terms(*bridi), qs));
                assert forall|j: int| 0 <= j < qs.len() implies #[trigger] resolved_quants(
                    old(sumtis)@[term_target(old(sumtis)@, bridi_terms(*bridi)[j] as int)],
                    selbris@,
                    interned(self.interner),
                    ts[j],
                    qs[j],
                ) by {
                    lemma_resolved_quants_mono(u0[term_target(u0, all_terms@[j] as int)], selbris@, names1, interned(self.interner), ts[j], qs[j]);
                }
                assert(pend_d == pend_a);
                if checkpoint < pend_a.len() {
                    assert(f3 == conjoin_all(f2, cs));
                } else {
                    assert(cs =~= Seq::<LogicalForm>::empty());
                    assert(f3 == conjoin_all(f2, cs));
                }
                assert(cs.len() == clause_total(old(sumtis)@, bridi_terms(*bridi)));
                assert(forall|v: u32| #[trigger] vs.contains(v) ==> occurs_free(conjoin_all(f2, cs), v));
                assert(predication_parts(interned(self.interner), selbris@, old(sumtis)@, old(self).kea, *bridi, f, ts, qs, g, f2, ms, h, cs, vs));
                assert(predication_of(interned(self.interner), selbris@, old(sumtis)@, old(self).kea, *bridi, f));
                lemma_predication_up(old(sumtis)@, sumtis@, interned(self.interner), selbris@, sentences@, old(self).kea, *bridi, f);
                lemma_no_connected_prefix(old(sumtis)@, sumtis@, selbris@, sentences@, *bridi);
                assert(bridi_compiled(interned(self.interner), selbris@, sumtis@, old(self).kea, *bridi, f, 0));
            }
        }
        proof {
            assert(prefix_of(errs_loop, self.errors@));
            assert(all_terms@ == bridi_terms(*bridi));
            assert forall|k: int|
                0 <= k < bridi_terms(*bridi).len() && #[trigger] tag_beyond(
                    old(sumtis)@,
                    bridi_terms(*bridi)[k] as int,
                    spec_selbri_arity(selbris@, bridi.relation as int),
                ) implies error_pushed(
                    old(self).errors@,
                    self.errors@,
                    spec_tag_beyond_message(
                        spec_tag_of(old(sumtis)@, bridi_terms(*bridi)[k] as int),
                        spec_selbri_arity(selbris@, bridi.relation as int),
                    ),
                ) || error_pushed(old(self).errors@, self.errors@, spec_budget_message()) by {
                let m = spec_tag_beyond_message(spec_tag_of(u0, all_terms@[k] as int), arity as nat);
                assert(tag_beyond(u0, all_terms@[k] as int, arity as nat));
                if error_pushed(errs_in, errs_loop, m) {
                    lemma_error_pushed_grow(errs_in, errs_loop, self.errors@, m);
                } else {
                    lemma_error_pushed_grow(errs_in, errs_loop, self.errors@, spec_budget_message());
                }
            }
        }
        f
    }
}

/// No term of predication `b` is, or wraps under a place tag or modal, a connected sumti.
pub open spec fn no_connected(sumtis: Seq<Sumti>, b: Bridi) -> bool {
    forall|k: int|
        0 <= k < bridi_terms(b).len() ==> #[trigger] connected_at(sumtis, bridi_terms(b)[k] as int)
            is None
}

/// Every term of `b` tagged for a place its selbri does not have has its error among
/// those recorded from `before` to `after`, unless the step budget ran out.
pub open spec fn tag_beyond_reported(
    before: Seq<String>,
    after: Seq<String>,
    selbris: Seq<Selbri>,
    sumtis: Seq<Sumti>,
    b: Bridi,
) -> bool {
    forall|k: int|
        0 <= k < bridi_terms(b).len() && #[trigger] tag_beyond(
            sumtis,
            bridi_terms(b)[k] as int,
            spec_selbri_arity(selbris, b.relation as int),
        ) ==> error_pushed(
            before,
            after,
            spec_tag_beyond_message(
                spec_tag_of(sumtis, bridi_terms(b)[k] as int),
                spec_selbri_arity(selbris, b.relation as int),
            ),
        ) || error_pushed(before, after, spec_budget_message())
}

/// Reports recorded stay recorded as more errors are added, hold from any earlier point,
/// and read only the sumti buffer up to the bridi's terms.
pub proof fn lemma_tag_beyond_reported_grow(
    a0: Seq<String>,
    a: Seq<String>,
    b: Seq<String>,
    c: Seq<String>,
    selbris: Seq<Selbri>,
    sentences: Seq<Sentence>,
    u1: Seq<Sumti>,
    u2: Seq<Sumti>,
    br: Bridi,
)
    requires
        tag_beyond_reported(a, b, selbris, u2, br),
        a0.len() <= a.len(),
        prefix_of(b, c),
        prefix_of(u1, u2),
        ast_wf(selbris, u1, sentences),
        bridi_wf(br, selbris.len(), u1.len()),
    ensures
        tag_beyond_reported(a0, c, selbris, u1, br),
{
    lemma_bridi_wf_terms(br, selbris.len(), u1.len());
    let arity = spec_selbri_arity(selbris, br.relation as int);
    assert forall|k: int|
        0 <= k < bridi_terms(br).len() && #[trigger] tag_beyond(u1, bridi_terms(br)[k] as int, arity) implies error_pushed(
            a0,
            c,
            spec_tag_beyond_message(spec_tag_of(u1, bridi_terms(br)[k] as int), arity),
        ) || error_pushed(a0, c, spec_budget_message()) by {
        let t = bridi_terms(br)[k] as int;
        assert(u2[t] == u1[t]);
        assert(tag_beyond(u2, t, arity));
        let m = spec_tag_beyond_message(spec_tag_of(u1, t), arity);
        if error_pushed(a, b, m) {
            lemma_error_pushed_grow(a, b, c, m);
            lemma_error_pushed_from(a0, a, c, m);
        } else {
            lemma_error_pushed_grow(a, b, c, spec_budget_message());
            lemma_error_pushed_from(a0, a, c, spec_budget_message());
        }
    }
}

/// Term `j` of sentence `id`, a simple bridi with no connected term, is tagged for a
/// place its selbri does not have.
pub open spec fn sentence_tag_beyond(
    selbris: Seq<Selbri>,
    sumtis: Seq<Sumti>,
    sentences: Seq<Sentence>,
    id: int,
    j: int,
) -> bool {
    &&& 0 <= id < sentences.len()
    &&& sentences[id] matches Sentence::Simple(b)
    &&& no_connected(sumtis, b)
    &&& 0 <= j < bridi_terms(b).len()
    &&& tag_beyond(sumtis, bridi_terms(b)[j] as int, spec_selbri_arity(selbris, b.relation as int))
}

/// The error for term `j` of sentence `id` tagged beyond its selbri's places.
pub open spec fn sentence_tag_message(
    selbris: Seq<Selbri>,
    sumtis: Seq<Sumti>,
    sentences: Seq<Sentence>,
    id: int,
    j: int,
) -> Seq<char> {
    match sentences[id] {
        Sentence::Simple(b) => spec_tag_beyond_message(
            spec_tag_of(sumtis, bridi_terms(b)[j] as int),
            spec_selbri_arity(selbris, b.relation as int),
        ),
        _ => Seq::empty(),
    }
}

/// Sentence `id` is a simple bridi, with no connected term, one of whose terms is tagged
/// for a place its selbri does not have.
pub open spec fn simple_tag_beyond(selbris: Seq<Selbri>, sumtis: Seq<Sumti>, sentences: Seq<Sentence>, id: int) -> bool {
    &&& 0 <= id < sentences.len()
    &&& sentences[id] matches Sentence::Simple(b)
    &&& no_connected(sumtis, b)
    &&& exists|k: int|
        0 <= k < bridi_terms(b).len() && #[trigger] tag_beyond(
            sumtis,
            bridi_terms(b)[k] as int,
            spec_selbri_arity(selbris, b.relation as int),
        )
}

/// A simple bridi with a place tag beyond its selbri stays one as the sumti buffer grows.
pub proof fn lemma_simple_tag_beyond_prefix(
    u1: Seq<Sumti>,
    u2: Seq<Sumti>,
    selbris: Seq<Selbri>,
    sentences: Seq<Sentence>,
    id: int,
)
    requires
        prefix_of(u1, u2),
        ast_wf(selbris, u1, sentences),
        simple_tag_beyond(selbris, u1, sentences, id),
    ensures
        simple_tag_beyond(selbris, u2, sentences, id),
{
    lemma_wf_nodes(selbris, u1, sentences);
    if let Sentence::Simple(b) = sentences[id] {
        assert(sentence_wf(sentences, selbris.len(), u1.len(), id));
        lemma_no_connected_prefix(u1, u2, selbris, sentences, b);
        let arity = spec_selbri_arity(selbris, b.relation as int);
        let k = choose|k: int| 0 <= k < bridi_terms(b).len() && #[trigger] tag_beyond(u1, bridi_terms(b)[k] as int, arity);
        assert(u2[bridi_terms(b)[k] as int] == u1[bridi_terms(b)[k] as int]);
        assert(tag_beyond(u2, bridi_terms(b)[k] as int, arity));
    }
}

/// The modal terms among `terms`, resolved to `ts`: each one's modal tag and the term it
/// tags, in order.
pub open spec fn spec_modal_terms(sumtis: Seq<Sumti>, terms: Seq<u32>, ts: Seq<Term>) -> Seq<(ModalTag, Term)>
    decreases terms.len(),
{
    if terms.len() == 0 || ts.len() != terms.len() {
        Seq::empty()
    } else {
        let rest = spec_modal_terms(sumtis, terms.drop_last(), ts.drop_last());
        match sumtis[terms.last() as int] {
            Sumti::ModalTagged(m, _) => rest.push((m, ts.last())),
            _ => rest,
        }
    }
}

/// Collecting the modal terms of a list that exists in a prefix of the sumti buffer reads
/// only that prefix.
pub proof fn lemma_modal_terms_prefix(u1: Seq<Sumti>, u2: Seq<Sumti>, terms: Seq<u32>, ts: Seq<Term>)
    requires
        prefix_of(u1, u2),
        terms_wf(terms, u1.len()),
    ensures
        spec_modal_terms(u1, terms, ts) == spec_modal_terms(u2, terms, ts),
    decreases terms.len(),
{
    if terms.len() > 0 && ts.len() == terms.len() {
        assert(terms_wf(terms.drop_last(), u1.len())) by {
            assert forall|k: int| 0 <= k < terms.drop_last().len() implies #[trigger] terms.drop_last()[k] < u1.len() by {
                assert(terms.drop_last()[k] == terms[k]);
            }
        }
        lemma_modal_terms_prefix(u1, u2, terms.drop_last(), ts.drop_last());
        assert(terms[terms.len() - 1] < u1.len());
        assert(u2[terms.last() as int] == u1[terms.last() as int]);
    }
}

/// The parts of a compiled predication, as [`predication_of`] describes them.
pub open spec fn predication_parts(
    names: Seq<Seq<char>>,
    selbris: Seq<Selbri>,
    sumtis: Seq<Sumti>,
    kea: Option<Term>,
    b: Bridi,
    f: LogicalForm,
    ts: Seq<Term>,
    qs: Seq<Seq<QuantifierEntry>>,
    g: LogicalForm,
    k: LogicalForm,
    ms: Seq<ScopeMarker>,
    h: LogicalForm,
    cs: Seq<LogicalForm>,
    vs: Seq<u32>,
) -> bool {
    let terms = bridi_terms(b);
    let args = spec_slot_args(
        spec_placed(sumtis, terms, ts, spec_empty_slots(spec_selbri_arity(selbris, b.relation as int))).0,
    );
    &&& ts.len() == terms.len()
    &&& forall|i: int|
        0 <= i < ts.len() ==> #[trigger] resolved_term(
            sumtis,
            term_target(sumtis, terms[i] as int),
            kea,
            selbris,
            names,
            ts[i],
        )
    &&& qs.len() == terms.len()
    &&& forall|i: int|
        0 <= i < qs.len() ==> #[trigger] resolved_quants(
            sumtis[term_target(sumtis, terms[i] as int)],
            selbris,
            names,
            ts[i],
            qs[i],
        )
    &&& applied(names, selbris, b.relation as int, args, g)
    &&& modals_conjoined(names, selbris, g, spec_modal_terms(sumtis, terms, ts), spec_x1(args), k)
    &&& extends(h, k)
    &&& cs.len() == clause_total(sumtis, terms)
    &&& vs.no_duplicates()
    &&& forall|v: u32| #[trigger] vs.contains(v) ==> occurs_free(conjoin_all(k, cs), v)
    &&& h == spec_exists_all(vs, conjoin_all(k, cs))
    &&& spec_desc_quants(ms) == spec_term_quants(sumtis, terms, qs) + spec_modal_quants(sumtis, terms, qs)
    &&& f == spec_wrapped(b.negated, b.tense, b.attitudinal, spec_fold_markers(ms, h))
}

/// `f` compiles predication `b`: its terms resolve to `ts` and fill the places of its
/// selbri as [`spec_placed`] says; the selbri applied to those places gives `g`; each
/// modal term's predicate is conjoined to `g` as [`modals_conjoined`] says, giving `k`;
/// the relative clauses `cs` that the terms leave to the predication, as many as
/// [`clause_total`] counts, are conjoined to `k` in order and variables `vs`, each free
/// there, closed around them existentially, giving `h`; the
/// scopes `ms` close around `h`, first outermost, their description quantifiers being
/// those of the terms in surface order (`qs[i]` for term `i`), then those of the modal
/// terms; and `na`, the tense and the attitudinal wrap the whole.
pub open spec fn predication_of(
    names: Seq<Seq<char>>,
    selbris: Seq<Selbri>,
    sumtis: Seq<Sumti>,
    kea: Option<Term>,
    b: Bridi,
    f: LogicalForm,
) -> bool {
    exists|
        ts: Seq<Term>,
        qs: Seq<Seq<QuantifierEntry>>,
        g: LogicalForm,
        k: LogicalForm,
        ms: Seq<ScopeMarker>,
        h: LogicalForm,
        cs: Seq<LogicalForm>,
        vs: Seq<u32>,
    | #[trigger] predication_parts(names, selbris, sumtis, kea, b, f, ts, qs, g, k, ms, h, cs, vs)
}

/// A compiled predication stays one as the interner grows.
pub proof fn lemma_predication_mono(
    n1: Seq<Seq<char>>,
    n2: Seq<Seq<char>>,
    selbris: Seq<Selbri>,
    sumtis: Seq<Sumti>,
    kea: Option<Term>,
    b: Bridi,
    f: LogicalForm,
)
    requires
        prefix_of(n1, n2),
        predication_of(n1, selbris, sumtis, kea, b, f),
    ensures
        predication_of(n2, selbris, sumtis, kea, b, f),
{
    let (ts, qs, g, k, ms, h, cs, vs) = choose|
        ts: Seq<Term>,
        qs: Seq<Seq<QuantifierEntry>>,
        g: LogicalForm,
        k: LogicalForm,
        ms: Seq<ScopeMarker>,
        h: LogicalForm,
        cs: Seq<LogicalForm>,
        vs: Seq<u32>,
    | #[trigger] predication_parts(n1, selbris, sumtis, kea, b, f, ts, qs, g, k, ms, h, cs, vs);
    let terms = bridi_terms(b);
    let args = spec_slot_args(
        spec_placed(sumtis, terms, ts, spec_empty_slots(spec_selbri_arity(selbris, b.relation as int))).0,
    );
    assert forall|i: int| 0 <= i < ts.len() implies #[trigger] resolved_term(
        sumtis,
        term_target(sumtis, terms[i] as int),
        kea,
        selbris,
        n2,
        ts[i],
    ) by {
        lemma_resolved_mono(sumtis, term_target(sumtis, terms[i] as int), kea, selbris, n1, n2, ts[i]);
    }
    lemma_applied_mono(n1, n2, selbris, b.relation as int, args, g);
    lemma_modals_conjoined_mono(n1, n2, selbris, g, spec_modal_terms(sumtis, terms, ts), spec_x1(args), k);
    assert forall|i: int| 0 <= i < qs.len() implies #[trigger] resolved_quants(
        sumtis[term_target(sumtis, terms[i] as int)],
        selbris,
        n2,
        ts[i],
        qs[i],
    ) by {
        lemma_resolved_quants_mono(sumtis[term_target(sumtis, terms[i] as int)], selbris, n1, n2, ts[i], qs[i]);
    }
    assert(predication_parts(n2, selbris, sumtis, kea, b, f, ts, qs, g, k, ms, h, cs, vs));
}

/// `f` compiles sentence `id` when no relative-clause subject is waiting: a predication
/// as [`bridi_compiled`] says; a prenex as universal quantifiers over keys naming its
/// variables, outermost first, around the compiled body; two sentences joined as
/// [`spec_sentence_join`] says over their compiled sides; a GIhA chain with a shared
/// head as [`shared_head_compiled`] says.
pub open spec fn sentence_compiled(
    names: Seq<Seq<char>>,
    selbris: Seq<Selbri>,
    sumtis: Seq<Sumti>,
    sentences: Seq<Sentence>,
    kea: Option<Term>,
    id: int,
    f: LogicalForm,
) -> bool
    decreases id,
{
    if !(0 <= id < sentences.len()) {
        false
    } else {
        match sentences[id] {
            Sentence::Simple(b) => exists|n: nat| bridi_compiled(names, selbris, sumtis, kea, b, f, n),
            Sentence::Prenex(vars, body) => body < id && exists|keys: Seq<u32>, g: LogicalForm|
                {
                    &&& keys.len() == vars@.len()
                    &&& forall|i: int|
                        0 <= i < keys.len() ==> #[trigger] keys[i] < names.len() && names[keys[i] as int]
                            == spec_cmavo_text(vars@[i])
                    &&& f == spec_forall_all(keys, g)
                    &&& sentence_compiled(names, selbris, sumtis, sentences, kea, body as int, g)
                },
            Sentence::Connected(c, l, r) => l < id && r < id && exists|lf: LogicalForm, rf: LogicalForm|
                {
                    &&& f == spec_sentence_join(c, lf, rf)
                    &&& sentence_compiled(names, selbris, sumtis, sentences, kea, l as int, lf)
                    &&& sentence_compiled(names, selbris, sumtis, sentences, kea, r as int, rf)
                },
            Sentence::SharedHead(head, tails) => shared_head_compiled(names, selbris, sumtis, kea, head, tails@, f),
        }
    }
}

/// A compiled sentence stays compiled as the interner and the sumti buffer grow.
pub proof fn lemma_compiled_lift(
    n1: Seq<Seq<char>>,
    n2: Seq<Seq<char>>,
    u1: Seq<Sumti>,
    u2: Seq<Sumti>,
    selbris: Seq<Selbri>,
    sentences: Seq<Sentence>,
    kea: Option<Term>,
    id: int,
    f: LogicalForm,
)
    requires
        prefix_of(n1, n2),
        prefix_of(u1, u2),
        ast_wf(selbris, u1, sentences),
        sentence_compiled(n1, selbris, u1, sentences, kea, id, f),
    ensures
        sentence_compiled(n2, selbris, u2, sentences, kea, id, f),
    decreases id,
{
    lemma_wf_nodes(selbris, u1, sentences);
    assert(sentence_wf(sentences, selbris.len(), u1.len(), id));
    match sentences[id] {
        Sentence::Simple(b) => {
            let n = choose|n: nat| bridi_compiled(n1, selbris, u1, kea, b, f, n);
            lemma_bridi_lift(n1, n2, u1, u2, selbris, sentences, kea, b, f, n, n);
        },
        Sentence::Prenex(vars, body) => {
            let (keys, g) = choose|keys: Seq<u32>, g: LogicalForm|
                {
                    &&& keys.len() == vars@.len()
                    &&& forall|i: int|
                        0 <= i < keys.len() ==> #[trigger] keys[i] < n1.len() && n1[keys[i] as int]
                            == spec_cmavo_text(vars@[i])
                    &&& f == spec_forall_all(keys, g)
                    &&& sentence_compiled(n1, selbris, u1, sentences, kea, body as int, g)
                };
            lemma_compiled_lift(n1, n2, u1, u2, selbris, sentences, kea, body as int, g);
            assert forall|i: int| 0 <= i < keys.len() implies #[trigger] keys[i] < n2.len() && n2[keys[i] as int]
                == spec_cmavo_text(vars@[i]) by {
                assert(n2[keys[i] as int] == n1[keys[i] as int]);
            }
        },
        Sentence::Connected(c, l, r) => {
            let (lf, rf) = choose|lf: LogicalForm, rf: LogicalForm|
                {
                    &&& f == spec_sentence_join(c, lf, rf)
                    &&& sentence_compiled(n1, selbris, u1, sentences, kea, l as int, lf)
                    &&& sentence_compiled(n1, selbris, u1, sentences, kea, r as int, rf)
                };
            lemma_compiled_lift(n1, n2, u1, u2, selbris, sentences, kea, l as int, lf);
            lemma_compiled_lift(n1, n2, u1, u2, selbris, sentences, kea, r as int, rf);
        },
        Sentence::SharedHead(head, tails) => {
            lemma_shared_head_lift(n1, n2, u1, u2, selbris, sentences, kea, head, tails@, f);
        },
    }
}

/// Placing terms that exist in a prefix of the sumti buffer reads only that prefix.
pub proof fn lemma_placed_from_prefix(
    u1: Seq<Sumti>,
    u2: Seq<Sumti>,
    terms: Seq<u32>,
    ts: Seq<Term>,
    init: Seq<Option<Term>>,
    next0: int,
)
    requires
        prefix_of(u1, u2),
        terms_wf(terms, u1.len()),
    ensures
        spec_placed_from(u1, terms, ts, init, next0) == spec_placed_from(u2, terms, ts, init, next0),
    decreases terms.len(),
{
    if terms.len() > 0 && ts.len() == terms.len() {
        assert(terms_wf(terms.drop_last(), u1.len())) by {
            assert forall|k: int| 0 <= k < terms.drop_last().len() implies #[trigger] terms.drop_last()[k] < u1.len() by {
                assert(terms.drop_last()[k] == terms[k]);
            }
        }
        lemma_placed_from_prefix(u1, u2, terms.drop_last(), ts.drop_last(), init, next0);
        assert(terms[terms.len() - 1] < u1.len());
        assert(u2[terms.last() as int] == u1[terms.last() as int]);
    }
}

/// Placing terms that exist in a prefix of the sumti buffer reads only that prefix.
pub proof fn lemma_placed_prefix(
    u1: Seq<Sumti>,
    u2: Seq<Sumti>,
    terms: Seq<u32>,
    ts: Seq<Term>,
    init: Seq<Option<Term>>,
)
    requires
        prefix_of(u1, u2),
        terms_wf(terms, u1.len()),
    ensures
        spec_placed(u1, terms, ts, init) == spec_placed(u2, terms, ts, init),
{
    lemma_placed_from_prefix(u1, u2, terms, ts, init, 0);
}

/// A compiled predication stays one as the sumti buffer grows.
pub proof fn lemma_predication_up(
    u1: Seq<Sumti>,
    u2: Seq<Sumti>,
    names: Seq<Seq<char>>,
    selbris: Seq<Selbri>,
    sentences: Seq<Sentence>,
    kea: Option<Term>,
    b: Bridi,
    f: LogicalForm,
)
    requires
        prefix_of(u1, u2),
        ast_wf(selbris, u1, sentences),
        bridi_wf(b, selbris.len(), u1.len()),
        predication_of(names, selbris, u1, kea, b, f),
    ensures
        predication_of(names, selbris, u2, kea, b, f),
{
    let (ts, qs, g, k, ms, h, cs, vs) = choose|
        ts: Seq<Term>,
        qs: Seq<Seq<QuantifierEntry>>,
        g: LogicalForm,
        k: LogicalForm,
        ms: Seq<ScopeMarker>,
        h: LogicalForm,
        cs: Seq<LogicalForm>,
        vs: Seq<u32>,
    | #[trigger] predication_parts(names, selbris, u1, kea, b, f, ts, qs, g, k, ms, h, cs, vs);
    let terms = bridi_terms(b);
    let arity = spec_selbri_arity(selbris, b.relation as int);
    lemma_wf_nodes(selbris, u1, sentences);
    lemma_bridi_wf_terms(b, selbris.len(), u1.len());
    assert forall|j: int| 0 <= j < terms.len() implies 0 <= term_target(u1, #[trigger] terms[j] as int) < u1.len()
        && terms[j] < u1.len() by {
        assert(sumti_wf(u1, selbris.len(), sentences.len(), terms[j] as int));
    }
    lemma_clause_total_prefix(u1, u2, terms);
    lemma_placed_prefix(u1, u2, terms, ts, spec_empty_slots(arity));
    lemma_modal_terms_prefix(u1, u2, terms, ts);
    lemma_term_quants_prefix(u1, u2, terms, qs);
    assert forall|i: int| 0 <= i < ts.len() implies #[trigger] resolved_term(
        u2,
        term_target(u2, terms[i] as int),
        kea,
        selbris,
        names,
        ts[i],
    ) by {
        let id = terms[i] as int;
        assert(u2[id] == u1[id]);
        assert(term_target(u2, id) == term_target(u1, id));
        lemma_resolved_up(u1, u2, term_target(u1, id), kea, selbris, names, ts[i]);
    }
    assert forall|i: int| 0 <= i < qs.len() implies #[trigger] resolved_quants(
        u2[term_target(u2, terms[i] as int)],
        selbris,
        names,
        ts[i],
        qs[i],
    ) by {
        let id = terms[i] as int;
        assert(u2[id] == u1[id]);
        assert(term_target(u2, id) == term_target(u1, id));
        assert(sumti_wf(u1, selbris.len(), sentences.len(), id));
        assert(u2[term_target(u1, id)] == u1[term_target(u1, id)]);
    }
    assert(predication_parts(names, selbris, u2, kea, b, f, ts, qs, g, k, ms, h, cs, vs));
}

/// Whether a predication has connected terms reads only the sumti its terms refer to.
pub proof fn lemma_no_connected_prefix(
    u1: Seq<Sumti>,
    u2: Seq<Sumti>,
    selbris: Seq<Selbri>,
    sentences: Seq<Sentence>,
    b: Bridi,
)
    requires
        prefix_of(u1, u2),
        ast_wf(selbris, u1, sentences),
        bridi_wf(b, selbris.len(), u1.len()),
    ensures
        no_connected(u1, b) == no_connected(u2, b),
{
    lemma_wf_nodes(selbris, u1, sentences);
    let terms = bridi_terms(b);
    assert forall|k: int| 0 <= k < terms.len() implies #[trigger] connected_at(u1, terms[k] as int)
        == connected_at(u2, terms[k] as int) by {
        if k < b.head_terms@.len() {
            assert(terms[k] == b.head_terms@[k]);
        } else {
            assert(terms[k] == b.tail_terms@[k - b.head_terms@.len()]);
        }
        let id = terms[k] as int;
        assert(u2[id] == u1[id]);
        assert(sumti_wf(u1, selbris.len(), sentences.len(), id));
        match u1[id] {
            Sumti::Tagged(_, inner) => {
                assert(u2[inner as int] == u1[inner as int]);
            },
            Sumti::ModalTagged(_, inner) => {
                assert(u2[inner as int] == u1[inner as int]);
            },
            _ => {},
        }
    }
    if no_connected(u1, b) {
        assert forall|k: int| 0 <= k < terms.len() implies #[trigger] connected_at(u2, terms[k] as int) is None by {
            assert(connected_at(u1, terms[k] as int) is None);
        }
    }
    if no_connected(u2, b) {
        assert forall|k: int| 0 <= k < terms.len() implies #[trigger] connected_at(u1, terms[k] as int) is None by {
            assert(connected_at(u2, terms[k] as int) is None);
        }
    }
}

/// The first term of `terms` that is, or wraps, a connected sumti is at `s.term_pos`,
/// and `s` describes it.
pub open spec fn first_split(sumtis: Seq<Sumti>, terms: Seq<u32>, s: ConnectedSplit) -> bool {
    &&& s.term_pos < terms.len()
    &&& split_of(sumtis, terms, s.term_pos as int, s)
    &&& forall|k: int| 0 <= k < s.term_pos ==> #[trigger] connected_at(sumtis, terms[k] as int) is None
}

/// `slot` stands for one operand of a connected term: the operand itself when the term
/// is bare, else a node wrapping the operand in the term's place tag or modal.
pub open spec fn slot_for(sumtis: Seq<Sumti>, w: ConnWrapper, operand: u32, slot: u32) -> bool {
    match w {
        ConnWrapper::Bare => slot == operand,
        ConnWrapper::Place(tag) => slot < sumtis.len() && sumtis[slot as int] == Sumti::Tagged(tag, operand),
        ConnWrapper::Modal(m) => slot < sumtis.len() && sumtis[slot as int] == Sumti::ModalTagged(
            m,
            operand,
        ),
    }
}

/// `nb` is `b` with its term at `pos` (counting head terms, then tail terms) replaced by
/// `slot`.
pub open spec fn with_slot(b: Bridi, pos: int, slot: u32, nb: Bridi) -> bool {
    &&& nb.relation == b.relation
    &&& nb.negated == b.negated
    &&& nb.tense == b.tense
    &&& nb.attitudinal == b.attitudinal
    &&& nb.head_terms@.len() == b.head_terms@.len()
    &&& bridi_terms(nb) == bridi_terms(b).update(pos, slot)
}

/// `lb` and `rb` are `b` with the connected term `s` describes replaced by a slot for its
/// left and its right operand.
pub open spec fn split_parts(sumtis: Seq<Sumti>, b: Bridi, s: ConnectedSplit, lb: Bridi, rb: Bridi) -> bool {
    &&& 0 <= s.term_pos < bridi_terms(b).len()
    &&& with_slot(b, s.term_pos as int, bridi_terms(lb)[s.term_pos as int], lb)
    &&& with_slot(b, s.term_pos as int, bridi_terms(rb)[s.term_pos as int], rb)
    &&& slot_for(sumtis, s.wrapper, s.left_id, bridi_terms(lb)[s.term_pos as int])
    &&& slot_for(sumtis, s.wrapper, s.right_id, bridi_terms(rb)[s.term_pos as int])
}

/// `f` joins `l` and `r`, the right side negated when `neg`, with connective `c`.
pub open spec fn joined_as(f: LogicalForm, c: Connective, neg: bool, l: LogicalForm, r: LogicalForm) -> bool {
    f == spec_join(
        c,
        l,
        if neg {
            LogicalForm::Not(Box::new(r))
        } else {
            r
        },
    )
}

/// `f` compiles predication `b` within `fuel` distributions: without connected terms as
/// [`predication_of`] says; otherwise by distributing its first connected term, as
/// [`split_compiled`] says.
pub open spec fn bridi_compiled(
    names: Seq<Seq<char>>,
    selbris: Seq<Selbri>,
    sumtis: Seq<Sumti>,
    kea: Option<Term>,
    b: Bridi,
    f: LogicalForm,
    fuel: nat,
) -> bool
    decreases fuel, 1nat,
{
    if no_connected(sumtis, b) {
        predication_of(names, selbris, sumtis, kea, b, f)
    } else {
        exists|s: ConnectedSplit|
            #[trigger] first_split(sumtis, bridi_terms(b), s) && split_compiled(
                names,
                selbris,
                sumtis,
                kea,
                b,
                s,
                f,
                fuel,
            )
    }
}

/// `f` distributes the connected term `s` over predication `b`: the predication with the
/// left operand in the term's place, joined by the connective to the predication with
/// the right operand there (negated when the connective carries `nai`), each compiled.
pub open spec fn split_compiled(
    names: Seq<Seq<char>>,
    selbris: Seq<Selbri>,
    sumtis: Seq<Sumti>,
    kea: Option<Term>,
    b: Bridi,
    s: ConnectedSplit,
    f: LogicalForm,
    fuel: nat,
) -> bool
    decreases fuel, 0nat,
{
    fuel > 0 && exists|lb: Bridi, rb: Bridi, l: LogicalForm, r: LogicalForm|
        #[trigger] split_parts(sumtis, b, s, lb, rb) && #[trigger] joined_as(
            f,
            s.connective,
            s.right_negated,
            l,
            r,
        ) && bridi_compiled(names, selbris, sumtis, kea, lb, l, (fuel - 1) as nat) && bridi_compiled(
            names,
            selbris,
            sumtis,
            kea,
            rb,
            r,
            (fuel - 1) as nat,
        )
}

/// One head term of a GIhA chain positioned: a place-tagged term at its tag's place, the
/// next untagged term after it; a modal term at no place; an untagged term at the next
/// place while there are places left (a selbri has at most five).
pub open spec fn spec_head_step(
    hp: Seq<(usize, Term)>,
    next: int,
    node: Sumti,
    t: Term,
) -> (Seq<(usize, Term)>, int) {
    match node {
        Sumti::Tagged(tag, _) => (hp.push((spec_tag_index(tag) as usize, t)), spec_tag_index(tag) as int + 1),
        Sumti::ModalTagged(_, _) => (hp, next),
        _ => if next < 5 {
            (hp.push((next as usize, t)), next + 1)
        } else {
            (hp, next)
        },
    }
}

/// The positions of the head terms `terms` of a GIhA chain, resolved to `ts`, and the
/// next place an untagged term takes after them.
pub open spec fn spec_head_positions(sumtis: Seq<Sumti>, terms: Seq<u32>, ts: Seq<Term>) -> (
    Seq<(usize, Term)>,
    int,
)
    decreases terms.len(),
{
    if terms.len() == 0 || ts.len() != terms.len() {
        (Seq::empty(), 0)
    } else {
        let (hp, next) = spec_head_positions(sumtis, terms.drop_last(), ts.drop_last());
        spec_head_step(hp, next, sumtis[terms.last() as int], ts.last())
    }
}

/// The places of a branch's selbri after the shared head fills its positions `hp`, in
/// order; a position beyond the places, or already filled, fills nothing.
pub open spec fn spec_head_slots(hp: Seq<(usize, Term)>, arity: nat) -> Seq<Option<Term>>
    decreases hp.len(),
{
    if hp.len() == 0 {
        spec_empty_slots(arity)
    } else {
        let slots = spec_head_slots(hp.drop_last(), arity);
        let (p, t) = hp.last();
        if p < slots.len() && slots[p as int] is None {
            slots.update(p as int, Some(t))
        } else {
            slots
        }
    }
}

/// No term of `terms` is, or wraps, a connected sumti.
pub open spec fn terms_unconnected(sumtis: Seq<Sumti>, terms: Seq<u32>) -> bool {
    forall|k: int| 0 <= k < terms.len() ==> #[trigger] connected_at(sumtis, terms[k] as int) is None
}

/// `lt` and `rt` are `terms` with the connected term `s` describes replaced by a slot for
/// its left and its right operand.
pub open spec fn terms_split_parts(
    sumtis: Seq<Sumti>,
    terms: Seq<u32>,
    s: ConnectedSplit,
    lt: Seq<u32>,
    rt: Seq<u32>,
) -> bool {
    &&& 0 <= s.term_pos < terms.len()
    &&& lt == terms.update(s.term_pos as int, lt[s.term_pos as int])
    &&& rt == terms.update(s.term_pos as int, rt[s.term_pos as int])
    &&& slot_for(sumtis, s.wrapper, s.left_id, lt[s.term_pos as int])
    &&& slot_for(sumtis, s.wrapper, s.right_id, rt[s.term_pos as int])
}

/// The parts of a compiled GIhA branch without connected terms, as
/// [`branch_predication`] describes them.
pub open spec fn branch_parts(
    names: Seq<Seq<char>>,
    selbris: Seq<Selbri>,
    sumtis: Seq<Sumti>,
    kea: Option<Term>,
    hp: Seq<(usize, Term)>,
    hnext: int,
    relation: u32,
    terms: Seq<u32>,
    negated: bool,
    tense: Option<Tense>,
    attitudinal: Option<Attitudinal>,
    f: LogicalForm,
    ts: Seq<Term>,
    qs: Seq<Seq<QuantifierEntry>>,
    g: LogicalForm,
    k: LogicalForm,
    ms: Seq<ScopeMarker>,
    h: LogicalForm,
    vs: Seq<u32>,
) -> bool {
    let arity = spec_selbri_arity(selbris, relation as int);
    let args = spec_slot_args(
        spec_placed_from(
            sumtis,
            terms,
            ts,
            spec_head_slots(hp, arity),
            if hnext < arity {
                hnext
            } else {
                arity as int
            },
        ).0,
    );
    &&& ts.len() == terms.len()
    &&& forall|i: int|
        0 <= i < ts.len() ==> #[trigger] resolved_term(
            sumtis,
            term_target(sumtis, terms[i] as int),
            kea,
            selbris,
            names,
            ts[i],
        )
    &&& qs.len() == terms.len()
    &&& forall|i: int|
        0 <= i < qs.len() ==> #[trigger] resolved_quants(
            sumtis[term_target(sumtis, terms[i] as int)],
            selbris,
            names,
            ts[i],
            qs[i],
        )
    &&& applied(names, selbris, relation as int, args, g)
    &&& modals_conjoined(names, selbris, g, spec_modal_terms(sumtis, terms, ts), spec_x1(args), k)
    &&& extends(h, k)
    &&& vs.no_duplicates()
    &&& forall|v: u32| #[trigger] vs.contains(v) ==> occurs_free(k, v)
    &&& h == spec_exists_all(vs, k)
    &&& spec_desc_quants(ms) == spec_term_quants(sumtis, terms, qs) + spec_modal_quants(sumtis, terms, qs)
    &&& f == spec_wrapped(negated, tense, attitudinal, spec_fold_markers(ms, h))
}

/// One branch of a GIhA chain without connected terms: the shared head fills its
/// positions `hp`, the branch's own terms, resolved to `ts`, fill places from the
/// head's next place on as [`spec_placed_from`] says, the selbri applied to the places
/// gives `g`, the branch's modal predicates are conjoined as [`modals_conjoined`] says
/// giving `k`, the variables `vs`, each free in `k`, are closed existentially around it
/// giving `h`, the branch's own
/// scopes `ms` close around `h` (their description quantifiers those of the branch's
/// terms in surface order, then those of its modal terms), and `na`, the tense and the
/// attitudinal wrap the whole.
pub open spec fn branch_predication(
    names: Seq<Seq<char>>,
    selbris: Seq<Selbri>,
    sumtis: Seq<Sumti>,
    kea: Option<Term>,
    hp: Seq<(usize, Term)>,
    hnext: int,
    relation: u32,
    terms: Seq<u32>,
    negated: bool,
    tense: Option<Tense>,
    attitudinal: Option<Attitudinal>,
    f: LogicalForm,
) -> bool {
    exists|
        ts: Seq<Term>,
        qs: Seq<Seq<QuantifierEntry>>,
        g: LogicalForm,
        k: LogicalForm,
        ms: Seq<ScopeMarker>,
        h: LogicalForm,
        vs: Seq<u32>,
    |
        #[trigger] branch_parts(
            names,
            selbris,
            sumtis,
            kea,
            hp,
            hnext,
            relation,
            terms,
            negated,
            tense,
            attitudinal,
            f,
            ts,
            qs,
            g,
            k,
            ms,
            h,
            vs,
        )
}

/// `f` compiles one branch of a GIhA chain within `fuel` distributions: without connected
/// terms as [`branch_predication`] says; otherwise by distributing its first connected
/// term over the branch, as for a predication.
pub open spec fn branch_compiled(
    names: Seq<Seq<char>>,
    selbris: Seq<Selbri>,
    sumtis: Seq<Sumti>,
    kea: Option<Term>,
    hp: Seq<(usize, Term)>,
    hnext: int,
    relation: u32,
    terms: Seq<u32>,
    negated: bool,
    tense: Option<Tense>,
    attitudinal: Option<Attitudinal>,
    f: LogicalForm,
    fuel: nat,
) -> bool
    decreases fuel,
{
    if terms_unconnected(sumtis, terms) {
        branch_predication(
            names,
            selbris,
            sumtis,
            kea,
            hp,
            hnext,
            relation,
            terms,
            negated,
            tense,
            attitudinal,
            f,
        )
    } else {
        fuel > 0 && exists|s: ConnectedSplit, lt: Seq<u32>, rt: Seq<u32>, l: LogicalForm, r: LogicalForm|
            #[trigger] first_split(sumtis, terms, s) && #[trigger] terms_split_parts(sumtis, terms, s, lt, rt)
                && #[trigger] joined_as(f, s.connective, s.right_negated, l, r) && branch_compiled(
                names,
                selbris,
                sumtis,
                kea,
                hp,
                hnext,
                relation,
                lt,
                negated,
                tense,
                attitudinal,
                l,
                (fuel - 1) as nat,
            ) && branch_compiled(
                names,
                selbris,
                sumtis,
                kea,
                hp,
                hnext,
                relation,
                rt,
                negated,
                tense,
                attitudinal,
                r,
                (fuel - 1) as nat,
            )
    }
}

/// The branches of a GIhA chain joined left to right: the first `n` tails' connectives,
/// each tail's branch negated when its connective carries `nai`.
pub open spec fn chain_form(branches: Seq<LogicalForm>, tails: Seq<GihaTail>, n: int) -> LogicalForm
    decreases n,
{
    if n <= 0 {
        branches[0]
    } else {
        spec_join(
            tails[n - 1].connective,
            chain_form(branches, tails, n - 1),
            if tails[n - 1].right_negated {
                LogicalForm::Not(Box::new(branches[n]))
            } else {
                branches[n]
            },
        )
    }
}

/// `f` compiles a GIhA chain with a shared head: the head terms resolve once, to `ts`,
/// and take the positions [`spec_head_positions`] gives; one branch per bridi-tail, the
/// head's own first, each compiled as [`branch_compiled`] says over those positions; the
/// branches joined as [`chain_form`] says; the head's modal predicates and relative
/// clauses conjoined and leftover variables closed around the chain; and the head's
/// scopes closed around the whole, so every branch speaks of the same witnesses.
pub open spec fn shared_head_compiled(
    names: Seq<Seq<char>>,
    selbris: Seq<Selbri>,
    sumtis: Seq<Sumti>,
    kea: Option<Term>,
    head: Bridi,
    tails: Seq<GihaTail>,
    f: LogicalForm,
) -> bool {
    exists|
        ts: Seq<Term>,
        qs: Seq<Seq<QuantifierEntry>>,
        branches: Seq<LogicalForm>,
        k: LogicalForm,
        ms: Seq<ScopeMarker>,
        h: LogicalForm,
        n: nat,
    | #[trigger] shared_head_parts(names, selbris, sumtis, kea, head, tails, f, ts, qs, branches, k, ms, h, n)
}

/// The parts of a compiled GIhA chain, as [`shared_head_compiled`] describes them.
pub open spec fn shared_head_parts(
    names: Seq<Seq<char>>,
    selbris: Seq<Selbri>,
    sumtis: Seq<Sumti>,
    kea: Option<Term>,
    head: Bridi,
    tails: Seq<GihaTail>,
    f: LogicalForm,
    ts: Seq<Term>,
    qs: Seq<Seq<QuantifierEntry>>,
    branches: Seq<LogicalForm>,
    k: LogicalForm,
    ms: Seq<ScopeMarker>,
    h: LogicalForm,
    n: nat,
) -> bool {
    let (hp, hnext) = spec_head_positions(sumtis, head.head_terms@, ts);
    &&& ts.len() == head.head_terms@.len()
    &&& forall|k: int|
        0 <= k < ts.len() ==> #[trigger] resolved_term(
            sumtis,
            term_target(sumtis, head.head_terms@[k] as int),
            kea,
            selbris,
            names,
            ts[k],
        )
    &&& branches.len() == tails.len() + 1
    &&& branch_compiled(
        names,
        selbris,
        sumtis,
        kea,
        hp,
        hnext,
        head.relation,
        head.tail_terms@,
        head.negated,
        head.tense,
        head.attitudinal,
        branches[0],
        n,
    )
    &&& forall|t: int|
        0 <= t < tails.len() ==> #[trigger] branch_compiled(
            names,
            selbris,
            sumtis,
            kea,
            hp,
            hnext,
            tails[t].relation,
            tails[t].tail_terms@,
            tails[t].negated,
            None,
            None,
            branches[t + 1],
            n,
        )
    &&& modals_conjoined(
        names,
        selbris,
        chain_form(branches, tails, tails.len() as int),
        spec_modal_terms(sumtis, head.head_terms@, ts),
        spec_head_x1(hp),
        k,
    )
    &&& extends(h, k)
    &&& qs.len() == head.head_terms@.len()
    &&& forall|i: int|
        0 <= i < qs.len() ==> #[trigger] resolved_quants(
            sumtis[term_target(sumtis, head.head_terms@[i] as int)],
            selbris,
            names,
            ts[i],
            qs[i],
        )
    &&& spec_desc_quants(ms) == spec_term_quants(sumtis, head.head_terms@, qs) + spec_modal_quants(
        sumtis,
        head.head_terms@,
        qs,
    )
    &&& f == spec_fold_markers(ms, h)
}

/// The first connected term of an existing term list stays the first, and the list stays
/// unconnected when it was, as the buffer grows.
pub proof fn lemma_terms_split_up(
    u1: Seq<Sumti>,
    u2: Seq<Sumti>,
    selbris: Seq<Selbri>,
    sentences: Seq<Sentence>,
    terms: Seq<u32>,
)
    requires
        prefix_of(u1, u2),
        ast_wf(selbris, u1, sentences),
        terms_wf(terms, u1.len()),
    ensures
        terms_unconnected(u1, terms) == terms_unconnected(u2, terms),
        forall|s: ConnectedSplit| #[trigger] first_split(u1, terms, s) ==> first_split(u2, terms, s),
{
    assert forall|k: int| 0 <= k < terms.len() implies #[trigger] connected_at(u1, terms[k] as int)
        == connected_at(u2, terms[k] as int) by {
        lemma_connected_at_prefix(u1, u2, selbris, sentences, terms[k] as int);
    }
    if terms_unconnected(u1, terms) {
        assert forall|k: int| 0 <= k < terms.len() implies #[trigger] connected_at(u2, terms[k] as int) is None by {
            assert(connected_at(u1, terms[k] as int) is None);
        }
    }
    if terms_unconnected(u2, terms) {
        assert forall|k: int| 0 <= k < terms.len() implies #[trigger] connected_at(u1, terms[k] as int) is None by {
            assert(connected_at(u2, terms[k] as int) is None);
        }
    }
    assert forall|s: ConnectedSplit| #[trigger] first_split(u1, terms, s) implies first_split(u2, terms, s) by {
        lemma_connected_at_prefix(u1, u2, selbris, sentences, terms[s.term_pos as int] as int);
        assert forall|k: int| 0 <= k < s.term_pos implies #[trigger] connected_at(u2, terms[k] as int) is None by {
            assert(connected_at(u1, terms[k] as int) is None);
        }
    }
}

/// A term list with its first connected term replaced by a slot for an operand of it
/// names existing sumti.
pub proof fn lemma_terms_slot_wf(
    u1: Seq<Sumti>,
    selbris: Seq<Selbri>,
    sentences: Seq<Sentence>,
    terms: Seq<u32>,
    s: ConnectedSplit,
    operand: u32,
    nt: Seq<u32>,
)
    requires
        ast_wf(selbris, u1, sentences),
        terms_wf(terms, u1.len()),
        first_split(u1, terms, s),
        operand == s.left_id || operand == s.right_id,
        nt == terms.update(s.term_pos as int, nt[s.term_pos as int]),
        slot_for(u1, s.wrapper, operand, nt[s.term_pos as int]),
    ensures
        terms_wf(nt, u1.len()),
{
    lemma_wf_nodes(selbris, u1, sentences);
    let t = terms[s.term_pos as int] as int;
    let (w, c) = connected_at(u1, t)->0;
    assert(sumti_wf(u1, selbris.len(), sentences.len(), c as int));
    assert(sumti_wf(u1, selbris.len(), sentences.len(), t));
    assert(operand < u1.len());
    assert forall|k: int| 0 <= k < nt.len() implies #[trigger] nt[k] < u1.len() by {
        if k != s.term_pos {
            assert(nt[k] == terms[k]);
        }
    }
}

/// A compiled GIhA branch stays compiled as the interner and the sumti buffer grow and
/// with more distributions allowed.
pub proof fn lemma_branch_lift(
    n1: Seq<Seq<char>>,
    n2: Seq<Seq<char>>,
    u1: Seq<Sumti>,
    u2: Seq<Sumti>,
    selbris: Seq<Selbri>,
    sentences: Seq<Sentence>,
    kea: Option<Term>,
    hp: Seq<(usize, Term)>,
    hnext: int,
    relation: u32,
    terms: Seq<u32>,
    negated: bool,
    tense: Option<Tense>,
    attitudinal: Option<Attitudinal>,
    f: LogicalForm,
    fuel: nat,
    fuel2: nat,
)
    requires
        prefix_of(n1, n2),
        prefix_of(u1, u2),
        ast_wf(selbris, u1, sentences),
        terms_wf(terms, u1.len()),
        fuel <= fuel2,
        branch_compiled(n1, selbris, u1, kea, hp, hnext, relation, terms, negated, tense, attitudinal, f, fuel),
    ensures
        branch_compiled(n2, selbris, u2, kea, hp, hnext, relation, terms, negated, tense, attitudinal, f, fuel2),
    decreases fuel,
{
    lemma_terms_split_up(u1, u2, selbris, sentences, terms);
    let arity = spec_selbri_arity(selbris, relation as int);
    if terms_unconnected(u1, terms) {
        let (ts, qs, g, k, ms, h, vs) = choose|
            ts: Seq<Term>,
            qs: Seq<Seq<QuantifierEntry>>,
            g: LogicalForm,
            k: LogicalForm,
            ms: Seq<ScopeMarker>,
            h: LogicalForm,
            vs: Seq<u32>,
        | #[trigger] branch_parts(n1, selbris, u1, kea, hp, hnext, relation, terms, negated, tense, attitudinal, f, ts, qs, g, k, ms, h, vs);
        let next0 = if hnext < arity {
            hnext
        } else {
            arity as int
        };
        let args = spec_slot_args(spec_placed_from(u1, terms, ts, spec_head_slots(hp, arity), next0).0);
        lemma_placed_from_prefix(u1, u2, terms, ts, spec_head_slots(hp, arity), next0);
        lemma_modal_terms_prefix(u1, u2, terms, ts);
        lemma_applied_mono(n1, n2, selbris, relation as int, args, g);
        lemma_modals_conjoined_mono(n1, n2, selbris, g, spec_modal_terms(u1, terms, ts), spec_x1(args), k);
        lemma_wf_nodes(selbris, u1, sentences);
        assert forall|i: int| 0 <= i < ts.len() implies #[trigger] resolved_term(
            u2,
            term_target(u2, terms[i] as int),
            kea,
            selbris,
            n2,
            ts[i],
        ) by {
            let id = terms[i] as int;
            assert(u2[id] == u1[id]);
            assert(term_target(u2, id) == term_target(u1, id));
            lemma_resolved_mono(u1, term_target(u1, id), kea, selbris, n1, n2, ts[i]);
            lemma_resolved_up(u1, u2, term_target(u1, id), kea, selbris, n2, ts[i]);
        }
        lemma_term_quants_prefix(u1, u2, terms, qs);
        assert forall|i: int| 0 <= i < qs.len() implies #[trigger] resolved_quants(
            u2[term_target(u2, terms[i] as int)],
            selbris,
            n2,
            ts[i],
            qs[i],
        ) by {
            let id = terms[i] as int;
            assert(u2[id] == u1[id]);
            assert(term_target(u2, id) == term_target(u1, id));
            assert(sumti_wf(u1, selbris.len(), sentences.len(), id));
            assert(u2[term_target(u1, id)] == u1[term_target(u1, id)]);
            lemma_resolved_quants_mono(u1[term_target(u1, id)], selbris, n1, n2, ts[i], qs[i]);
        }
        assert(branch_parts(n2, selbris, u2, kea, hp, hnext, relation, terms, negated, tense, attitudinal, f, ts, qs, g, k, ms, h, vs));
    } else {
        let (s, lt, rt, l, r) = choose|s: ConnectedSplit, lt: Seq<u32>, rt: Seq<u32>, l: LogicalForm, r: LogicalForm|
            #[trigger] first_split(u1, terms, s) && #[trigger] terms_split_parts(u1, terms, s, lt, rt)
                && #[trigger] joined_as(f, s.connective, s.right_negated, l, r) && branch_compiled(
                n1,
                selbris,
                u1,
                kea,
                hp,
                hnext,
                relation,
                lt,
                negated,
                tense,
                attitudinal,
                l,
                (fuel - 1) as nat,
            ) && branch_compiled(
                n1,
                selbris,
                u1,
                kea,
                hp,
                hnext,
                relation,
                rt,
                negated,
                tense,
                attitudinal,
                r,
                (fuel - 1) as nat,
            );
        lemma_terms_slot_wf(u1, selbris, sentences, terms, s, s.left_id, lt);
        lemma_terms_slot_wf(u1, selbris, sentences, terms, s, s.right_id, rt);
        lemma_branch_lift(n1, n2, u1, u2, selbris, sentences, kea, hp, hnext, relation, lt, negated, tense, attitudinal, l, (fuel - 1) as nat, (fuel2 - 1) as nat);
        lemma_branch_lift(n1, n2, u1, u2, selbris, sentences, kea, hp, hnext, relation, rt, negated, tense, attitudinal, r, (fuel - 1) as nat, (fuel2 - 1) as nat);
        match s.wrapper {
            ConnWrapper::Bare => {},
            _ => {
                assert(u2[lt[s.term_pos as int] as int] == u1[lt[s.term_pos as int] as int]);
                assert(u2[rt[s.term_pos as int] as int] == u1[rt[s.term_pos as int] as int]);
            },
        }
        assert(terms_split_parts(u2, terms, s, lt, rt));
        assert(first_split(u2, terms, s));
    }
}

/// Positioning head terms that exist in a prefix of the sumti buffer reads only that
/// prefix.
pub proof fn lemma_head_positions_prefix(u1: Seq<Sumti>, u2: Seq<Sumti>, terms: Seq<u32>, ts: Seq<Term>)
    requires
        prefix_of(u1, u2),
        terms_wf(terms, u1.len()),
    ensures
        spec_head_positions(u1, terms, ts) == spec_head_positions(u2, terms, ts),
    decreases terms.len(),
{
    if terms.len() > 0 && ts.len() == terms.len() {
        assert(terms_wf(terms.drop_last(), u1.len())) by {
            assert forall|k: int| 0 <= k < terms.drop_last().len() implies #[trigger] terms.drop_last()[k] < u1.len() by {
                assert(terms.drop_last()[k] == terms[k]);
            }
        }
        lemma_head_positions_prefix(u1, u2, terms.drop_last(), ts.drop_last());
        assert(terms[terms.len() - 1] < u1.len());
        assert(u2[terms.last() as int] == u1[terms.last() as int]);
    }
}

/// Joining one more branch extends the chain by that branch and tail.
pub proof fn lemma_chain_form_push(branches: Seq<LogicalForm>, tails: Seq<GihaTail>, t: int, r: LogicalForm)
    requires
        0 <= t < tails.len(),
        branches.len() == t + 1,
    ensures
        chain_form(branches.push(r), tails, t + 1) == spec_join(
            tails[t].connective,
            chain_form(branches, tails, t),
            if tails[t].right_negated {
                LogicalForm::Not(Box::new(r))
            } else {
                r
            },
        ),
{
    lemma_chain_form_prefix(branches, branches.push(r), tails, t);
}

/// A chain over the first branches reads only those branches.
pub proof fn lemma_chain_form_prefix(b1: Seq<LogicalForm>, b2: Seq<LogicalForm>, tails: Seq<GihaTail>, t: int)
    requires
        0 <= t < b1.len(),
        b1.len() <= b2.len(),
        forall|m: int| 0 <= m < b1.len() ==> #[trigger] b2[m] == b1[m],
    ensures
        chain_form(b1, tails, t) == chain_form(b2, tails, t),
    decreases t,
{
    if t > 0 {
        lemma_chain_form_prefix(b1, b2, tails, t - 1);
    }
}

/// A compiled GIhA chain stays compiled as the interner and the sumti buffer grow.
pub proof fn lemma_shared_head_lift(
    n1: Seq<Seq<char>>,
    n2: Seq<Seq<char>>,
    u1: Seq<Sumti>,
    u2: Seq<Sumti>,
    selbris: Seq<Selbri>,
    sentences: Seq<Sentence>,
    kea: Option<Term>,
    head: Bridi,
    tails: Seq<GihaTail>,
    f: LogicalForm,
)
    requires
        prefix_of(n1, n2),
        prefix_of(u1, u2),
        ast_wf(selbris, u1, sentences),
        bridi_wf(head, selbris.len(), u1.len()),
        forall|t: int| 0 <= t < tails.len() ==> tail_wf(#[trigger] tails[t], selbris.len(), u1.len()),
        shared_head_compiled(n1, selbris, u1, kea, head, tails, f),
    ensures
        shared_head_compiled(n2, selbris, u2, kea, head, tails, f),
{
    let (ts, qs, branches, k, ms, h, n) = choose|
        ts: Seq<Term>,
        qs: Seq<Seq<QuantifierEntry>>,
        branches: Seq<LogicalForm>,
        k: LogicalForm,
        ms: Seq<ScopeMarker>,
        h: LogicalForm,
        n: nat,
    | #[trigger] shared_head_parts(n1, selbris, u1, kea, head, tails, f, ts, qs, branches, k, ms, h, n);
    lemma_bridi_wf_terms(head, selbris.len(), u1.len());
    lemma_head_positions_prefix(u1, u2, head.head_terms@, ts);
    let (hp, hnext) = spec_head_positions(u1, head.head_terms@, ts);
    lemma_branch_lift(n1, n2, u1, u2, selbris, sentences, kea, hp, hnext, head.relation, head.tail_terms@, head.negated, head.tense, head.attitudinal, branches[0], n, n);
    assert forall|t: int| 0 <= t < tails.len() implies #[trigger] branch_compiled(
        n2,
        selbris,
        u2,
        kea,
        hp,
        hnext,
        tails[t].relation,
        tails[t].tail_terms@,
        tails[t].negated,
        None,
        None,
        branches[t + 1],
        n,
    ) by {
        assert(tail_wf(tails[t], selbris.len(), u1.len()));
        lemma_branch_lift(n1, n2, u1, u2, selbris, sentences, kea, hp, hnext, tails[t].relation, tails[t].tail_terms@, tails[t].negated, None, None, branches[t + 1], n, n);
    }
    lemma_wf_nodes(selbris, u1, sentences);
    assert forall|k: int| 0 <= k < ts.len() implies #[trigger] resolved_term(
        u2,
        term_target(u2, head.head_terms@[k] as int),
        kea,
        selbris,
        n2,
        ts[k],
    ) by {
        let id = head.head_terms@[k] as int;
        assert(u2[id] == u1[id]);
        assert(term_target(u2, id) == term_target(u1, id));
        lemma_resolved_mono(u1, term_target(u1, id), kea, selbris, n1, n2, ts[k]);
        lemma_resolved_up(u1, u2, term_target(u1, id), kea, selbris, n2, ts[k]);
    }
    lemma_modal_terms_prefix(u1, u2, head.head_terms@, ts);
    lemma_modals_conjoined_mono(n1, n2, selbris, chain_form(branches, tails, tails.len() as int), spec_modal_terms(u1, head.head_terms@, ts), spec_head_x1(hp), k);
    lemma_term_quants_prefix(u1, u2, head.head_terms@, qs);
    assert forall|i: int| 0 <= i < qs.len() implies #[trigger] resolved_quants(
        u2[term_target(u2, head.head_terms@[i] as int)],
        selbris,
        n2,
        ts[i],
        qs[i],
    ) by {
        let id = head.head_terms@[i] as int;
        assert(u2[id] == u1[id]);
        assert(term_target(u2, id) == term_target(u1, id));
        assert(sumti_wf(u1, selbris.len(), sentences.len(), id));
        assert(u2[term_target(u1, id)] == u1[term_target(u1, id)]);
        lemma_resolved_quants_mono(u1[term_target(u1, id)], selbris, n1, n2, ts[i], qs[i]);
    }
    assert(shared_head_parts(n2, selbris, u2, kea, head, tails, f, ts, qs, branches, k, ms, h, n));
}

/// The word a modal tag's predicate uses: a BAI's gismu, or the head word of a `fi'o`
/// selbri.
pub open spec fn spec_modal_name(selbris: Seq<Selbri>, m: ModalTag) -> Seq<char> {
    match m {
        ModalTag::Fixed(bai) => spec_bai_gismu(bai),
        ModalTag::Fio(sel) => spec_head_name(selbris, sel as int),
    }
}

/// The number of places of a modal tag's predicate.
pub open spec fn spec_modal_arity(selbris: Seq<Selbri>, m: ModalTag) -> nat {
    match m {
        ModalTag::Fixed(bai) => spec_arity_or_default(spec_bai_gismu(bai)),
        ModalTag::Fio(sel) => spec_selbri_arity(selbris, sel as int),
    }
}

/// A modal predicate's arguments: the tagged term, the main x1, then unfilled places up to
/// `arity`.
pub open spec fn spec_modal_args(tagged: Term, x1: Term, arity: nat) -> Seq<Term> {
    seq![tagged, x1] + Seq::new((arity - 2) as nat, |i: int| Term::Unspecified)
}

/// The modal tags and tagged terms of a list of modal terms.
pub open spec fn spec_modal_pairs(ms: Seq<(ModalTag, Term, Vec<QuantifierEntry>)>) -> Seq<(ModalTag, Term)> {
    ms.map_values(|m: (ModalTag, Term, Vec<QuantifierEntry>)| (m.0, m.1))
}

/// `f` is `form` with one predicate per modal term of `ms` conjoined on the right, in
/// order: the modal's word over the tagged term in x1, the main x1 in x2 and unfilled
/// places after.
pub open spec fn modals_conjoined(
    names: Seq<Seq<char>>,
    selbris: Seq<Selbri>,
    form: LogicalForm,
    ms: Seq<(ModalTag, Term)>,
    x1: Term,
    f: LogicalForm,
) -> bool
    decreases ms.len(),
{
    if ms.len() == 0 {
        f == form
    } else {
        f matches LogicalForm::And(l, r) && modals_conjoined(names, selbris, form, ms.drop_last(), x1, *l) && (
        *r matches LogicalForm::Predicate { relation, args } && relation < names.len() && names[relation as int]
            == spec_modal_name(selbris, ms.last().0) && args@ == spec_modal_args(
            ms.last().1,
            x1,
            spec_modal_arity(selbris, ms.last().0),
        ))
    }
}

/// Conjoined modal predicates stay so as the interner grows.
pub proof fn lemma_modals_conjoined_mono(
    n1: Seq<Seq<char>>,
    n2: Seq<Seq<char>>,
    selbris: Seq<Selbri>,
    form: LogicalForm,
    ms: Seq<(ModalTag, Term)>,
    x1: Term,
    f: LogicalForm,
)
    requires
        prefix_of(n1, n2),
        modals_conjoined(n1, selbris, form, ms, x1, f),
    ensures
        modals_conjoined(n2, selbris, form, ms, x1, f),
    decreases ms.len(),
{
    if ms.len() > 0 {
        if let LogicalForm::And(l, _) = f {
            lemma_modals_conjoined_mono(n1, n2, selbris, form, ms.drop_last(), x1, *l);
        }
    }
}

/// Two compiled sides of a distributed connected term make the distribution of the
/// whole predication.
pub proof fn lemma_split_sides(
    n_l: Seq<Seq<char>>,
    names: Seq<Seq<char>>,
    u_mid: Seq<Sumti>,
    u_l: Seq<Sumti>,
    u: Seq<Sumti>,
    selbris: Seq<Selbri>,
    sentences: Seq<Sentence>,
    kea: Option<Term>,
    b: Bridi,
    split: ConnectedSplit,
    lb: Bridi,
    rb: Bridi,
    l: LogicalForm,
    r: LogicalForm,
    f: LogicalForm,
)
    requires
        prefix_of(n_l, names),
        prefix_of(u_mid, u_l),
        prefix_of(u_l, u),
        ast_wf(selbris, u_mid, sentences),
        ast_wf(selbris, u_l, sentences),
        ast_wf(selbris, u, sentences),
        bridi_wf(lb, selbris.len(), u_mid.len()),
        bridi_wf(rb, selbris.len(), u_mid.len()),
        split_parts(u_mid, b, split, lb, rb),
        exists|n: nat| bridi_compiled(n_l, selbris, u_l, kea, lb, l, n),
        exists|n: nat| bridi_compiled(names, selbris, u, kea, rb, r, n),
        joined_as(f, split.connective, split.right_negated, l, r),
    ensures
        exists|n: nat| split_compiled(names, selbris, u, kea, b, split, f, n),
{
    let nl = choose|n: nat| bridi_compiled(n_l, selbris, u_l, kea, lb, l, n);
    let nr = choose|n: nat| bridi_compiled(names, selbris, u, kea, rb, r, n);
    let n = if nl <= nr {
        nr
    } else {
        nl
    };
    lemma_bridi_wf_terms(lb, selbris.len(), u_mid.len());
    lemma_bridi_terms_wf(lb, selbris.len(), u_l.len());
    lemma_bridi_lift(n_l, names, u_l, u, selbris, sentences, kea, lb, l, nl, n);
    lemma_bridi_wf_terms(rb, selbris.len(), u_mid.len());
    lemma_bridi_terms_wf(rb, selbris.len(), u.len());
    lemma_bridi_lift(names, names, u, u, selbris, sentences, kea, rb, r, nr, n);
    let ls = bridi_terms(lb)[split.term_pos as int];
    let rs = bridi_terms(rb)[split.term_pos as int];
    match split.wrapper {
        ConnWrapper::Bare => {},
        _ => {
            assert(u[ls as int] == u_mid[ls as int]);
            assert(u[rs as int] == u_mid[rs as int]);
        },
    }
    assert(split_parts(u, b, split, lb, rb));
    assert(split_compiled(names, selbris, u, kea, b, split, f, n + 1));
}

/// Every variable free in `f` is one of `s`.
pub open spec fn free_sub(f: LogicalForm, s: Set<u32>) -> bool {
    forall|k: u32| #[trigger] occurs_free(f, k) ==> s.contains(k)
}

/// The variables that may stay free in what the compiler builds from state `c`: the
/// prenex variables, and the variable `ke'a` or a relative clause's subject stands for.
pub open spec fn open_vars(c: SemanticCompiler) -> Set<u32> {
    Set::new(
        |k: u32|
            c.prenex_vars@.contains(k) || c.kea == Some(Term::Variable(k)) || c.pending_clause_subject
                == Some(Term::Variable(k)),
    )
}

/// The variables among terms.
pub open spec fn term_vars(ts: Seq<Term>) -> Set<u32> {
    Set::new(|k: u32| exists|i: int| 0 <= i < ts.len() && #[trigger] ts[i] == Term::Variable(k))
}

/// The variable a scope binds.
pub open spec fn marker_var(m: ScopeMarker) -> u32 {
    match m {
        ScopeMarker::Desc(e) => e.var,
        ScopeMarker::Bare(v) => v,
    }
}

/// The variables the scopes `ms` bind.
pub open spec fn marker_vars(ms: Seq<ScopeMarker>) -> Set<u32> {
    Set::new(|k: u32| exists|i: int| 0 <= i < ms.len() && #[trigger] marker_var(ms[i]) == k)
}

/// The variables the quantifiers `qs` bind.
pub open spec fn quant_vars(qs: Seq<QuantifierEntry>) -> Set<u32> {
    Set::new(|k: u32| exists|i: int| 0 <= i < qs.len() && #[trigger] qs[i].var == k)
}

/// Each quantifier's restrictor has no free variable but its own and those of `s`.
pub open spec fn quants_within(qs: Seq<QuantifierEntry>, s: Set<u32>) -> bool {
    forall|i: int| 0 <= i < qs.len() ==> free_sub(#[trigger] qs[i].restrictor, s.insert(qs[i].var))
}

/// Each description scope's restrictor has no free variable but its own and those of `s`.
pub open spec fn markers_within(ms: Seq<ScopeMarker>, s: Set<u32>) -> bool {
    forall|i: int|
        0 <= i < ms.len() ==> (#[trigger] ms[i] matches ScopeMarker::Desc(e) ==> free_sub(
            e.restrictor,
            s.insert(e.var),
        ))
}

/// The variables among the terms a shared head placed.
pub open spec fn placed_vars(hp: Seq<(usize, Term)>) -> Set<u32> {
    Set::new(|k: u32| exists|i: int| 0 <= i < hp.len() && #[trigger] hp[i].1 == Term::Variable(k))
}

/// Every variable introduced so far has its scope among `markers`.
pub open spec fn intro_marked(introduced: Seq<u32>, markers: Seq<ScopeMarker>) -> bool {
    forall|k: u32| #[trigger] introduced.contains(k) ==> marker_vars(markers).contains(k)
}

/// Variable `k` of a term has a scope: it may stay open (`s`), or one of `markers` or of
/// the quantifiers of the modal terms `modals` binds it.
pub open spec fn scoped(
    s: Set<u32>,
    markers: Seq<ScopeMarker>,
    modals: Seq<(ModalTag, Term, Vec<QuantifierEntry>)>,
    k: u32,
) -> bool {
    ||| s.contains(k)
    ||| marker_vars(markers).contains(k)
    ||| exists|j: int| 0 <= j < modals.len() && #[trigger] quant_vars(modals[j].2@).contains(k)
}

/// More scopes keep their variables bound.
pub proof fn lemma_marker_vars_prefix(a: Seq<ScopeMarker>, b: Seq<ScopeMarker>)
    requires
        prefix_of(a, b),
    ensures
        marker_vars(a).subset_of(marker_vars(b)),
{
    assert forall|k: u32| marker_vars(a).contains(k) implies marker_vars(b).contains(k) by {
        let i = choose|i: int| 0 <= i < a.len() && #[trigger] marker_var(a[i]) == k;
        assert(b[i] == a[i]);
    }
}

/// What placing a term leaves open: each relative clause left waiting has no free
/// variable but the open ones and the term's; the new scopes and modal terms' restrictors
/// are within the open ones; a new modal term is the term; and the term's variable has a
/// scope when every variable introduced before had.
pub open spec fn term_placed_open(
    before: SemanticCompiler,
    after: SemanticCompiler,
    t: Term,
    f0: Frame,
    f1: Frame,
) -> bool {
    let s = open_vars(before);
    &&& forall|j: int|
        before.pending_matrix_conjuncts@.len() <= j < after.pending_matrix_conjuncts@.len() ==> free_sub(
            #[trigger] after.pending_matrix_conjuncts@[j],
            s.union(term_vars(seq![t])),
        )
    &&& markers_within(added(f0.markers@, f1.markers@), s)
    &&& forall|j: int|
        f0.modals@.len() <= j < f1.modals@.len() ==> quants_within(#[trigger] f1.modals@[j].2@, s)
            && f1.modals@[j].1 == t
    &&& intro_marked(f0.introduced@, f0.markers@) ==> (t matches Term::Variable(k) ==> scoped(
        s,
        f1.markers@,
        f1.modals@,
        k,
    ))
}

/// A modal entry a placed term adds stays within what was open.
proof fn lemma_placed_open_modal(
    before: SemanticCompiler,
    after: SemanticCompiler,
    t: Term,
    f0: Frame,
    f1: Frame,
    j: int,
)
    requires
        term_placed_open(before, after, t, f0, f1),
        f0.modals@.len() <= j < f1.modals@.len(),
    ensures
        quants_within(f1.modals@[j].2@, open_vars(before)),
        f1.modals@[j].1 == t,
{
    assert(quants_within(f1.modals@[j].2@, open_vars(before)));
}

/// What a resolved sumti leaves open, from compiler state `before` to `after`: a
/// description's term is its last quantifier's variable; each restrictor has no free
/// variable but its own and the open ones; each relative clause left waiting has none but
/// the open ones and the term's; and a term's variable is a description's, `ke'a`'s, or a
/// logic variable (`da`, `de`, `di`).
pub open spec fn resolved_open(before: SemanticCompiler, after: SemanticCompiler, t: Term, q: Seq<QuantifierEntry>) -> bool {
    &&& q.len() > 0 ==> t == Term::Variable(q.last().var)
    &&& quants_within(q, open_vars(before))
    &&& forall|j: int|
        before.pending_matrix_conjuncts@.len() <= j < after.pending_matrix_conjuncts@.len() ==> free_sub(
            #[trigger] after.pending_matrix_conjuncts@[j],
            open_vars(before).union(term_vars(seq![t])),
        )
    &&& t matches Term::Variable(k) ==> q.len() > 0 || before.kea == Some(Term::Variable(k)) || (k
        < interned(after.interner).len() && is_logic_var_name(interned(after.interner)[k as int]))
}

/// A resolved term stays a logic variable with more interned names.
pub proof fn lemma_resolved_open_names(
    before: SemanticCompiler,
    mid: SemanticCompiler,
    after: SemanticCompiler,
    t: Term,
    q: Seq<QuantifierEntry>,
)
    requires
        resolved_open(before, mid, t, q),
        prefix_of(interned(mid.interner), interned(after.interner)),
    ensures
        t matches Term::Variable(k) ==> q.len() > 0 || before.kea == Some(Term::Variable(k)) || (k
            < interned(after.interner).len() && is_logic_var_name(interned(after.interner)[k as int])),
{
    if let Term::Variable(k) = t {
        if k < interned(mid.interner).len() {
            assert(interned(after.interner)[k as int] == interned(mid.interner)[k as int]);
        }
    }
}

/// Bare scopes have no restrictor.
pub proof fn lemma_bare_within(ms: Seq<ScopeMarker>, s: Set<u32>)
    requires
        forall|i: int| 0 <= i < ms.len() ==> #[trigger] ms[i] is Bare,
    ensures
        markers_within(ms, s),
{
    assert forall|i: int| 0 <= i < ms.len() implies (#[trigger] ms[i] matches ScopeMarker::Desc(e) ==> free_sub(
        e.restrictor,
        s.insert(e.var),
    )) by {
        assert(ms[i] is Bare);
    }
}

/// The scopes `mid` left after `before`, then description scopes of `q`: the variables of
/// both, and within when the first are bare and `q`'s restrictors are within.
pub proof fn lemma_scope_push(before: Seq<ScopeMarker>, mid: Seq<ScopeMarker>, q: Seq<QuantifierEntry>, s: Set<u32>)
    requires
        prefix_of(before, mid),
        forall|i: int| 0 <= i < added(before, mid).len() ==> #[trigger] added(before, mid)[i] is Bare,
        quants_within(q, s),
    ensures
        markers_within(added(before, mid + spec_descs(q)), s),
        marker_vars(mid).subset_of(marker_vars(mid + spec_descs(q))),
        quant_vars(q).subset_of(marker_vars(mid + spec_descs(q))),
{
    lemma_bare_within(added(before, mid), s);
    lemma_descs_free(q, s);
    lemma_markers_concat(added(before, mid), spec_descs(q), s);
    assert(added(before, mid + spec_descs(q)) =~= added(before, mid) + spec_descs(q));
    lemma_markers_concat(mid, spec_descs(q), s);
}

/// Closing the scopes of a predication: when what is left free is open or a term's
/// variable, every term's variable has a scope among the terms' scopes or the modal
/// terms' quantifiers, and those scopes and quantifiers are within the open variables,
/// the scopes closed around it, modal terms' quantifiers last, leave only open ones.
pub proof fn lemma_scopes_close(
    s: Set<u32>,
    ts: Seq<Term>,
    mk: Seq<ScopeMarker>,
    ms: Seq<ScopeMarker>,
    modals: Seq<(ModalTag, Term, Vec<QuantifierEntry>)>,
    h: LogicalForm,
)
    requires
        free_sub(h, s.union(term_vars(ts))),
        forall|i: int| 0 <= i < ts.len() ==> (#[trigger] ts[i] matches Term::Variable(k) ==> scoped(s, mk, modals, k)),
        prefix_of(mk, ms),
        added(mk, ms) == spec_descs(spec_modal_entry_quants(modals)),
        markers_within(mk, s),
        forall|j: int| 0 <= j < modals.len() ==> quants_within(#[trigger] modals[j].2@, s),
    ensures
        free_sub(spec_fold_markers(ms, h), s),
{
    let eq = spec_modal_entry_quants(modals);
    lemma_modal_quants_free(modals, s);
    lemma_descs_free(eq, s);
    assert(ms =~= mk + spec_descs(eq));
    lemma_markers_concat(mk, spec_descs(eq), s);
    assert forall|k: u32| #[trigger] occurs_free(h, k) implies s.union(marker_vars(ms)).contains(k) by {
        if !s.contains(k) {
            assert(term_vars(ts).contains(k));
            let i = choose|i: int| 0 <= i < ts.len() && #[trigger] ts[i] == Term::Variable(k);
            assert(scoped(s, mk, modals, k));
            if !marker_vars(mk).contains(k) {
                let j = choose|j: int| 0 <= j < modals.len() && #[trigger] quant_vars(modals[j].2@).contains(k);
                assert(quant_vars(eq).contains(k));
            }
        }
    }
    lemma_fold_free(ms, h, s);
}

/// More scopes and modal terms keep a term's variable scoped.
pub proof fn lemma_scoped_grow(
    s: Set<u32>,
    mk0: Seq<ScopeMarker>,
    mk1: Seq<ScopeMarker>,
    md0: Seq<(ModalTag, Term, Vec<QuantifierEntry>)>,
    md1: Seq<(ModalTag, Term, Vec<QuantifierEntry>)>,
    k: u32,
)
    requires
        prefix_of(mk0, mk1),
        prefix_of(md0, md1),
        scoped(s, mk0, md0, k),
    ensures
        scoped(s, mk1, md1, k),
{
    lemma_marker_vars_prefix(mk0, mk1);
    if !s.contains(k) && !marker_vars(mk0).contains(k) {
        let j = choose|j: int| 0 <= j < md0.len() && #[trigger] quant_vars(md0[j].2@).contains(k);
        assert(md1[j] == md0[j]);
    }
}

/// Scopes within the open variables, grown by scopes within fewer, stay within.
pub proof fn lemma_markers_within_grow(a: Seq<ScopeMarker>, b: Seq<ScopeMarker>, s0: Set<u32>, s: Set<u32>)
    requires
        prefix_of(a, b),
        markers_within(a, s),
        markers_within(added(a, b), s0),
        s0.subset_of(s),
    ensures
        markers_within(b, s),
{
    let ab = added(a, b);
    assert forall|i: int| 0 <= i < b.len() implies (#[trigger] b[i] matches ScopeMarker::Desc(e) ==> free_sub(
        e.restrictor,
        s.insert(e.var),
    )) by {
        if i < a.len() {
            assert(b[i] == a[i]);
        } else {
            assert(b[i] == ab[i - a.len()]);
            if let ScopeMarker::Desc(e) = b[i] {
                lemma_free_sub_mono(e.restrictor, s0.insert(e.var), s.insert(e.var));
            }
        }
    }
}

/// What a predication's terms leave open so far: each relative clause waiting since
/// `pend0` has no free variable but the open ones (`s`) and the terms'; the scopes and
/// the modal terms' quantifiers are within the open ones; each modal term is a term; and
/// each term's variable has a scope.
pub open spec fn bridi_open(
    s: Set<u32>,
    ts: Seq<Term>,
    pend0: Seq<LogicalForm>,
    pend: Seq<LogicalForm>,
    markers: Seq<ScopeMarker>,
    modals: Seq<(ModalTag, Term, Vec<QuantifierEntry>)>,
) -> bool {
    &&& forall|j: int| pend0.len() <= j < pend.len() ==> free_sub(#[trigger] pend[j], s.union(term_vars(ts)))
    &&& markers_within(markers, s)
    &&& forall|j: int|
        0 <= j < modals.len() ==> quants_within(#[trigger] modals[j].2@, s) && term_vars(seq![modals[j].1]).subset_of(
            term_vars(ts),
        )
    &&& forall|i: int| 0 <= i < ts.len() ==> (#[trigger] ts[i] matches Term::Variable(k) ==> scoped(s, markers, modals, k))
}

/// Placing one more term keeps what the terms leave open.
#[verifier::spinoff_prover]
pub proof fn lemma_bridi_open_step(
    s: Set<u32>,
    s_i: Set<u32>,
    ts: Seq<Term>,
    t: Term,
    pend0: Seq<LogicalForm>,
    pend_i: Seq<LogicalForm>,
    pend: Seq<LogicalForm>,
    mk0: Seq<ScopeMarker>,
    mk1: Seq<ScopeMarker>,
    md0: Seq<(ModalTag, Term, Vec<QuantifierEntry>)>,
    md1: Seq<(ModalTag, Term, Vec<QuantifierEntry>)>,
)
    requires
        s_i.subset_of(s),
        prefix_of(pend_i, pend),
        prefix_of(mk0, mk1),
        prefix_of(md0, md1),
        bridi_open(s, ts, pend0, pend_i, mk0, md0),
        forall|j: int|
            pend_i.len() <= j < pend.len() ==> free_sub(#[trigger] pend[j], s_i.union(term_vars(seq![t]))),
        markers_within(added(mk0, mk1), s_i),
        forall|j: int|
            md0.len() <= j < md1.len() ==> quants_within(#[trigger] md1[j].2@, s_i)
                && md1[j].1 == t,
        t matches Term::Variable(k) ==> scoped(s_i, mk1, md1, k),
    ensures
        bridi_open(s, ts.push(t), pend0, pend, mk1, md1),
{
    let f0m = mk0;
    let f1m = mk1;
    let ts1 = ts.push(t);
    assert(term_vars(ts).subset_of(term_vars(ts1))) by {
        assert forall|k: u32| term_vars(ts).contains(k) implies term_vars(ts1).contains(k) by {
            let w = choose|w: int| 0 <= w < ts.len() && #[trigger] ts[w] == Term::Variable(k);
            assert(ts1[w] == ts[w]);
        }
    }
    assert(term_vars(seq![t]).subset_of(term_vars(ts1))) by {
        assert forall|k: u32| term_vars(seq![t]).contains(k) implies term_vars(ts1).contains(k) by {
            let w = choose|w: int| 0 <= w < 1 && #[trigger] seq![t][w] == Term::Variable(k);
            assert(ts1[ts.len() as int] == t);
        }
    }
    assert forall|j: int| pend0.len() <= j < pend.len() implies free_sub(#[trigger] pend[j], s.union(term_vars(ts1))) by {
        if j < pend_i.len() {
            assert(pend[j] == pend_i[j]);
            lemma_free_sub_mono(pend_i[j], s.union(term_vars(ts)), s.union(term_vars(ts1)));
        } else {
            lemma_free_sub_mono(pend[j], s_i.union(term_vars(seq![t])), s.union(term_vars(ts1)));
        }
    }
    lemma_markers_within_grow(mk0, mk1, s_i, s);
    assert forall|j: int| 0 <= j < md1.len() implies quants_within(#[trigger] md1[j].2@, s)
        && term_vars(seq![md1[j].1]).subset_of(term_vars(ts1)) by {
        if j < md0.len() {
            assert(md1[j] == md0[j]);
        } else {
            let q = md1[j].2@;
            assert forall|i: int| 0 <= i < q.len() implies free_sub(#[trigger] q[i].restrictor, s.insert(q[i].var)) by {
                lemma_free_sub_mono(q[i].restrictor, s_i.insert(q[i].var), s.insert(q[i].var));
            }
        }
    }
    assert forall|i: int| 0 <= i < ts1.len() implies (#[trigger] ts1[i] matches Term::Variable(k) ==> scoped(
        s,
        mk1,
        md1,
        k,
    )) by {
        if let Term::Variable(k) = ts1[i] {
            if i < ts.len() {
                assert(ts1[i] == ts[i]);
                lemma_scoped_grow(s, mk0, mk1, md0, md1, k);
            } else {
                assert(scoped(s_i, mk1, md1, k));
            }
        }
    }
}

/// A term resolved, its logic variable given a bare scope when new, then its description
/// scopes pushed (or, for a modal term, the term and its quantifiers recorded): the new
/// scopes and modal quantifiers are within the open variables, and the term's variable
/// has a scope.
pub proof fn lemma_resolved_scope(
    before: SemanticCompiler,
    after: SemanticCompiler,
    t: Term,
    q: Seq<QuantifierEntry>,
    mk0: Seq<ScopeMarker>,
    mk1: Seq<ScopeMarker>,
    mk2: Seq<ScopeMarker>,
    md0: Seq<(ModalTag, Term, Vec<QuantifierEntry>)>,
    md1: Seq<(ModalTag, Term, Vec<QuantifierEntry>)>,
    i0: Seq<u32>,
    modal: bool,
)
    requires
        resolved_open(before, after, t, q),
        after.prenex_vars@ == before.prenex_vars@,
        after.kea == before.kea,
        prefix_of(mk0, mk1),
        forall|i: int| 0 <= i < added(mk0, mk1).len() ==> #[trigger] added(mk0, mk1)[i] is Bare,
        intro_marked(i0, mk0),
        t matches Term::Variable(k) ==> (k < interned(after.interner).len() && is_logic_var_name(
            interned(after.interner)[k as int],
        ) ==> after.prenex_vars@.contains(k) || marker_vars(mk1).contains(k)),
        modal ==> mk2 == mk1 && md1.len() == md0.len() + 1 && prefix_of(md0, md1) && md1.last().1 == t
            && md1.last().2@ == q,
        !modal ==> mk2 == mk1 + spec_descs(q) && md1 == md0,
    ensures
        prefix_of(mk0, mk2),
        prefix_of(md0, md1),
        markers_within(added(mk0, mk2), open_vars(before)),
        forall|j: int| md0.len() <= j < md1.len() ==> quants_within(#[trigger] md1[j].2@, open_vars(before)) && md1[j].1 == t,
        t matches Term::Variable(k) ==> scoped(open_vars(before), mk2, md1, k),
{
    let so = open_vars(before);
    if modal {
        lemma_bare_within(added(mk0, mk1), so);
        assert(md1[md0.len() as int] == md1.last());
    } else {
        lemma_scope_push(mk0, mk1, q, so);
        lemma_markers_concat(mk1, spec_descs(q), so);
        assert forall|i: int| 0 <= i < mk0.len() implies #[trigger] mk2[i] == mk0[i] by {
            assert(mk2[i] == mk1[i]);
        }
    }
    if let Term::Variable(k) = t {
        lemma_marker_vars_prefix(mk1, mk2);
        if q.len() > 0 {
            assert(q[q.len() - 1].var == k);
            assert(quant_vars(q).contains(k));
            if modal {
                assert(quant_vars(md1[md0.len() as int].2@).contains(k));
            } else {
                lemma_descs_free(q, so);
                lemma_markers_concat(mk1, spec_descs(q), so);
            }
        } else if before.kea == Some(Term::Variable(k)) {
            assert(so.contains(k));
        } else {
            assert(after.prenex_vars@.contains(k) || marker_vars(mk1).contains(k));
        }
    }
}

/// Closing a predication: the selbri applied to the places, the modal predicates, the
/// relative clauses waiting and the scopes leave only the open variables free.
pub proof fn lemma_bridi_close(
    s: Set<u32>,
    ts: Seq<Term>,
    slots: Seq<Option<Term>>,
    args: Seq<Term>,
    main_x1: Term,
    g: LogicalForm,
    f2: LogicalForm,
    f3: LogicalForm,
    h: LogicalForm,
    pend0: Seq<LogicalForm>,
    pend: Seq<LogicalForm>,
    mk: Seq<ScopeMarker>,
    ms: Seq<ScopeMarker>,
    modals: Seq<(ModalTag, Term, Vec<QuantifierEntry>)>,
)
    requires
        bridi_open(s, ts, pend0, pend, mk, modals),
        forall|j: int| 0 <= j < slots.len() ==> (#[trigger] slots[j] matches Some(Term::Variable(k))
            ==> s.contains(k) || term_vars(ts).contains(k)),
        args.len() == slots.len(),
        forall|i: int| 0 <= i < slots.len() ==> #[trigger] args[i] == match slots[i] {
            Some(t) => t,
            None => Term::Unspecified,
        },
        args.len() > 0 ==> main_x1 == args[0],
        args.len() == 0 ==> main_x1 == Term::Unspecified,
        free_sub(g, term_vars(args).union(s)),
        forall|k: u32| #[trigger] occurs_free(f2, k) ==> occurs_free(g, k) || main_x1 == Term::Variable(k)
            || exists|j: int| 0 <= j < modals.len() && #[trigger] modals[j].1 == Term::Variable(k),
        forall|k: u32| #[trigger] occurs_free(f3, k) ==> occurs_free(f2, k) || exists|j: int|
            pend0.len() <= j < pend.len() && #[trigger] occurs_free(pend[j], k),
        forall|k: u32| #[trigger] occurs_free(h, k) ==> occurs_free(f3, k),
        prefix_of(mk, ms),
        added(mk, ms) == spec_descs(spec_modal_entry_quants(modals)),
    ensures
        free_sub(spec_fold_markers(ms, h), s),
{
    let st = s.union(term_vars(ts));
    assert forall|k: u32| #[trigger] term_vars(args).contains(k) implies st.contains(k) by {
        let i = choose|i: int| 0 <= i < args.len() && #[trigger] args[i] == Term::Variable(k);
        assert(args[i] == match slots[i] {
            Some(t) => t,
            None => Term::Unspecified,
        });
        assert(slots[i] == Some(Term::Variable(k)));
        assert(slots[i] matches Some(Term::Variable(k)));
    }
    assert forall|k: u32| #[trigger] occurs_free(h, k) implies st.contains(k) by {
        assert(occurs_free(f3, k));
        if occurs_free(f2, k) {
            if occurs_free(g, k) {
                assert(term_vars(args).union(s).contains(k));
                if term_vars(args).contains(k) {
                    assert(st.contains(k));
                }
            } else if main_x1 == Term::Variable(k) {
                assert(args.len() > 0);
                assert(args[0] == Term::Variable(k));
                assert(term_vars(args).contains(k));
                assert(st.contains(k));
            } else {
                let j = choose|j: int| 0 <= j < modals.len() && #[trigger] modals[j].1 == Term::Variable(k);
                assert(seq![modals[j].1][0] == Term::Variable(k));
                assert(term_vars(seq![modals[j].1]).contains(k));
                assert(quants_within(modals[j].2@, s) && term_vars(seq![modals[j].1]).subset_of(term_vars(ts)));
                assert(term_vars(ts).contains(k));
            }
        } else {
            let j = choose|j: int| pend0.len() <= j < pend.len() && #[trigger] occurs_free(pend[j], k);
            assert(free_sub(pend[j], st));
        }
    }
    lemma_scopes_close(s, ts, mk, ms, modals, h);
}

/// Sumti `id` carries no relative clause: it is none, nor tags one, nor joins one.
pub open spec fn clause_free(sumtis: Seq<Sumti>, id: int) -> bool
    decreases id,
{
    if 0 <= id < sumtis.len() {
        match sumtis[id] {
            Sumti::Restricted { .. } => false,
            Sumti::Tagged(_, inner) => inner < id && clause_free(sumtis, inner as int),
            Sumti::ModalTagged(_, inner) => inner < id && clause_free(sumtis, inner as int),
            Sumti::Connected(l, _, _, r) => l < id && r < id && clause_free(sumtis, l as int) && clause_free(
                sumtis,
                r as int,
            ),
            _ => true,
        }
    } else {
        false
    }
}

/// No term of a GIhA chain's branches carries a relative clause (the clause would be
/// conjoined outside the branch that binds its subject).
pub open spec fn giha_clause_free(sumtis: Seq<Sumti>, sentences: Seq<Sentence>) -> bool {
    forall|k: int|
        0 <= k < sentences.len() ==> (#[trigger] sentences[k] matches Sentence::SharedHead(head, tails) ==> {
            &&& forall|i: int| 0 <= i < head.tail_terms@.len() ==> clause_free(sumtis, #[trigger] head.tail_terms@[i] as int)
            &&& forall|t: int, i: int|
                0 <= t < tails@.len() && 0 <= i < tails@[t].tail_terms@.len() ==> clause_free(
                    sumtis,
                    #[trigger] tails@[t].tail_terms@[i] as int,
                )
        })
}

/// Appending sumti keeps an existing one free of relative clauses.
pub proof fn lemma_clause_free_prefix(u1: Seq<Sumti>, u2: Seq<Sumti>, id: int)
    requires
        prefix_of(u1, u2),
        0 <= id < u1.len(),
    ensures
        clause_free(u1, id) == clause_free(u2, id),
    decreases id,
{
    assert(u2[id] == u1[id]);
    match u1[id] {
        Sumti::Tagged(_, inner) => if inner < id {
            lemma_clause_free_prefix(u1, u2, inner as int);
        },
        Sumti::ModalTagged(_, inner) => if inner < id {
            lemma_clause_free_prefix(u1, u2, inner as int);
        },
        Sumti::Connected(l, _, _, r) => if l < id && r < id {
            lemma_clause_free_prefix(u1, u2, l as int);
            lemma_clause_free_prefix(u1, u2, r as int);
        },
        _ => {},
    }
}

/// Appending sumti keeps the GIhA chains free of relative clauses in their branches.
pub proof fn lemma_giha_grow(selbris: Seq<Selbri>, u1: Seq<Sumti>, u2: Seq<Sumti>, sentences: Seq<Sentence>)
    requires
        prefix_of(u1, u2),
        ast_wf(selbris, u1, sentences),
        giha_clause_free(u1, sentences),
    ensures
        giha_clause_free(u2, sentences),
{
    lemma_wf_nodes(selbris, u1, sentences);
    assert forall|k: int| 0 <= k < sentences.len() implies (#[trigger] sentences[k] matches Sentence::SharedHead(head, tails) ==> {
        &&& forall|i: int| 0 <= i < head.tail_terms@.len() ==> clause_free(u2, #[trigger] head.tail_terms@[i] as int)
        &&& forall|t: int, i: int|
            0 <= t < tails@.len() && 0 <= i < tails@[t].tail_terms@.len() ==> clause_free(
                u2,
                #[trigger] tails@[t].tail_terms@[i] as int,
            )
    }) by {
        if let Sentence::SharedHead(head, tails) = sentences[k] {
            assert(sentence_wf(sentences, selbris.len(), u1.len(), k));
            assert forall|i: int| 0 <= i < head.tail_terms@.len() implies clause_free(u2, #[trigger] head.tail_terms@[i] as int) by {
                assert(head.tail_terms@[i] < u1.len());
                lemma_clause_free_prefix(u1, u2, head.tail_terms@[i] as int);
            }
            assert forall|t: int, i: int| 0 <= t < tails@.len() && 0 <= i < tails@[t].tail_terms@.len() implies clause_free(
                u2,
                #[trigger] tails@[t].tail_terms@[i] as int,
            ) by {
                assert(tail_wf(tails@[t], selbris.len(), u1.len()));
                assert(tails@[t].tail_terms@[i] < u1.len());
                lemma_clause_free_prefix(u1, u2, tails@[t].tail_terms@[i] as int);
            }
        }
    }
}

/// A slot standing for an operand of a connected term free of relative clauses is free
/// of them too.
pub proof fn lemma_slot_clause_free(
    selbris: Seq<Selbri>,
    sentences: Seq<Sentence>,
    u0: Seq<Sumti>,
    u1: Seq<Sumti>,
    terms: Seq<u32>,
    split: ConnectedSplit,
    operand: u32,
    slot: u32,
)
    requires
        prefix_of(u0, u1),
        ast_wf(selbris, u0, sentences),
        ast_wf(selbris, u1, sentences),
        terms_wf(terms, u0.len()),
        split.term_pos < terms.len(),
        split_of(u0, terms, split.term_pos as int, split),
        clause_free(u0, terms[split.term_pos as int] as int),
        operand == split.left_id || operand == split.right_id,
        slot_for(u1, split.wrapper, operand, slot),
    ensures
        clause_free(u1, slot as int),
{
    lemma_wf_nodes(selbris, u0, sentences);
    lemma_wf_nodes(selbris, u1, sentences);
    let t = terms[split.term_pos as int] as int;
    assert(sumti_wf(u0, selbris.len(), sentences.len(), t));
    let found = connected_at(u0, t)->0;
    let c = found.1 as int;
    match u0[t] {
        Sumti::Connected(..) => {
            assert(c == t);
        },
        Sumti::Tagged(_, inner) => {
            assert(c == inner);
            assert(sumti_wf(u0, selbris.len(), sentences.len(), c));
        },
        Sumti::ModalTagged(_, inner) => {
            assert(c == inner);
            assert(sumti_wf(u0, selbris.len(), sentences.len(), c));
        },
        _ => {},
    }
    assert(clause_free(u0, c));
    assert(clause_free(u0, operand as int));
    lemma_clause_free_prefix(u0, u1, operand as int);
    match split.wrapper {
        ConnWrapper::Bare => {},
        _ => {
            assert(sumti_wf(u1, selbris.len(), sentences.len(), slot as int));
        },
    }
}

/// The term a shared head puts in x1 is one it placed, or unfilled.
pub proof fn lemma_head_x1_placed(hp: Seq<(usize, Term)>)
    ensures
        spec_head_x1(hp) matches Term::Variable(k) ==> placed_vars(hp).contains(k),
    decreases hp.len(),
{
    if hp.len() > 0 && hp[0].0 != 0 {
        let rest = hp.drop_first();
        lemma_head_x1_placed(rest);
        if let Term::Variable(k) = spec_head_x1(rest) {
            let i = choose|i: int| 0 <= i < rest.len() && #[trigger] rest[i].1 == Term::Variable(k);
            assert(hp[i + 1] == rest[i]);
        }
    }
}

/// `f` under existentials over `vs`, the first innermost.
pub open spec fn spec_exists_all(vs: Seq<u32>, f: LogicalForm) -> LogicalForm
    decreases vs.len(),
{
    if vs.len() == 0 {
        f
    } else {
        LogicalForm::Exists(vs.last(), Box::new(spec_exists_all(vs.drop_last(), f)))
    }
}

/// Fewer free variables than allowed stay so for more allowed.
pub proof fn lemma_free_sub_mono(f: LogicalForm, s1: Set<u32>, s2: Set<u32>)
    requires
        free_sub(f, s1),
        s1.subset_of(s2),
    ensures
        free_sub(f, s2),
{
}

/// Closing the scopes `ms` around `h` binds their variables: what stays free is free in
/// `h` or a restrictor, outside the scopes' own variables.
pub proof fn lemma_fold_free(ms: Seq<ScopeMarker>, h: LogicalForm, s: Set<u32>)
    requires
        free_sub(h, s.union(marker_vars(ms))),
        markers_within(ms, s),
    ensures
        free_sub(spec_fold_markers(ms, h), s),
    decreases ms.len(),
{
    if ms.len() > 0 {
        let v = marker_var(ms[0]);
        let rest = ms.drop_first();
        let s1 = s.insert(v);
        assert forall|k: u32| #[trigger] occurs_free(h, k) implies s1.union(marker_vars(rest)).contains(k) by {
            assert(s.union(marker_vars(ms)).contains(k));
            if marker_vars(ms).contains(k) {
                let i = choose|i: int| 0 <= i < ms.len() && #[trigger] marker_var(ms[i]) == k;
                if i > 0 {
                    assert(rest[i - 1] == ms[i]);
                    assert(marker_vars(rest).contains(k));
                }
            }
        }
        assert forall|i: int| 0 <= i < rest.len() implies (#[trigger] rest[i] matches ScopeMarker::Desc(e) ==> free_sub(
            e.restrictor,
            s1.insert(e.var),
        )) by {
            assert(rest[i] == ms[i + 1]);
            if let ScopeMarker::Desc(e) = rest[i] {
                lemma_free_sub_mono(e.restrictor, s.insert(e.var), s1.insert(e.var));
            }
        }
        lemma_fold_free(rest, h, s1);
        let inner = spec_fold_markers(rest, h);
        assert(spec_fold_markers(ms, h) == match ms[0] {
            ScopeMarker::Desc(e) => spec_close_quantifier(e, inner),
            ScopeMarker::Bare(b) => LogicalForm::Exists(b, Box::new(inner)),
        });
        match ms[0] {
            ScopeMarker::Desc(e) => {
                assert(free_sub(e.restrictor, s.insert(e.var)));
                lemma_close_free(e, inner, s);
            },
            ScopeMarker::Bare(b) => {
                let c = LogicalForm::Exists(b, Box::new(inner));
                assert forall|k: u32| #[trigger] occurs_free(c, k) implies s.contains(k) by {
                    assert(occurs_free(inner, k));
                }
            },
        }
    }
}

/// Closing a quantifier binds its variable, in its restrictor and in the body.
pub proof fn lemma_close_free(e: QuantifierEntry, body: LogicalForm, s: Set<u32>)
    requires
        free_sub(e.restrictor, s.insert(e.var)),
        free_sub(body, s.insert(e.var)),
    ensures
        free_sub(spec_close_quantifier(e, body), s),
{
    let c = spec_close_quantifier(e, body);
    assert forall|k: u32| #[trigger] occurs_free(c, k) implies s.contains(k) by {
        let r = e.restrictor;
        match e.kind {
            QuantKind::Existential => {
                let a = LogicalForm::And(Box::new(r), Box::new(body));
                assert(occurs_free(a, k));
                assert(occurs_free(r, k) || occurs_free(body, k));
            },
            QuantKind::Universal => {
                let n = LogicalForm::Not(Box::new(r));
                let o = LogicalForm::Or(Box::new(n), Box::new(body));
                assert(occurs_free(o, k));
                assert(occurs_free(n, k) || occurs_free(body, k));
                if occurs_free(n, k) {
                    assert(occurs_free(r, k));
                }
            },
            QuantKind::Count(_) => {
                let a = LogicalForm::And(Box::new(r), Box::new(body));
                assert(occurs_free(a, k));
                assert(occurs_free(r, k) || occurs_free(body, k));
            },
        }
    }
}

/// A negation binds nothing.
pub proof fn lemma_not_free(f: LogicalForm, s: Set<u32>)
    requires
        free_sub(f, s),
    ensures
        free_sub(LogicalForm::Not(Box::new(f)), s),
{
    assert forall|k: u32| #[trigger] occurs_free(LogicalForm::Not(Box::new(f)), k) implies s.contains(k) by {
        assert(occurs_free(f, k));
    }
}

/// `na`, a tense and an attitudinal bind nothing.
pub proof fn lemma_wrapped_free(
    negated: bool,
    t: Option<Tense>,
    a: Option<Attitudinal>,
    f: LogicalForm,
    s: Set<u32>,
)
    requires
        free_sub(f, s),
    ensures
        free_sub(spec_wrapped(negated, t, a, f), s),
{
    let n = if negated {
        LogicalForm::Not(Box::new(f))
    } else {
        f
    };
    lemma_not_free(f, s);
    let tn = spec_tensed(t, n);
    assert forall|k: u32| #[trigger] occurs_free(tn, k) implies s.contains(k) by {
        assert(occurs_free(n, k));
    }
    let w = spec_attituded(a, tn);
    assert forall|k: u32| #[trigger] occurs_free(w, k) implies s.contains(k) by {
        assert(occurs_free(tn, k));
    }
}

/// Universal quantifiers bind their variables.
pub proof fn lemma_forall_all_free(vars: Seq<u32>, f: LogicalForm, s: Set<u32>)
    requires
        free_sub(f, s.union(vars.to_set())),
    ensures
        free_sub(spec_forall_all(vars, f), s),
    decreases vars.len(),
{
    if vars.len() > 0 {
        let rest = vars.drop_first();
        let s1 = s.insert(vars[0]);
        assert forall|k: u32| #[trigger] occurs_free(f, k) implies s1.union(rest.to_set()).contains(k) by {
            assert(s.union(vars.to_set()).contains(k));
            if vars.to_set().contains(k) && k != vars[0] {
                let i = choose|i: int| 0 <= i < vars.len() && vars[i] == k;
                assert(rest[i - 1] == vars[i]);
                assert(rest.to_set().contains(k));
            }
        }
        lemma_forall_all_free(rest, f, s1);
        let inner = spec_forall_all(rest, f);
        assert forall|k: u32| #[trigger] occurs_free(LogicalForm::ForAll(vars[0], Box::new(inner)), k) implies s.contains(k) by {
            assert(occurs_free(inner, k));
        }
    }
}

/// Joining two formulas binds nothing.
pub proof fn lemma_sentence_join_free(c: SentenceConnective, l: LogicalForm, r: LogicalForm, s: Set<u32>)
    requires
        free_sub(l, s),
        free_sub(r, s),
    ensures
        free_sub(spec_sentence_join(c, l, r), s),
{
    lemma_not_free(l, s);
    lemma_not_free(r, s);
    match c {
        SentenceConnective::Afterthought { left_negated, connective, right_negated } => {
            let l2 = if left_negated {
                LogicalForm::Not(Box::new(l))
            } else {
                l
            };
            let r2 = if right_negated {
                LogicalForm::Not(Box::new(r))
            } else {
                r
            };
            lemma_join_free(connective, l2, r2, s);
        },
        _ => {
            let j = spec_sentence_join(c, l, r);
            assert forall|k: u32| #[trigger] occurs_free(j, k) implies s.contains(k) by {
                if occurs_free(j, k) {
                    assert(occurs_free(LogicalForm::Not(Box::new(l)), k) || occurs_free(l, k) || occurs_free(r, k));
                }
            }
        },
    }
}

/// Joining two formulas with a logical connective binds nothing.
pub proof fn lemma_join_free(c: Connective, l: LogicalForm, r: LogicalForm, s: Set<u32>)
    requires
        free_sub(l, s),
        free_sub(r, s),
    ensures
        free_sub(spec_join(c, l, r), s),
{
    let j = spec_join(c, l, r);
    assert forall|k: u32| #[trigger] occurs_free(j, k) implies s.contains(k) by {
        assert(occurs_free(l, k) || occurs_free(r, k));
    }
}

/// A predicate's free variables are the variables among its arguments.
pub proof fn lemma_pred_free(relation: u32, args: Vec<Term>, s: Set<u32>)
    requires
        term_vars(args@).subset_of(s),
    ensures
        free_sub(LogicalForm::Predicate { relation, args }, s),
{
    let p = LogicalForm::Predicate { relation, args };
    assert forall|k: u32| #[trigger] occurs_free(p, k) implies s.contains(k) by {
        let i = choose|i: int| 0 <= i < args@.len() && #[trigger] args@[i] == Term::Variable(k);
        assert(term_vars(args@).contains(k));
    }
}

/// The scopes of quantifiers bind their variables, and their restrictors stay within.
pub proof fn lemma_descs_free(q: Seq<QuantifierEntry>, s: Set<u32>)
    ensures
        marker_vars(spec_descs(q)) == quant_vars(q),
        quants_within(q, s) ==> markers_within(spec_descs(q), s),
{
    let d = spec_descs(q);
    assert forall|k: u32| marker_vars(d).contains(k) <==> quant_vars(q).contains(k) by {
        if marker_vars(d).contains(k) {
            let i = choose|i: int| 0 <= i < d.len() && #[trigger] marker_var(d[i]) == k;
            assert(d[i] == ScopeMarker::Desc(q[i]));
            assert(q[i].var == k);
        }
        if quant_vars(q).contains(k) {
            let i = choose|i: int| 0 <= i < q.len() && #[trigger] q[i].var == k;
            assert(d[i] == ScopeMarker::Desc(q[i]));
            assert(marker_var(d[i]) == k);
        }
    }
    assert(marker_vars(d) =~= quant_vars(q));
    if quants_within(q, s) {
        assert forall|i: int| 0 <= i < d.len() implies (#[trigger] d[i] matches ScopeMarker::Desc(e) ==> free_sub(
            e.restrictor,
            s.insert(e.var),
        )) by {
            assert(d[i] == ScopeMarker::Desc(q[i]));
        }
    }
}

/// Concatenated scopes bind the variables of both, and stay within when both do.
pub proof fn lemma_markers_concat(a: Seq<ScopeMarker>, b: Seq<ScopeMarker>, s: Set<u32>)
    ensures
        marker_vars(a + b) == marker_vars(a).union(marker_vars(b)),
        markers_within(a, s) && markers_within(b, s) ==> markers_within(a + b, s),
{
    let c = a + b;
    assert forall|k: u32| marker_vars(c).contains(k) <==> marker_vars(a).union(marker_vars(b)).contains(k) by {
        if marker_vars(c).contains(k) {
            let i = choose|i: int| 0 <= i < c.len() && #[trigger] marker_var(c[i]) == k;
            if i < a.len() {
                assert(c[i] == a[i]);
                assert(marker_vars(a).contains(k));
            } else {
                assert(c[i] == b[i - a.len()]);
                assert(marker_vars(b).contains(k));
            }
        }
        if marker_vars(a).contains(k) {
            let i = choose|i: int| 0 <= i < a.len() && #[trigger] marker_var(a[i]) == k;
            assert(c[i] == a[i]);
        }
        if marker_vars(b).contains(k) {
            let i = choose|i: int| 0 <= i < b.len() && #[trigger] marker_var(b[i]) == k;
            assert(c[a.len() + i] == b[i]);
        }
    }
    assert(marker_vars(c) =~= marker_vars(a).union(marker_vars(b)));
    if markers_within(a, s) && markers_within(b, s) {
        assert forall|i: int| 0 <= i < c.len() implies (#[trigger] c[i] matches ScopeMarker::Desc(e) ==> free_sub(
            e.restrictor,
            s.insert(e.var),
        )) by {
            if i < a.len() {
                assert(c[i] == a[i]);
            } else {
                assert(c[i] == b[i - a.len()]);
            }
        }
    }
}

/// The quantifiers of modal terms bind the variables of each, and stay within when each
/// does.
pub proof fn lemma_modal_quants_free(ms: Seq<(ModalTag, Term, Vec<QuantifierEntry>)>, s: Set<u32>)
    ensures
        forall|k: u32|
            #[trigger] quant_vars(spec_modal_entry_quants(ms)).contains(k) ==> exists|j: int|
                0 <= j < ms.len() && #[trigger] quant_vars(ms[j].2@).contains(k),
        forall|j: int, k: u32|
            0 <= j < ms.len() && #[trigger] quant_vars(ms[j].2@).contains(k) ==> quant_vars(
                spec_modal_entry_quants(ms),
            ).contains(k),
        (forall|j: int| 0 <= j < ms.len() ==> quants_within(#[trigger] ms[j].2@, s)) ==> quants_within(
            spec_modal_entry_quants(ms),
            s,
        ),
    decreases ms.len(),
{
    if ms.len() > 0 {
        let rest = ms.drop_last();
        lemma_modal_quants_free(rest, s);
        let a = spec_modal_entry_quants(rest);
        let b = ms.last().2@;
        let c = spec_modal_entry_quants(ms);
        assert(c == a + b);
        assert forall|j: int, k: u32| 0 <= j < ms.len() && #[trigger] quant_vars(ms[j].2@).contains(k) implies quant_vars(c).contains(k) by {
            let qj = ms[j].2@;
            let i = choose|i: int| 0 <= i < qj.len() && #[trigger] qj[i].var == k;
            if j < rest.len() {
                assert(ms[j] == rest[j]);
                assert(quant_vars(a).contains(k));
                let w = choose|w: int| 0 <= w < a.len() && #[trigger] a[w].var == k;
                assert(c[w] == a[w]);
            } else {
                assert(ms[j] == ms.last());
                assert(c[a.len() + i] == b[i]);
            }
        }
        assert forall|k: u32| #[trigger] quant_vars(c).contains(k) implies exists|j: int|
            0 <= j < ms.len() && #[trigger] quant_vars(ms[j].2@).contains(k) by {
            let i = choose|i: int| 0 <= i < c.len() && #[trigger] c[i].var == k;
            if i < a.len() {
                assert(c[i] == a[i]);
                assert(quant_vars(a).contains(k));
                let j = choose|j: int| 0 <= j < rest.len() && #[trigger] quant_vars(rest[j].2@).contains(k);
                assert(ms[j] == rest[j]);
            } else {
                assert(c[i] == b[i - a.len()]);
                assert(quant_vars(b).contains(k));
                assert(ms[ms.len() - 1] == ms.last());
            }
        }
        if forall|j: int| 0 <= j < ms.len() ==> quants_within(#[trigger] ms[j].2@, s) {
            assert forall|j: int| 0 <= j < rest.len() implies quants_within(#[trigger] rest[j].2@, s) by {
                assert(ms[j] == rest[j]);
            }
            assert(quants_within(ms[ms.len() - 1].2@, s));
            assert forall|i: int| 0 <= i < c.len() implies free_sub(#[trigger] c[i].restrictor, s.insert(c[i].var)) by {
                if i < a.len() {
                    assert(c[i] == a[i]);
                } else {
                    assert(c[i] == b[i - a.len()]);
                }
            }
        }
    }
}

/// When sentence `id` is a prenex, `f` is `∀` over the keys of its variables, outermost
/// first, around a body in which no existential binds one of them.
pub open spec fn prenex_kept(names: Seq<Seq<char>>, sentences: Seq<Sentence>, id: int, f: LogicalForm) -> bool {
    sentences[id] matches Sentence::Prenex(vars, _) ==> exists|keys: Seq<u32>, body: LogicalForm|
        {
            &&& keys.len() == vars@.len()
            &&& f == spec_forall_all(keys, body)
            &&& clear_form(body, keys)
            &&& forall|i: int|
                0 <= i < keys.len() ==> #[trigger] keys[i] < names.len() && names[keys[i] as int]
                    == spec_cmavo_text(vars@[i])
        }
}

/// More interned names keep a compiled prenex as it was.
pub proof fn lemma_prenex_kept_mono(
    n1: Seq<Seq<char>>,
    n2: Seq<Seq<char>>,
    sentences: Seq<Sentence>,
    id: int,
    f: LogicalForm,
)
    requires
        prefix_of(n1, n2),
        prenex_kept(n1, sentences, id, f),
    ensures
        prenex_kept(n2, sentences, id, f),
{
    if let Sentence::Prenex(vars, _) = sentences[id] {
        let (keys, body) = choose|keys: Seq<u32>, body: LogicalForm|
            {
                &&& keys.len() == vars@.len()
                &&& f == spec_forall_all(keys, body)
                &&& clear_form(body, keys)
                &&& forall|i: int|
                    0 <= i < keys.len() ==> #[trigger] keys[i] < n1.len() && n1[keys[i] as int]
                        == spec_cmavo_text(vars@[i])
            };
        assert forall|i: int| 0 <= i < keys.len() implies #[trigger] keys[i] < n2.len() && n2[keys[i] as int]
            == spec_cmavo_text(vars@[i]) by {
            assert(n2[keys[i] as int] == n1[keys[i] as int]);
        }
    }
}

/// No existential of `f` binds a variable of `prenex`.
pub open spec fn clear_form(f: LogicalForm, prenex: Seq<u32>) -> bool
    decreases f,
{
    match f {
        LogicalForm::Predicate { .. } => true,
        LogicalForm::And(a, b) => clear_form(*a, prenex) && clear_form(*b, prenex),
        LogicalForm::Or(a, b) => clear_form(*a, prenex) && clear_form(*b, prenex),
        LogicalForm::Biconditional(a, b) => clear_form(*a, prenex) && clear_form(*b, prenex),
        LogicalForm::Xor(a, b) => clear_form(*a, prenex) && clear_form(*b, prenex),
        LogicalForm::Not(a) => clear_form(*a, prenex),
        LogicalForm::Exists(v, a) => !prenex.contains(v) && clear_form(*a, prenex),
        LogicalForm::ForAll(_, a) => clear_form(*a, prenex),
        LogicalForm::Count { body, .. } => clear_form(*body, prenex),
        LogicalForm::Past(a) => clear_form(*a, prenex),
        LogicalForm::Present(a) => clear_form(*a, prenex),
        LogicalForm::Future(a) => clear_form(*a, prenex),
        LogicalForm::Obligatory(a) => clear_form(*a, prenex),
        LogicalForm::Permitted(a) => clear_form(*a, prenex),
    }
}

/// No existential of any of `fs` binds a variable of `prenex`.
pub open spec fn clear_forms(fs: Seq<LogicalForm>, prenex: Seq<u32>) -> bool {
    forall|i: int| 0 <= i < fs.len() ==> #[trigger] clear_form(fs[i], prenex)
}

/// No quantifier of `qs` binds a variable of `prenex` existentially, or has a restrictor
/// that does.
pub open spec fn clear_quants(qs: Seq<QuantifierEntry>, prenex: Seq<u32>) -> bool {
    forall|i: int|
        0 <= i < qs.len() ==> !prenex.contains(#[trigger] qs[i].var) && clear_form(qs[i].restrictor, prenex)
}

/// No scope of `ms` binds a variable of `prenex`, nor holds an existential that does.
pub open spec fn clear_markers(ms: Seq<ScopeMarker>, prenex: Seq<u32>) -> bool {
    forall|i: int|
        0 <= i < ms.len() ==> match #[trigger] ms[i] {
            ScopeMarker::Bare(v) => !prenex.contains(v),
            ScopeMarker::Desc(q) => !prenex.contains(q.var) && clear_form(q.restrictor, prenex),
        }
}

/// Every variable of `prenex` is a logic variable (`da`, `de`, `di`) of `names`.
pub open spec fn prenex_named(names: Seq<Seq<char>>, prenex: Seq<u32>) -> bool {
    forall|i: int|
        0 <= i < prenex.len() ==> #[trigger] prenex[i] < names.len() && is_logic_var_name(
            names[prenex[i] as int],
        )
}

/// The state of the compiler and the sentences in which no existential it builds binds a
/// prenex variable: the prenex variables are logic variables, and so are those of every
/// prenex still to compile.
pub open spec fn law_ready(c: SemanticCompiler, sentences: Seq<Sentence>) -> bool {
    &&& prenex_named(interned(c.interner), c.prenex_vars@)
    &&& prenex_logic(sentences)
}

/// A call that started with the compiler `before` ready for the law (see [`law_ready`])
/// and recorded no error.
pub open spec fn clean_run(before: SemanticCompiler, after: SemanticCompiler, sentences: Seq<Sentence>) -> bool {
    &&& law_ready(before, sentences)
    &&& after.errors@.len() == before.errors@.len()
}

/// The formulas added to `after` beyond `before`.
pub open spec fn added<T>(before: Seq<T>, after: Seq<T>) -> Seq<T> {
    after.subrange(before.len() as int, after.len() as int)
}

/// Wrapping a clear formula in `na`, a tense and an attitudinal leaves it clear.
pub proof fn lemma_wrapped_clear(
    negated: bool,
    t: Option<Tense>,
    a: Option<Attitudinal>,
    f: LogicalForm,
    prenex: Seq<u32>,
)
    requires
        clear_form(f, prenex),
    ensures
        clear_form(spec_wrapped(negated, t, a, f), prenex),
{
    let n = if negated {
        LogicalForm::Not(Box::new(f))
    } else {
        f
    };
    assert(clear_form(n, prenex));
    assert(clear_form(spec_tensed(t, n), prenex));
}

/// A compiler ready for the law stays ready as it goes on.
pub proof fn lemma_ready_kept(a: SemanticCompiler, b: SemanticCompiler, sentences: Seq<Sentence>)
    requires
        kept(a, b),
        law_ready(a, sentences),
    ensures
        law_ready(b, sentences),
{
    lemma_prenex_named_mono(interned(a.interner), interned(b.interner), a.prenex_vars@);
}

/// A compiler variable is no prenex variable.
pub proof fn lemma_fresh_not_prenex(names: Seq<Seq<char>>, prenex: Seq<u32>, k: u32, n: nat)
    requires
        prenex_named(names, prenex),
        k < names.len(),
        names[k as int] == spec_var_name(n),
    ensures
        !prenex.contains(k),
{
    reveal_strlit("da");
    reveal_strlit("de");
    reveal_strlit("di");
    assert(spec_var_name(n)[0] == '_');
    if prenex.contains(k) {
        let i = choose|i: int| 0 <= i < prenex.len() && prenex[i] == k;
        assert(is_logic_var_name(names[prenex[i] as int]));
        assert(names[k as int][0] == '_');
    }
}

/// More interned names keep prenex variables named.
pub proof fn lemma_prenex_named_mono(n1: Seq<Seq<char>>, n2: Seq<Seq<char>>, prenex: Seq<u32>)
    requires
        prefix_of(n1, n2),
        prenex_named(n1, prenex),
    ensures
        prenex_named(n2, prenex),
{
    assert forall|i: int| 0 <= i < prenex.len() implies #[trigger] prenex[i] < n2.len() && is_logic_var_name(
        n2[prenex[i] as int],
    ) by {
        assert(n2[prenex[i] as int] == n1[prenex[i] as int]);
    }
}

/// Closing clear scopes around a clear formula leaves it clear.
pub proof fn lemma_fold_clear(ms: Seq<ScopeMarker>, body: LogicalForm, prenex: Seq<u32>)
    requires
        clear_markers(ms, prenex),
        clear_form(body, prenex),
    ensures
        clear_form(spec_fold_markers(ms, body), prenex),
    decreases ms.len(),
{
    if ms.len() > 0 {
        assert(clear_markers(ms.drop_first(), prenex)) by {
            assert forall|i: int| 0 <= i < ms.drop_first().len() implies match #[trigger] ms.drop_first()[i] {
                ScopeMarker::Bare(v) => !prenex.contains(v),
                ScopeMarker::Desc(q) => !prenex.contains(q.var) && clear_form(q.restrictor, prenex),
            } by {
                assert(ms.drop_first()[i] == ms[i + 1]);
            }
        }
        lemma_fold_clear(ms.drop_first(), body, prenex);
        assert(match ms[0] {
            ScopeMarker::Bare(v) => !prenex.contains(v),
            ScopeMarker::Desc(q) => !prenex.contains(q.var) && clear_form(q.restrictor, prenex),
        });
        let inner = spec_fold_markers(ms.drop_first(), body);
        match ms[0] {
            ScopeMarker::Desc(e) => {
                let r = e.restrictor;
                assert(clear_form(LogicalForm::And(Box::new(r), Box::new(inner)), prenex));
                assert(clear_form(LogicalForm::Not(Box::new(r)), prenex));
                assert(clear_form(LogicalForm::Or(Box::new(LogicalForm::Not(Box::new(r))), Box::new(inner)), prenex));
                assert(clear_form(spec_close_quantifier(e, inner), prenex));
            },
            ScopeMarker::Bare(v) => {},
        }
    }
}

/// Clear formulas stay clear for fewer prenex variables.
pub proof fn lemma_clear_sub(f: LogicalForm, p1: Seq<u32>, p2: Seq<u32>)
    requires
        clear_form(f, p2),
        forall|v: u32| #[trigger] p1.contains(v) ==> p2.contains(v),
    ensures
        clear_form(f, p1),
    decreases f,
{
    match f {
        LogicalForm::Predicate { .. } => {},
        LogicalForm::And(a, b) => {
            lemma_clear_sub(*a, p1, p2);
            lemma_clear_sub(*b, p1, p2);
        },
        LogicalForm::Or(a, b) => {
            lemma_clear_sub(*a, p1, p2);
            lemma_clear_sub(*b, p1, p2);
        },
        LogicalForm::Biconditional(a, b) => {
            lemma_clear_sub(*a, p1, p2);
            lemma_clear_sub(*b, p1, p2);
        },
        LogicalForm::Xor(a, b) => {
            lemma_clear_sub(*a, p1, p2);
            lemma_clear_sub(*b, p1, p2);
        },
        LogicalForm::Not(a) => lemma_clear_sub(*a, p1, p2),
        LogicalForm::Exists(_, a) => lemma_clear_sub(*a, p1, p2),
        LogicalForm::ForAll(_, a) => lemma_clear_sub(*a, p1, p2),
        LogicalForm::Count { body, .. } => lemma_clear_sub(*body, p1, p2),
        LogicalForm::Past(a) => lemma_clear_sub(*a, p1, p2),
        LogicalForm::Present(a) => lemma_clear_sub(*a, p1, p2),
        LogicalForm::Future(a) => lemma_clear_sub(*a, p1, p2),
        LogicalForm::Obligatory(a) => lemma_clear_sub(*a, p1, p2),
        LogicalForm::Permitted(a) => lemma_clear_sub(*a, p1, p2),
    }
}

/// Joining two clear formulas, either side negated, leaves them clear.
pub proof fn lemma_join_clear(c: SentenceConnective, l: LogicalForm, r: LogicalForm, prenex: Seq<u32>)
    requires
        clear_form(l, prenex),
        clear_form(r, prenex),
    ensures
        clear_form(spec_sentence_join(c, l, r), prenex),
{
    assert(clear_form(LogicalForm::Not(Box::new(l)), prenex));
    assert(clear_form(LogicalForm::Not(Box::new(r)), prenex));
    match c {
        SentenceConnective::Afterthought { left_negated, connective, right_negated } => {
            let l2 = if left_negated {
                LogicalForm::Not(Box::new(l))
            } else {
                l
            };
            let r2 = if right_negated {
                LogicalForm::Not(Box::new(r))
            } else {
                r
            };
            assert(clear_form(spec_join(connective, l2, r2), prenex));
        },
        _ => {},
    }
}

/// Description scopes of clear quantifiers, pushed after clear scopes, leave them clear.
pub proof fn lemma_descs_clear(m0: Seq<ScopeMarker>, m1: Seq<ScopeMarker>, q: Seq<QuantifierEntry>, p: Seq<u32>)
    requires
        prefix_of(m0, m1),
        clear_markers(added(m0, m1), p),
        clear_quants(q, p),
    ensures
        prefix_of(m0, m1 + spec_descs(q)),
        clear_markers(added(m0, m1 + spec_descs(q)), p),
{
    let m2 = m1 + spec_descs(q);
    let a1 = added(m0, m1);
    let a2 = added(m0, m2);
    assert forall|i: int| 0 <= i < m0.len() implies #[trigger] m2[i] == m0[i] by {
        assert(m2[i] == m1[i]);
    }
    assert forall|i: int| 0 <= i < a2.len() implies match #[trigger] a2[i] {
        ScopeMarker::Bare(v) => !p.contains(v),
        ScopeMarker::Desc(e) => !p.contains(e.var) && clear_form(e.restrictor, p),
    } by {
        if i < a1.len() {
            assert(a2[i] == a1[i]);
        } else {
            let j = i - a1.len();
            assert(a2[i] == ScopeMarker::Desc(q[j]));
            assert(!p.contains(q[j].var));
        }
    }
}

/// Formulas that only grew, by clear ones, stay clear.
pub proof fn lemma_added_forms(a: Seq<LogicalForm>, b: Seq<LogicalForm>, c: Seq<LogicalForm>, p: Seq<u32>)
    requires
        prefix_of(a, b),
        prefix_of(b, c),
        clear_forms(added(a, b), p),
        clear_forms(added(b, c), p),
    ensures
        prefix_of(a, c),
        clear_forms(added(a, c), p),
{
    let ab = added(a, b);
    let bc = added(b, c);
    let ac = added(a, c);
    assert forall|i: int| 0 <= i < ac.len() implies #[trigger] clear_form(ac[i], p) by {
        if i < ab.len() {
            assert(ac[i] == ab[i]);
        } else {
            assert(ac[i] == bc[i - ab.len()]);
        }
    }
}

/// Joining two clear formulas with a logical connective leaves them clear.
pub proof fn lemma_connective_clear(c: Connective, l: LogicalForm, r: LogicalForm, p: Seq<u32>)
    requires
        clear_form(l, p),
        clear_form(r, p),
    ensures
        clear_form(spec_join(c, l, r), p),
{
}

/// Scopes that grew by clear ones from clear ones are clear.
pub proof fn lemma_markers_extend(a: Seq<ScopeMarker>, b: Seq<ScopeMarker>, p: Seq<u32>)
    requires
        prefix_of(a, b),
        clear_markers(a, p),
        clear_markers(added(a, b), p),
    ensures
        clear_markers(b, p),
{
    let ab = added(a, b);
    assert forall|i: int| 0 <= i < b.len() implies match #[trigger] b[i] {
        ScopeMarker::Bare(v) => !p.contains(v),
        ScopeMarker::Desc(e) => !p.contains(e.var) && clear_form(e.restrictor, p),
    } by {
        if i < a.len() {
            assert(b[i] == a[i]);
        } else {
            assert(b[i] == ab[i - a.len()]);
        }
    }
}

/// A prefix of a prefix is a prefix.
pub proof fn lemma_added_forms_prefix(a: Seq<LogicalForm>, b: Seq<LogicalForm>, c: Seq<LogicalForm>)
    requires
        prefix_of(a, b),
        prefix_of(b, c),
    ensures
        prefix_of(a, c),
{
}

/// Universal quantifiers around a clear formula leave it clear.
pub proof fn lemma_forall_all_clear(vars: Seq<u32>, f: LogicalForm, prenex: Seq<u32>)
    requires
        clear_form(f, prenex),
    ensures
        clear_form(spec_forall_all(vars, f), prenex),
    decreases vars.len(),
{
    if vars.len() > 0 {
        lemma_forall_all_clear(vars.drop_first(), f, prenex);
    }
}

/// A predication's terms name existing sumti exactly when its term list does.
pub proof fn lemma_bridi_terms_wf(b: Bridi, nsel: nat, nsum: nat)
    requires
        b.relation < nsel,
        terms_wf(bridi_terms(b), nsum),
    ensures
        bridi_wf(b, nsel, nsum),
{
    assert forall|k: int| 0 <= k < b.head_terms@.len() implies #[trigger] b.head_terms@[k] < nsum by {
        assert(bridi_terms(b)[k] == b.head_terms@[k]);
    }
    assert forall|k: int| 0 <= k < b.tail_terms@.len() implies #[trigger] b.tail_terms@[k] < nsum by {
        assert(bridi_terms(b)[b.head_terms@.len() + k] == b.tail_terms@[k]);
    }
}

/// The term list of a well-formed predication names existing sumti.
pub proof fn lemma_bridi_wf_terms(b: Bridi, nsel: nat, nsum: nat)
    requires
        bridi_wf(b, nsel, nsum),
    ensures
        terms_wf(bridi_terms(b), nsum),
{
    assert forall|k: int| 0 <= k < bridi_terms(b).len() implies #[trigger] bridi_terms(b)[k] < nsum by {
        if k < b.head_terms@.len() {
            assert(bridi_terms(b)[k] == b.head_terms@[k]);
        } else {
            assert(bridi_terms(b)[k] == b.tail_terms@[k - b.head_terms@.len()]);
        }
    }
}

/// Whether an existing term is, or wraps, a connected sumti does not change as the
/// buffer grows.
pub proof fn lemma_connected_at_prefix(
    u1: Seq<Sumti>,
    u2: Seq<Sumti>,
    selbris: Seq<Selbri>,
    sentences: Seq<Sentence>,
    id: int,
)
    requires
        prefix_of(u1, u2),
        ast_wf(selbris, u1, sentences),
        0 <= id < u1.len(),
    ensures
        connected_at(u1, id) == connected_at(u2, id),
        connected_at(u1, id) matches Some((_, c)) ==> c <= id && u2[c as int] == u1[c as int],
{
    lemma_wf_nodes(selbris, u1, sentences);
    assert(u2[id] == u1[id]);
    assert(sumti_wf(u1, selbris.len(), sentences.len(), id));
    match u1[id] {
        Sumti::Tagged(_, inner) => {
            assert(u2[inner as int] == u1[inner as int]);
        },
        Sumti::ModalTagged(_, inner) => {
            assert(u2[inner as int] == u1[inner as int]);
        },
        _ => {},
    }
}

/// A predication with one term replaced by a slot for an operand of a connected term of
/// it is well formed.
pub proof fn lemma_slot_wf(
    u1: Seq<Sumti>,
    selbris: Seq<Selbri>,
    sentences: Seq<Sentence>,
    b: Bridi,
    s: ConnectedSplit,
    operand: u32,
    nb: Bridi,
)
    requires
        ast_wf(selbris, u1, sentences),
        bridi_wf(b, selbris.len(), u1.len()),
        first_split(u1, bridi_terms(b), s),
        operand == s.left_id || operand == s.right_id,
        with_slot(b, s.term_pos as int, bridi_terms(nb)[s.term_pos as int], nb),
        slot_for(u1, s.wrapper, operand, bridi_terms(nb)[s.term_pos as int]),
    ensures
        bridi_wf(nb, selbris.len(), u1.len()),
{
    lemma_wf_nodes(selbris, u1, sentences);
    lemma_bridi_wf_terms(b, selbris.len(), u1.len());
    let terms = bridi_terms(b);
    let t = terms[s.term_pos as int] as int;
    let (w, c) = connected_at(u1, t)->0;
    assert(sumti_wf(u1, selbris.len(), sentences.len(), c as int));
    assert(sumti_wf(u1, selbris.len(), sentences.len(), t));
    assert(operand < u1.len());
    assert(terms_wf(bridi_terms(nb), u1.len())) by {
        assert forall|k: int| 0 <= k < bridi_terms(nb).len() implies #[trigger] bridi_terms(nb)[k] < u1.len() by {
            if k != s.term_pos {
                assert(bridi_terms(nb)[k] == terms[k]);
            }
        }
    }
    lemma_bridi_terms_wf(nb, selbris.len(), u1.len());
}

/// A compiled predication stays compiled as the interner and the sumti buffer grow and
/// with more distributions allowed.
pub proof fn lemma_bridi_lift(
    n1: Seq<Seq<char>>,
    n2: Seq<Seq<char>>,
    u1: Seq<Sumti>,
    u2: Seq<Sumti>,
    selbris: Seq<Selbri>,
    sentences: Seq<Sentence>,
    kea: Option<Term>,
    b: Bridi,
    f: LogicalForm,
    fuel: nat,
    fuel2: nat,
)
    requires
        prefix_of(n1, n2),
        prefix_of(u1, u2),
        ast_wf(selbris, u1, sentences),
        bridi_wf(b, selbris.len(), u1.len()),
        fuel <= fuel2,
        bridi_compiled(n1, selbris, u1, kea, b, f, fuel),
    ensures
        bridi_compiled(n2, selbris, u2, kea, b, f, fuel2),
    decreases fuel, 1nat,
{
    lemma_no_connected_prefix(u1, u2, selbris, sentences, b);
    if no_connected(u1, b) {
        lemma_predication_mono(n1, n2, selbris, u1, kea, b, f);
        lemma_predication_up(u1, u2, n2, selbris, sentences, kea, b, f);
    } else {
        let s = choose|s: ConnectedSplit|
            #[trigger] first_split(u1, bridi_terms(b), s) && split_compiled(n1, selbris, u1, kea, b, s, f, fuel);
        lemma_first_split_up(u1, u2, selbris, sentences, b, s);
        lemma_split_lift(n1, n2, u1, u2, selbris, sentences, kea, b, s, f, fuel, fuel2);
    }
}

/// The first connected term of an existing predication stays the first as the buffer
/// grows.
pub proof fn lemma_first_split_up(
    u1: Seq<Sumti>,
    u2: Seq<Sumti>,
    selbris: Seq<Selbri>,
    sentences: Seq<Sentence>,
    b: Bridi,
    s: ConnectedSplit,
)
    requires
        prefix_of(u1, u2),
        ast_wf(selbris, u1, sentences),
        bridi_wf(b, selbris.len(), u1.len()),
        first_split(u1, bridi_terms(b), s),
    ensures
        first_split(u2, bridi_terms(b), s),
{
    lemma_bridi_wf_terms(b, selbris.len(), u1.len());
    let terms = bridi_terms(b);
    lemma_connected_at_prefix(u1, u2, selbris, sentences, terms[s.term_pos as int] as int);
    assert forall|k: int| 0 <= k < s.term_pos implies #[trigger] connected_at(u2, terms[k] as int) is None by {
        lemma_connected_at_prefix(u1, u2, selbris, sentences, terms[k] as int);
    }
}

/// A distributed predication stays distributed as the interner and the sumti buffer grow
/// and with more distributions allowed.
pub proof fn lemma_split_lift(
    n1: Seq<Seq<char>>,
    n2: Seq<Seq<char>>,
    u1: Seq<Sumti>,
    u2: Seq<Sumti>,
    selbris: Seq<Selbri>,
    sentences: Seq<Sentence>,
    kea: Option<Term>,
    b: Bridi,
    s: ConnectedSplit,
    f: LogicalForm,
    fuel: nat,
    fuel2: nat,
)
    requires
        prefix_of(n1, n2),
        prefix_of(u1, u2),
        ast_wf(selbris, u1, sentences),
        bridi_wf(b, selbris.len(), u1.len()),
        first_split(u1, bridi_terms(b), s),
        fuel <= fuel2,
        split_compiled(n1, selbris, u1, kea, b, s, f, fuel),
    ensures
        split_compiled(n2, selbris, u2, kea, b, s, f, fuel2),
    decreases fuel, 0nat,
{
    let (lb, rb, l, r) = choose|lb: Bridi, rb: Bridi, l: LogicalForm, r: LogicalForm|
        #[trigger] split_parts(u1, b, s, lb, rb) && #[trigger] joined_as(f, s.connective, s.right_negated, l, r)
            && bridi_compiled(n1, selbris, u1, kea, lb, l, (fuel - 1) as nat) && bridi_compiled(
            n1,
            selbris,
            u1,
            kea,
            rb,
            r,
            (fuel - 1) as nat,
        );
    let ls = bridi_terms(lb)[s.term_pos as int];
    let rs = bridi_terms(rb)[s.term_pos as int];
    lemma_slot_wf(u1, selbris, sentences, b, s, s.left_id, lb);
    lemma_slot_wf(u1, selbris, sentences, b, s, s.right_id, rb);
    lemma_bridi_lift(n1, n2, u1, u2, selbris, sentences, kea, lb, l, (fuel - 1) as nat, (fuel2 - 1) as nat);
    lemma_bridi_lift(n1, n2, u1, u2, selbris, sentences, kea, rb, r, (fuel - 1) as nat, (fuel2 - 1) as nat);
    match s.wrapper {
        ConnWrapper::Bare => {},
        _ => {
            assert(u2[ls as int] == u1[ls as int]);
            assert(u2[rs as int] == u1[rs as int]);
        },
    }
    assert(split_parts(u2, b, s, lb, rb));
}

/// The term of the first head position at x1, or `Unspecified` when none is.
pub open spec fn spec_head_x1(hp: Seq<(usize, Term)>) -> Term
    decreases hp.len(),
{
    if hp.len() == 0 {
        Term::Unspecified
    } else if hp[0].0 == 0 {
        hp[0].1
    } else {
        spec_head_x1(hp.drop_first())
    }
}

/// The term a shared head puts in x1, if it fills x1.
fn head_x1(head_positioned: &Vec<(usize, Term)>) -> (t: Term)
    ensures
        t == spec_head_x1(head_positioned@),
{
    assert(head_positioned@.subrange(0, head_positioned@.len() as int) =~= head_positioned@);
    let mut i: usize = 0;
    while i < head_positioned.len()
        invariant
            i <= head_positioned@.len(),
            spec_head_x1(head_positioned@) == spec_head_x1(head_positioned@.subrange(i as int, head_positioned@.len() as int)),
        decreases head_positioned@.len() - i,
    {
        proof {
            let rest = head_positioned@.subrange(i as int, head_positioned@.len() as int);
            assert(rest.drop_first() =~= head_positioned@.subrange(i + 1, head_positioned@.len() as int));
            assert(rest[0] == head_positioned@[i as int]);
        }
        let (place, term) = head_positioned[i];
        if place == 0 {
            return term;
        }
        i = i + 1;
    }
    Term::Unspecified
}

impl SemanticCompiler {
    /// Compile a GIhA chain whose head is quantified or a description: resolve the head
    /// terms once, build one branch per tail over the shared head arguments, join the
    /// branches left to right with their connectives, conjoin the head's modal
    /// predicates once, and close the head's scopes once around the whole chain, so
    /// every tail speaks of the same witness.
    pub fn compile_shared_head(
        &mut self,
        head: &Bridi,
        tails: &Vec<GihaTail>,
        selbris: &Vec<Selbri>,
        sumtis: &mut Vec<Sumti>,
        sentences: &Vec<Sentence>,
    ) -> (f: LogicalForm)
        requires
            ast_wf(selbris@, old(sumtis)@, sentences@),
            bridi_wf(*head, selbris@.len(), old(sumtis)@.len()),
            forall|t: int|
                0 <= t < tails@.len() ==> tail_wf(
                    #[trigger] tails@[t],
                    selbris@.len(),
                    old(sumtis)@.len(),
                ),
        ensures
            kept(*old(self), *final(self)),
            grown(selbris@, old(sumtis)@, final(sumtis)@, sentences@),
            final(self).errors@.len() == old(self).errors@.len() ==> shared_head_compiled(
                interned(final(self).interner),
                selbris@,
                final(sumtis)@,
                old(self).kea,
                *head,
                tails@,
                f,
            ),
            final(self).pending_matrix_conjuncts@ == old(self).pending_matrix_conjuncts@,
            clean_run(*old(self), *final(self), sentences@) ==> clear_form(f, old(self).prenex_vars@),
            final(self).errors@.len() == old(self).errors@.len() && giha_clause_free(old(sumtis)@, sentences@) && (forall|i: int| 0 <= i < head.tail_terms@.len() ==> clause_free(old(sumtis)@, #[trigger] head.tail_terms@[i] as int))
                && (forall|t: int, i: int| 0 <= t < tails@.len() && 0 <= i < tails@[t].tail_terms@.len() ==> clause_free(
                    old(sumtis)@,
                    #[trigger] tails@[t].tail_terms@[i] as int,
                )) ==> free_sub(
                f,
                open_vars(*old(self)),
            ),
        decreases old(self).budget,
    {
        if !self.step() {
            return placeholder();
        }
        let ghost e0 = self.errors@.len();
        let ghost u0 = sumtis@;
        let ghost p = old(self).prenex_vars@;
        let ghost pend0 = old(self).pending_matrix_conjuncts@;
        let ghost so = open_vars(*old(self));
        let checkpoint = self.pending_matrix_conjuncts.len();
        let mut positioned: Vec<(usize, Term)> = Vec::new();
        let mut markers: Vec<ScopeMarker> = Vec::new();
        let mut introduced: Vec<u32> = Vec::new();
        let mut modals: Vec<(ModalTag, Term, Vec<QuantifierEntry>)> = Vec::new();
        let mut next_place: usize = 0;
        let ghost mut ts: Seq<Term> = Seq::empty();
        let ghost mut qs: Seq<Seq<QuantifierEntry>> = Seq::empty();
        proof {
            lemma_bridi_wf_terms(*head, selbris@.len(), u0.len());
            assert(head.head_terms@.take(0) =~= Seq::<u32>::empty());
            assert(spec_modal_pairs(modals@) =~= Seq::<(ModalTag, Term)>::empty());
            assert(spec_desc_quants(markers@) =~= Seq::<QuantifierEntry>::empty());
            assert(spec_modal_entry_quants(modals@) =~= Seq::<QuantifierEntry>::empty());
        }
        let mut i: usize = 0;
        while i < head.head_terms.len()
            invariant
                i <= head.head_terms@.len(),
                ast_wf(selbris@, sumtis@, sentences@),
                prefix_of(old(sumtis)@, sumtis@),
                bridi_wf(*head, selbris@.len(), sumtis@.len()),
                forall|t: int|
                    0 <= t < tails@.len() ==> tail_wf(
                        #[trigger] tails@[t],
                        selbris@.len(),
                        sumtis@.len(),
                    ),
                kept(*old(self), *self),
                self.budget < old(self).budget,
                next_place <= 5,
                u0 == old(sumtis)@,
                ast_wf(selbris@, u0, sentences@),
                bridi_wf(*head, selbris@.len(), u0.len()),
                e0 == old(self).errors@.len(),
                e0 <= self.errors@.len(),
                ts.len() == i,
                qs.len() == i,
                self.errors@.len() == e0 ==> {
                    &&& (positioned@, next_place as int) == spec_head_positions(u0, head.head_terms@.take(i as int), ts)
                    &&& spec_modal_pairs(modals@) == spec_modal_terms(u0, head.head_terms@.take(i as int), ts)
                    &&& spec_desc_quants(markers@) == spec_term_quants(u0, head.head_terms@.take(i as int), qs)
                    &&& spec_modal_entry_quants(modals@) == spec_modal_quants(u0, head.head_terms@.take(i as int), qs)
                    &&& forall|k: int|
                        0 <= k < i ==> #[trigger] resolved_quants(
                            u0[term_target(u0, head.head_terms@[k] as int)],
                            selbris@,
                            interned(self.interner),
                            ts[k],
                            qs[k],
                        )
                    &&& forall|k: int|
                        0 <= k < i ==> #[trigger] resolved_term(
                            u0,
                            term_target(u0, head.head_terms@[k] as int),
                            old(self).kea,
                            selbris@,
                            interned(self.interner),
                            ts[k],
                        )
                },
                checkpoint == pend0.len(),
                p == old(self).prenex_vars@,
                pend0 == old(self).pending_matrix_conjuncts@,
                prefix_of(pend0, self.pending_matrix_conjuncts@),
                law_ready(*old(self), sentences@) && self.errors@.len() == e0 ==> {
                    &&& clear_forms(added(pend0, self.pending_matrix_conjuncts@), p)
                    &&& clear_markers(markers@, p)
                    &&& forall|j: int| 0 <= j < modals@.len() ==> clear_quants(#[trigger] modals@[j].2@, p)
                },
                so == open_vars(*old(self)),
                intro_marked(introduced@, markers@),
                self.errors@.len() == e0 && giha_clause_free(old(sumtis)@, sentences@) ==> {
                    &&& bridi_open(so, ts, pend0, self.pending_matrix_conjuncts@, markers@, modals@)
                    &&& placed_vars(positioned@).subset_of(term_vars(ts))
                },
            decreases head.head_terms@.len() - i,
        {
            let ghost s_i = *self;
            let ghost pend_i = self.pending_matrix_conjuncts@;
            let ghost ts_i = ts;
            let ghost pos_i = positioned@;
            let ghost intro_i = introduced@;
            let term_id = head.head_terms[i];
            proof {
                lemma_wf_nodes(selbris@, sumtis@, sentences@);
                assert(sumti_wf(sumtis@, selbris@.len(), sentences@.len(), term_id as int));
                lemma_wf_nodes(selbris@, u0, sentences@);
                assert(head.head_terms@[i as int] < u0.len());
                assert(sumti_wf(u0, selbris@.len(), sentences@.len(), term_id as int));
            }
            let ghost before = sumtis@;
            let ghost names_b = interned(self.interner);
            let ghost eb = self.errors@.len();
            let ghost hp_b = positioned@;
            let ghost next_b = next_place as int;
            let ghost mk_b = markers@;
            let ghost md_b = modals@;
            let node = copy_sumti(&sumtis[term_id as usize]);
            let ghost mut tt: Term = Term::Unspecified;
            let ghost mut tq: Seq<QuantifierEntry> = Seq::empty();
            match node {
                Sumti::Tagged(tag, inner) => {
                    let (term, quants) = self.resolve_sumti(inner, selbris, sumtis, sentences);
                    let ghost q = quants@;
                    let ghost s_r = *self;
                    self.record_bare_marker(term, &mut introduced, &mut markers);
                    let ghost mk1 = markers@;
                    push_descs(&mut markers, quants);
                    proof {
                        if law_ready(*old(self), sentences@) && s_r.errors@.len() == e0 {
                            lemma_ready_kept(*old(self), s_i, sentences@);
                            assert(clear_quants(q, p));
                            lemma_descs_clear(mk_b, mk1, q, p);
                        }
                        lemma_markers_concat(mk1, spec_descs(q), Set::empty());
                        if s_r.errors@.len() == e0 && giha_clause_free(old(sumtis)@, sentences@) {
                            lemma_giha_grow(selbris@, old(sumtis)@, before, sentences@);
                            assert(resolved_open(s_i, s_r, term, q));
                            lemma_resolved_scope(s_i, s_r, term, q, mk_b, mk1, markers@, md_b, modals@, intro_i, false);
                        }
                    }
                    let idx = tag.to_index();
                    positioned.push((idx, term));
                    next_place = idx + 1;
                    proof {
                        tt = term;
                        tq = q;
                        lemma_desc_quants_add(mk1, spec_descs(q));
                        lemma_desc_quants_descs(q);
                        if mk1 != mk_b {
                            assert(mk1.drop_last() =~= mk_b);
                        }
                    }
                },
                Sumti::ModalTagged(m, inner) => {
                    let under_connective = match &sumtis[inner as usize] {
                        Sumti::Connected(..) => true,
                        _ => false,
                    };
                    if under_connective {
                        self.fail(
                            "a connected sumti under a modal in the shared head of a GIhA chain is not supported; restate as separate `.i` sentences".to_owned(),
                        );
                    } else {
                        let (term, quants) = self.resolve_sumti(inner, selbris, sumtis, sentences);
                        let ghost q = quants@;
                        let ghost s_r = *self;
                        self.record_bare_marker(term, &mut introduced, &mut markers);
                        let ghost mb = modals@;
                        modals.push((m, term, quants));
                        proof {
                            if s_r.errors@.len() == e0 && giha_clause_free(old(sumtis)@, sentences@) {
                                lemma_giha_grow(selbris@, old(sumtis)@, before, sentences@);
                                assert(resolved_open(s_i, s_r, term, q));
                                assert(modals@.last() == (m, term, quants));
                                lemma_resolved_scope(s_i, s_r, term, q, mk_b, markers@, markers@, md_b, modals@, intro_i, true);
                            }
                            if law_ready(*old(self), sentences@) && s_r.errors@.len() == e0 {
                                lemma_ready_kept(*old(self), s_i, sentences@);
                                assert(clear_quants(q, p));
                                assert(modals@[mb.len() as int].2@ == q);
                            }
                            tt = term;
                            tq = q;
                            assert(spec_modal_pairs(modals@) =~= spec_modal_pairs(mb).push((m, term)));
                            assert(modals@.drop_last() =~= mb);
                            if markers@ != mk_b {
                                assert(markers@.drop_last() =~= mk_b);
                            }
                        }
                    }
                },
                Sumti::Connected(..) => {
                    self.fail(
                        "a connected sumti in the shared head of a GIhA chain is not supported here".to_owned(),
                    );
                },
                _ => {
                    let (term, quants) = self.resolve_sumti(term_id, selbris, sumtis, sentences);
                    let ghost q = quants@;
                    let ghost s_r = *self;
                    self.record_bare_marker(term, &mut introduced, &mut markers);
                    let ghost mk1 = markers@;
                    push_descs(&mut markers, quants);
                    proof {
                        if law_ready(*old(self), sentences@) && s_r.errors@.len() == e0 {
                            lemma_ready_kept(*old(self), s_i, sentences@);
                            assert(clear_quants(q, p));
                            lemma_descs_clear(mk_b, mk1, q, p);
                        }
                        lemma_markers_concat(mk1, spec_descs(q), Set::empty());
                        if s_r.errors@.len() == e0 && giha_clause_free(old(sumtis)@, sentences@) {
                            lemma_giha_grow(selbris@, old(sumtis)@, before, sentences@);
                            assert(resolved_open(s_i, s_r, term, q));
                            lemma_resolved_scope(s_i, s_r, term, q, mk_b, mk1, markers@, md_b, modals@, intro_i, false);
                        }
                        tq = q;
                        lemma_desc_quants_add(mk1, spec_descs(q));
                        lemma_desc_quants_descs(q);
                        if mk1 != mk_b {
                            assert(mk1.drop_last() =~= mk_b);
                        }
                    }
                    if next_place < 5 {
                        positioned.push((next_place, term));
                        next_place = next_place + 1;
                    } else {
                        self.fail("too many head terms for any selbri".to_owned());
                    }
                    proof {
                        tt = term;
                    }
                },
            }
            proof {
                if self.errors@.len() == e0 && giha_clause_free(old(sumtis)@, sentences@) {
                    assert(eb == e0);
                    lemma_open_kept(*old(self), s_i);
                    let si = open_vars(s_i);
                    assert(si.subset_of(so));
                    lemma_bridi_open_step(so, si, ts_i, tt, pend0, pend_i, self.pending_matrix_conjuncts@, mk_b, markers@, md_b, modals@);
                    let ts1 = ts_i.push(tt);
                    assert forall|k: u32| placed_vars(positioned@).contains(k) implies term_vars(ts1).contains(k) by {
                        let j = choose|j: int| 0 <= j < positioned@.len() && #[trigger] positioned@[j].1 == Term::Variable(k);
                        if j < pos_i.len() {
                            assert(positioned@[j] == pos_i[j]);
                            assert(placed_vars(pos_i).contains(k));
                            let w = choose|w: int| 0 <= w < ts_i.len() && #[trigger] ts_i[w] == Term::Variable(k);
                            assert(ts1[w] == ts_i[w]);
                        } else {
                            assert(positioned@[j].1 == tt);
                            assert(ts1[ts_i.len() as int] == tt);
                        }
                    }
                }
            }
            proof {
                lemma_added_forms_prefix(pend0, pend_i, self.pending_matrix_conjuncts@);
                if law_ready(*old(self), sentences@) && self.errors@.len() == e0 {
                    assert(eb == e0);
                    lemma_ready_kept(*old(self), s_i, sentences@);
                    lemma_added_forms(pend0, pend_i, self.pending_matrix_conjuncts@, p);
                    lemma_markers_extend(mk_b, markers@, p);
                    assert forall|j: int| 0 <= j < modals@.len() implies clear_quants(#[trigger] modals@[j].2@, p) by {
                        if j < md_b.len() {
                            assert(modals@[j] == md_b[j]);
                        }
                    }
                }
            }
            proof {
                let id = term_id as int;
                if self.errors@.len() == e0 {
                    assert(eb == e0);
                    assert(before[id] == u0[id]);
                    assert(term_target(before, id) == term_target(u0, id));
                    lemma_resolved_grow(u0, before, term_target(u0, id), old(self).kea, selbris@, interned(self.interner), tt);
                    assert forall|k: int| 0 <= k < i implies #[trigger] resolved_term(
                        u0,
                        term_target(u0, head.head_terms@[k] as int),
                        old(self).kea,
                        selbris@,
                        interned(self.interner),
                        ts[k],
                    ) by {
                        lemma_resolved_mono(u0, term_target(u0, head.head_terms@[k] as int), old(self).kea, selbris@, names_b, interned(self.interner), ts[k]);
                    }
                    assert(head.head_terms@.take(i + 1).drop_last() =~= head.head_terms@.take(i as int));
                    assert(head.head_terms@.take(i + 1).last() == head.head_terms@[i as int]);
                    assert(ts.push(tt).drop_last() =~= ts);
                    assert(qs.push(tq).drop_last() =~= qs);
                    assert(before[term_target(u0, id)] == u0[term_target(u0, id)]);
                    assert forall|j: int| 0 <= j < i implies #[trigger] resolved_quants(
                        u0[term_target(u0, head.head_terms@[j] as int)],
                        selbris@,
                        interned(self.interner),
                        ts[j],
                        qs[j],
                    ) by {
                        lemma_resolved_quants_mono(u0[term_target(u0, head.head_terms@[j] as int)], selbris@, names_b, interned(self.interner), ts[j], qs[j]);
                    }
                }
                ts = ts.push(tt);
                qs = qs.push(tq);
            }
            i = i + 1;
        }
        let ghost hp = positioned@;
        let ghost hnext = next_place as int;
        let ghost mods = spec_modal_pairs(modals@);
        let ghost mk_h = markers@;
        let ghost md_h = modals@;
        let ghost e_h = self.errors@.len();
        let ghost names_h = interned(self.interner);
        proof {
            assert(head.head_terms@.take(head.head_terms@.len() as int) =~= head.head_terms@);
            lemma_bridi_wf_terms(*head, selbris@.len(), sumtis@.len());
            assert(terms_wf(head.tail_terms@, sumtis@.len()));
        }
        let ghost s_g = *self;
        let ghost pend_g = self.pending_matrix_conjuncts@;
        let ghost u_g = sumtis@;
        proof {
            if (forall|i: int| 0 <= i < head.tail_terms@.len() ==> clause_free(old(sumtis)@, #[trigger] head.tail_terms@[i] as int))
                && (forall|t: int, i: int| 0 <= t < tails@.len() && 0 <= i < tails@[t].tail_terms@.len() ==> clause_free(
                    old(sumtis)@,
                    #[trigger] tails@[t].tail_terms@[i] as int,
                )) {
                assert forall|j: int| 0 <= j < head.tail_terms@.len() implies clause_free(u_g, #[trigger] head.tail_terms@[j] as int) by {
                    assert(clause_free(old(sumtis)@, head.tail_terms@[j] as int));
                    assert(head.tail_terms@[j] < old(sumtis)@.len());
                    lemma_clause_free_prefix(old(sumtis)@, u_g, head.tail_terms@[j] as int);
                }
            }
        }
        let mut acc = self.build_giha_branch(
            &positioned,
            next_place,
            head.relation,
            &head.tail_terms,
            head.negated,
            head.tense,
            head.attitudinal,
            &introduced,
            selbris,
            sumtis,
            sentences,
        );
        let ghost mut branches: Seq<LogicalForm> = seq![acc];
        let ghost mut fuel: nat = 0;
        let ghost st = so.union(term_vars(ts));
        proof {
            if self.errors@.len() == e0 && giha_clause_free(old(sumtis)@, sentences@) {
                assert(e_h == e0);
                lemma_giha_grow(selbris@, old(sumtis)@, u_g, sentences@);
                lemma_open_kept(*old(self), s_g);
                lemma_free_sub_mono(acc, open_vars(s_g).union(placed_vars(positioned@)), st);
            }
        }
        proof {
            lemma_added_forms_prefix(pend0, pend_g, self.pending_matrix_conjuncts@);
            if law_ready(*old(self), sentences@) && self.errors@.len() == e0 {
                assert(e_h == e0);
                lemma_ready_kept(*old(self), s_g, sentences@);
                lemma_added_forms(pend0, pend_g, self.pending_matrix_conjuncts@, p);
                assert(clear_form(acc, p));
            }
        }
        proof {
            if self.errors@.len() == e0 {
                fuel = choose|n: nat|
                    branch_compiled(interned(self.interner), selbris@, sumtis@, old(self).kea, hp, hnext, head.relation, head.tail_terms@, head.negated, head.tense, head.attitudinal, acc, n);
            }
        }
        let mut t: usize = 0;
        while t < tails.len()
            invariant
                t <= tails@.len(),
                ast_wf(selbris@, sumtis@, sentences@),
                prefix_of(old(sumtis)@, sumtis@),
                bridi_wf(*head, selbris@.len(), sumtis@.len()),
                forall|k: int|
                    0 <= k < tails@.len() ==> tail_wf(
                        #[trigger] tails@[k],
                        selbris@.len(),
                        sumtis@.len(),
                    ),
                kept(*old(self), *self),
                self.budget < old(self).budget,
                next_place <= 5,
                positioned@ == hp,
                next_place as int == hnext,
                e0 == old(self).errors@.len(),
                e0 <= e_h <= self.errors@.len(),
                prefix_of(names_h, interned(self.interner)),
                u0 == old(sumtis)@,
                ts.len() == head.head_terms@.len(),
                e_h == e0 ==> (hp, hnext) == spec_head_positions(u0, head.head_terms@, ts),
                e_h == e0 ==> mods == spec_modal_terms(u0, head.head_terms@, ts),
                spec_modal_pairs(modals@) == mods,
                markers@ == mk_h,
                modals@ == md_h,
                qs.len() == head.head_terms@.len(),
                e_h == e0 ==> spec_desc_quants(mk_h) == spec_term_quants(u0, head.head_terms@, qs),
                e_h == e0 ==> spec_modal_entry_quants(md_h) == spec_modal_quants(u0, head.head_terms@, qs),
                e_h == e0 ==> forall|k: int|
                    0 <= k < qs.len() ==> #[trigger] resolved_quants(
                        u0[term_target(u0, head.head_terms@[k] as int)],
                        selbris@,
                        names_h,
                        ts[k],
                        qs[k],
                    ),
                e_h == e0 ==> forall|k: int|
                    0 <= k < ts.len() ==> #[trigger] resolved_term(
                        u0,
                        term_target(u0, head.head_terms@[k] as int),
                        old(self).kea,
                        selbris@,
                        names_h,
                        ts[k],
                    ),
                branches.len() == t + 1,
                acc == chain_form(branches, tails@, t as int),
                self.errors@.len() == e0 ==> {
                    &&& branch_compiled(
                        interned(self.interner),
                        selbris@,
                        sumtis@,
                        old(self).kea,
                        hp,
                        hnext,
                        head.relation,
                        head.tail_terms@,
                        head.negated,
                        head.tense,
                        head.attitudinal,
                        branches[0],
                        fuel,
                    )
                    &&& forall|k: int|
                        0 <= k < t ==> #[trigger] branch_compiled(
                            interned(self.interner),
                            selbris@,
                            sumtis@,
                            old(self).kea,
                            hp,
                            hnext,
                            tails@[k].relation,
                            tails@[k].tail_terms@,
                            tails@[k].negated,
                            None,
                            None,
                            branches[k + 1],
                            fuel,
                        )
                },
                checkpoint == pend0.len(),
                p == old(self).prenex_vars@,
                pend0 == old(self).pending_matrix_conjuncts@,
                prefix_of(pend0, self.pending_matrix_conjuncts@),
                law_ready(*old(self), sentences@) && e_h == e0 ==> {
                    &&& clear_markers(mk_h, p)
                    &&& forall|j: int| 0 <= j < md_h.len() ==> clear_quants(#[trigger] md_h[j].2@, p)
                },
                law_ready(*old(self), sentences@) && self.errors@.len() == e0 ==> {
                    &&& clear_forms(added(pend0, self.pending_matrix_conjuncts@), p)
                    &&& clear_form(acc, p)
                },
                so == open_vars(*old(self)),
                st == so.union(term_vars(ts)),
                ast_wf(selbris@, old(sumtis)@, sentences@),
                ((forall|i: int| 0 <= i < head.tail_terms@.len() ==> clause_free(old(sumtis)@, #[trigger] head.tail_terms@[i] as int))
                && (forall|t: int, i: int| 0 <= t < tails@.len() && 0 <= i < tails@[t].tail_terms@.len() ==> clause_free(
                    old(sumtis)@,
                    #[trigger] tails@[t].tail_terms@[i] as int,
                ))) ==> self.pending_matrix_conjuncts@ == pend_g,
                e_h == e0 && giha_clause_free(old(sumtis)@, sentences@) ==> {
                    &&& bridi_open(so, ts, pend0, pend_g, mk_h, md_h)
                    &&& placed_vars(hp).subset_of(term_vars(ts))
                },
                self.errors@.len() == e0 && giha_clause_free(old(sumtis)@, sentences@) ==> free_sub(acc, st),
            decreases tails@.len() - t,
        {
            let ghost s_t = *self;
            let ghost pend_t = self.pending_matrix_conjuncts@;
            let ghost u_t = sumtis@;
            proof {
                if (forall|i: int| 0 <= i < head.tail_terms@.len() ==> clause_free(old(sumtis)@, #[trigger] head.tail_terms@[i] as int))
                && (forall|t: int, i: int| 0 <= t < tails@.len() && 0 <= i < tails@[t].tail_terms@.len() ==> clause_free(
                    old(sumtis)@,
                    #[trigger] tails@[t].tail_terms@[i] as int,
                )) {
                    assert forall|j: int| 0 <= j < tails@[t as int].tail_terms@.len() implies clause_free(u_t, #[trigger] tails@[t as int].tail_terms@[j] as int) by {
                        assert(clause_free(old(sumtis)@, tails@[t as int].tail_terms@[j] as int));
                        assert(tail_wf(tails@[t as int], selbris@.len(), old(sumtis)@.len()));
                        assert(tails@[t as int].tail_terms@[j] < old(sumtis)@.len());
                        lemma_clause_free_prefix(old(sumtis)@, u_t, tails@[t as int].tail_terms@[j] as int);
                    }
                }
            }
            let tail = &tails[t];
            assert(tail_wf(tails@[t as int], selbris@.len(), sumtis@.len()));
            let ghost u_b = sumtis@;
            let ghost n_b = interned(self.interner);
            let ghost e_b = self.errors@.len();
            let mut r = self.build_giha_branch(
                &positioned,
                next_place,
                tail.relation,
                &tail.tail_terms,
                tail.negated,
                None,
                None,
                &introduced,
                selbris,
                sumtis,
                sentences,
            );
            let ghost r0 = r;
            if tail.right_negated {
                r = LogicalForm::Not(Box::new(r));
            }
            let ghost acc0 = acc;
            let ghost rr = r;
            acc = join(tail.connective, acc, r);
            proof {
                if self.errors@.len() == e0 && giha_clause_free(old(sumtis)@, sentences@) {
                    assert(e_b == e0);
                    lemma_giha_grow(selbris@, old(sumtis)@, u_t, sentences@);
                    lemma_open_kept(*old(self), s_t);
                    lemma_free_sub_mono(r0, open_vars(s_t).union(placed_vars(hp)), st);
                    if tail.right_negated {
                        lemma_not_free(r0, st);
                    }
                    lemma_join_free(tail.connective, acc0, rr, st);
                }
            }
            proof {
                lemma_added_forms_prefix(pend0, pend_t, self.pending_matrix_conjuncts@);
                if law_ready(*old(self), sentences@) && self.errors@.len() == e0 {
                    assert(e_b == e0);
                    lemma_ready_kept(*old(self), s_t, sentences@);
                    lemma_added_forms(pend0, pend_t, self.pending_matrix_conjuncts@, p);
                    assert(clear_form(r0, p));
                    assert(clear_form(rr, p));
                    lemma_connective_clear(tail.connective, acc0, rr, p);
                }
            }
            proof {
                let nb = branches.push(r0);
                assert(nb.drop_last() =~= branches);
                assert forall|m: int| 0 <= m <= t implies #[trigger] nb[m] == branches[m] by {}
                lemma_chain_form_push(branches, tails@, t as int, r0);
                if self.errors@.len() == e0 {
                    assert(e_b == e0);
                    let nr = choose|n: nat|
                        branch_compiled(interned(self.interner), selbris@, sumtis@, old(self).kea, hp, hnext, tails@[t as int].relation, tails@[t as int].tail_terms@, tails@[t as int].negated, None, None, r0, n);
                    let nf = if fuel <= nr { nr } else { fuel };
                    lemma_branch_lift(n_b, interned(self.interner), u_b, sumtis@, selbris@, sentences@, old(self).kea, hp, hnext, head.relation, head.tail_terms@, head.negated, head.tense, head.attitudinal, branches[0], fuel, nf);
                    assert forall|k: int| 0 <= k < t implies #[trigger] branch_compiled(
                        interned(self.interner),
                        selbris@,
                        sumtis@,
                        old(self).kea,
                        hp,
                        hnext,
                        tails@[k].relation,
                        tails@[k].tail_terms@,
                        tails@[k].negated,
                        None,
                        None,
                        nb[k + 1],
                        nf,
                    ) by {
                        assert(tail_wf(tails@[k], selbris@.len(), u_b.len()));
                        lemma_branch_lift(n_b, interned(self.interner), u_b, sumtis@, selbris@, sentences@, old(self).kea, hp, hnext, tails@[k].relation, tails@[k].tail_terms@, tails@[k].negated, None, None, branches[k + 1], fuel, nf);
                    }
                    lemma_branch_lift(interned(self.interner), interned(self.interner), sumtis@, sumtis@, selbris@, sentences@, old(self).kea, hp, hnext, tails@[t as int].relation, tails@[t as int].tail_terms@, tails@[t as int].negated, None, None, r0, nr, nf);
                    fuel = nf;
                }
                branches = nb;
            }
            t = t + 1;
        }
        let main_x1 = head_x1(&positioned);
        let ghost chain = acc;
        let ghost n_c = interned(self.interner);
        let ghost u_c = sumtis@;
        let ghost e_c = self.errors@.len();
        let ghost pend_c = self.pending_matrix_conjuncts@;
        acc = self.conjoin_modals(acc, modals, main_x1, &mut markers, selbris);
        let ghost a1 = acc;
        let ghost names3 = interned(self.interner);
        acc = self.drain_conjuncts(acc, checkpoint);
        let ghost a2 = acc;
        acc = self.close_residual_vars(acc, &introduced);
        let ghost hh = acc;
        let ghost ms = markers@;
        let f = fold_markers(markers, acc);
        proof {
            if self.errors@.len() == e0 && giha_clause_free(old(sumtis)@, sentences@) && (forall|i: int| 0 <= i < head.tail_terms@.len() ==> clause_free(old(sumtis)@, #[trigger] head.tail_terms@[i] as int))
                && (forall|t: int, i: int| 0 <= t < tails@.len() && 0 <= i < tails@[t].tail_terms@.len() ==> clause_free(
                    old(sumtis)@,
                    #[trigger] tails@[t].tail_terms@[i] as int,
                )) {
                assert(e_c == e0 && e_h == e0);
                assert(pend_c == pend_g);
                assert(bridi_open(so, ts, pend0, pend_g, mk_h, md_h));
                assert(placed_vars(hp).subset_of(term_vars(ts)));
                lemma_head_x1_placed(hp);
                assert forall|k: u32| #[trigger] occurs_free(hh, k) implies st.contains(k) by {
                    assert(occurs_free(a2, k));
                    if occurs_free(a1, k) {
                        if occurs_free(chain, k) {
                        } else if main_x1 == Term::Variable(k) {
                            assert(placed_vars(hp).contains(k));
                        } else {
                            let j = choose|j: int| 0 <= j < md_h.len() && #[trigger] md_h[j].1 == Term::Variable(k);
                            assert(seq![md_h[j].1][0] == Term::Variable(k));
                            assert(term_vars(seq![md_h[j].1]).contains(k));
                            assert(0 <= j < md_h.len());
                            assert(quants_within(md_h[j].2@, so));
                            assert(term_vars(seq![md_h[j].1]).subset_of(term_vars(ts)));
                        }
                    } else {
                        let j = choose|j: int| checkpoint <= j < pend_c.len() && #[trigger] occurs_free(pend_c[j], k);
                        assert(free_sub(pend_c[j], st));
                    }
                }
                lemma_scopes_close(so, ts, mk_h, ms, md_h, hh);
            }
            if checkpoint < pend_c.len() {
                assert(pend_c.subrange(0, checkpoint as int) =~= pend0);
            } else {
                assert(pend_c =~= pend0);
            }
            if clean_run(*old(self), *self, sentences@) {
                assert(e_c == e0 && e_h == e0);
                assert(clear_form(chain, p));
                assert(clear_form(a1, p));
                lemma_markers_extend(mk_h, ms, p);
                assert(pend_c.subrange(checkpoint as int, pend_c.len() as int) == added(pend0, pend_c));
                assert(clear_form(a2, p));
                assert(clear_form(hh, p));
                lemma_fold_clear(ms, hh, p);
            }
        }
        proof {
            if self.errors@.len() == e0 {
                assert(e_c == e0);
                assert(e_h == e0);
                lemma_extends_trans(hh, a2, a1);
                lemma_modals_conjoined_mono(names3, interned(self.interner), selbris@, chain, mods, main_x1, a1);
                lemma_modal_terms_prefix(u0, sumtis@, head.head_terms@, ts);
                assert(main_x1 == spec_head_x1(hp));
                assert(chain == chain_form(branches, tails@, tails@.len() as int));
                lemma_head_positions_prefix(u0, sumtis@, head.head_terms@, ts);
                assert forall|k: int| 0 <= k < ts.len() implies #[trigger] resolved_term(
                    sumtis@,
                    term_target(sumtis@, head.head_terms@[k] as int),
                    old(self).kea,
                    selbris@,
                    interned(self.interner),
                    ts[k],
                ) by {
                    let id = head.head_terms@[k] as int;
                    assert(sumtis@[id] == u0[id]);
                    assert(term_target(sumtis@, id) == term_target(u0, id));
                    lemma_resolved_mono(u0, term_target(u0, id), old(self).kea, selbris@, names_h, interned(self.interner), ts[k]);
                    lemma_resolved_up(u0, sumtis@, term_target(u0, id), old(self).kea, selbris@, interned(self.interner), ts[k]);
                }
                assert(spec_head_positions(sumtis@, head.head_terms@, ts) == (hp, hnext));
                assert(branches.len() == tails@.len() + 1);
                lemma_bridi_wf_terms(*head, selbris@.len(), u_c.len());
                lemma_branch_lift(n_c, interned(self.interner), u_c, sumtis@, selbris@, sentences@, old(self).kea, hp, hnext, head.relation, head.tail_terms@, head.negated, head.tense, head.attitudinal, branches[0], fuel, fuel);
                assert forall|k: int| 0 <= k < tails@.len() implies #[trigger] branch_compiled(
                    interned(self.interner),
                    selbris@,
                    sumtis@,
                    old(self).kea,
                    hp,
                    hnext,
                    tails@[k].relation,
                    tails@[k].tail_terms@,
                    tails@[k].negated,
                    None,
                    None,
                    branches[k + 1],
                    fuel,
                ) by {
                    assert(tail_wf(tails@[k], selbris@.len(), u_c.len()));
                    lemma_branch_lift(n_c, interned(self.interner), u_c, sumtis@, selbris@, sentences@, old(self).kea, hp, hnext, tails@[k].relation, tails@[k].tail_terms@, tails@[k].negated, None, None, branches[k + 1], fuel, fuel);
                }
                assert(branch_compiled(interned(self.interner), selbris@, sumtis@, old(self).kea, hp, hnext, head.relation, head.tail_terms@, head.negated, head.tense, head.attitudinal, branches[0], fuel));
                assert(f == spec_fold_markers(ms, hh));
                lemma_term_quants_prefix(u0, sumtis@, head.head_terms@, qs);
                assert forall|j: int| 0 <= j < qs.len() implies #[trigger] resolved_quants(
                    sumtis@[term_target(sumtis@, head.head_terms@[j] as int)],
                    selbris@,
                    interned(self.interner),
                    ts[j],
                    qs[j],
                ) by {
                    let id = head.head_terms@[j] as int;
                    assert(sumtis@[id] == u0[id]);
                    assert(term_target(sumtis@, id) == term_target(u0, id));
                    lemma_wf_nodes(selbris@, u0, sentences@);
                    assert(sumti_wf(u0, selbris@.len(), sentences@.len(), id));
                    assert(sumtis@[term_target(u0, id)] == u0[term_target(u0, id)]);
                    lemma_resolved_quants_mono(u0[term_target(u0, id)], selbris@, names_h, interned(self.interner), ts[j], qs[j]);
                }
                assert(spec_desc_quants(ms) == spec_term_quants(sumtis@, head.head_terms@, qs) + spec_modal_quants(sumtis@, head.head_terms@, qs));
                assert(shared_head_parts(interned(self.interner), selbris@, sumtis@, old(self).kea, *head, tails@, f, ts, qs, branches, a1, ms, hh, fuel));
            }
        }
        f
    }

    /// Build one branch of a shared-head chain: the shared head arguments seed their
    /// places, the branch's own terms fill the rest, the branch's own scopes close
    /// here (the head's stay open for the caller), then `na`, tense and attitudinal wrap
    /// it. A connected sumti among the branch's terms distributes the branch.
    #[verifier::rlimit(40)]
    #[verifier::spinoff_prover]
    fn build_giha_branch(
        &mut self,
        head_positioned: &Vec<(usize, Term)>,
        head_next_place: usize,
        relation: u32,
        tail_terms: &Vec<u32>,
        negated: bool,
        tense: Option<Tense>,
        attitudinal: Option<Attitudinal>,
        head_introduced: &Vec<u32>,
        selbris: &Vec<Selbri>,
        sumtis: &mut Vec<Sumti>,
        sentences: &Vec<Sentence>,
    ) -> (f: LogicalForm)
        requires
            ast_wf(selbris@, old(sumtis)@, sentences@),
            relation < selbris@.len(),
            terms_wf(tail_terms@, old(sumtis)@.len()),
        ensures
            kept(*old(self), *final(self)),
            grown(selbris@, old(sumtis)@, final(sumtis)@, sentences@),
            final(self).errors@.len() == old(self).errors@.len() ==> exists|n: nat|
                branch_compiled(
                    interned(final(self).interner),
                    selbris@,
                    final(sumtis)@,
                    old(self).kea,
                    head_positioned@,
                    head_next_place as int,
                    relation,
                    tail_terms@,
                    negated,
                    tense,
                    attitudinal,
                    f,
                    n,
                ),
            prefix_of(old(self).pending_matrix_conjuncts@, final(self).pending_matrix_conjuncts@),
            clean_run(*old(self), *final(self), sentences@) ==> clear_form(f, old(self).prenex_vars@)
                && clear_forms(
                added(old(self).pending_matrix_conjuncts@, final(self).pending_matrix_conjuncts@),
                old(self).prenex_vars@,
            ),
            final(self).errors@.len() == old(self).errors@.len() && giha_clause_free(old(sumtis)@, sentences@) ==> free_sub(
                f,
                open_vars(*old(self)).union(placed_vars(head_positioned@)),
            ),
            (forall|i: int| 0 <= i < tail_terms@.len() ==> clause_free(old(sumtis)@, #[trigger] tail_terms@[i] as int)) ==> final(self).pending_matrix_conjuncts@ == old(self).pending_matrix_conjuncts@,
        decreases old(self).budget,
    {
        if !self.step() {
            return placeholder();
        }
        let ghost e0 = self.errors@.len();
        let ghost u0 = sumtis@;
        let ghost p = old(self).prenex_vars@;
        let ghost pend0 = old(self).pending_matrix_conjuncts@;
        let ghost s0 = *self;
        let ghost sb = open_vars(*old(self)).union(placed_vars(head_positioned@));
        proof {
            if law_ready(*old(self), sentences@) {
                lemma_ready_kept(*old(self), s0, sentences@);
            }
        }
        match find_connected_term(tail_terms, sumtis) {
            Some(split) => {
                proof {
                    lemma_split_ok(selbris@, sumtis@, sentences@, tail_terms@, split);
                }
                let (left_slot, right_slot) = match split.wrapper {
                    ConnWrapper::Bare => (split.left_id, split.right_id),
                    ConnWrapper::Place(tag) => {
                        let a = push_sumti(selbris, sumtis, sentences, Sumti::Tagged(tag, split.left_id));
                        let b = push_sumti(
                            selbris,
                            sumtis,
                            sentences,
                            Sumti::Tagged(tag, split.right_id),
                        );
                        match (a, b) {
                            (Some(a), Some(b)) => (a, b),
                            _ => {
                                self.fail("too many sumti to distribute a connective".to_owned());
                                return placeholder();
                            },
                        }
                    },
                    ConnWrapper::Modal(m) => {
                        let a = push_sumti(
                            selbris,
                            sumtis,
                            sentences,
                            Sumti::ModalTagged(m, split.left_id),
                        );
                        let b = push_sumti(
                            selbris,
                            sumtis,
                            sentences,
                            Sumti::ModalTagged(m, split.right_id),
                        );
                        match (a, b) {
                            (Some(a), Some(b)) => (a, b),
                            _ => {
                                self.fail("too many sumti to distribute a connective".to_owned());
                                return placeholder();
                            },
                        }
                    },
                };
                let ghost u_mid = sumtis@;
                let left_terms = with_term(tail_terms, split.term_pos, left_slot);
                let right_terms = with_term(tail_terms, split.term_pos, right_slot);
                proof {
                    assert(slot_for(u_mid, split.wrapper, split.left_id, left_slot));
                    assert(slot_for(u_mid, split.wrapper, split.right_id, right_slot));
                    assert(left_terms@ == tail_terms@.update(split.term_pos as int, left_terms@[split.term_pos as int]));
                    assert(right_terms@ == tail_terms@.update(split.term_pos as int, right_terms@[split.term_pos as int]));
                    assert(first_split(u0, tail_terms@, split));
                    lemma_terms_split_up(u0, u_mid, selbris@, sentences@, tail_terms@);
                    assert(terms_wf(tail_terms@, u_mid.len()));
                    lemma_terms_slot_wf(u_mid, selbris@, sentences@, tail_terms@, split, split.left_id, left_terms@);
                    lemma_terms_slot_wf(u_mid, selbris@, sentences@, tail_terms@, split, split.right_id, right_terms@);
                }
                let ghost s1 = *self;
                let ghost pend1 = self.pending_matrix_conjuncts@;
                proof {
                    if (forall|i: int| 0 <= i < tail_terms@.len() ==> clause_free(old(sumtis)@, #[trigger] tail_terms@[i] as int)) {
                        let pos = split.term_pos as int;
                        lemma_wf_nodes(selbris@, old(sumtis)@, sentences@);
                        assert(left_terms@[pos] == left_slot);
                        assert(right_terms@[pos] == right_slot);
                        assert(clause_free(old(sumtis)@, tail_terms@[pos] as int));
                        lemma_slot_clause_free(selbris@, sentences@, old(sumtis)@, u_mid, tail_terms@, split, split.left_id, left_slot);
                        lemma_slot_clause_free(selbris@, sentences@, old(sumtis)@, u_mid, tail_terms@, split, split.right_id, right_slot);
                        assert forall|i: int| 0 <= i < left_terms@.len() implies clause_free(u_mid, #[trigger] left_terms@[i] as int) by {
                            if i != pos {
                                assert(left_terms@[i] == tail_terms@[i]);
                                assert(clause_free(old(sumtis)@, tail_terms@[i] as int));
                                lemma_clause_free_prefix(old(sumtis)@, u_mid, tail_terms@[i] as int);
                            }
                        }
                        assert forall|i: int| 0 <= i < right_terms@.len() implies clause_free(u_mid, #[trigger] right_terms@[i] as int) by {
                            if i != pos {
                                assert(right_terms@[i] == tail_terms@[i]);
                                assert(clause_free(old(sumtis)@, tail_terms@[i] as int));
                                lemma_clause_free_prefix(old(sumtis)@, u_mid, tail_terms@[i] as int);
                            }
                        }
                    }
                }
                let left = self.build_giha_branch(
                    head_positioned,
                    head_next_place,
                    relation,
                    &left_terms,
                    negated,
                    tense,
                    attitudinal,
                    head_introduced,
                    selbris,
                    sumtis,
                    sentences,
                );
                let ghost u_l = sumtis@;
                let ghost n_l = interned(self.interner);
                let ghost e_l = self.errors@.len();
                let ghost s2 = *self;
                let ghost pend2 = self.pending_matrix_conjuncts@;
                proof {
                    if (forall|i: int| 0 <= i < tail_terms@.len() ==> clause_free(old(sumtis)@, #[trigger] tail_terms@[i] as int)) {
                        assert forall|i: int| 0 <= i < right_terms@.len() implies clause_free(u_l, #[trigger] right_terms@[i] as int) by {
                            assert(clause_free(u_mid, right_terms@[i] as int));
                            assert(right_terms@[i] < u_mid.len());
                            lemma_clause_free_prefix(u_mid, u_l, right_terms@[i] as int);
                        }
                    }
                }
                let mut right = self.build_giha_branch(
                    head_positioned,
                    head_next_place,
                    relation,
                    &right_terms,
                    negated,
                    tense,
                    attitudinal,
                    head_introduced,
                    selbris,
                    sumtis,
                    sentences,
                );
                let ghost r0 = right;
                if split.right_negated {
                    right = LogicalForm::Not(Box::new(right));
                }
                let ghost (lg, rg) = (left, right);
                let f = join(split.connective, left, right);
                proof {
                    if self.errors@.len() == e0 && giha_clause_free(old(sumtis)@, sentences@) {
                        assert(e_l == e0);
                        assert(s1.errors@.len() == e0);
                        lemma_giha_grow(selbris@, old(sumtis)@, u_mid, sentences@);
                        lemma_giha_grow(selbris@, old(sumtis)@, u_l, sentences@);
                        lemma_open_kept(*old(self), s1);
                        lemma_open_kept(*old(self), s2);
                        lemma_free_sub_mono(lg, open_vars(s1).union(placed_vars(head_positioned@)), sb);
                        lemma_free_sub_mono(r0, open_vars(s2).union(placed_vars(head_positioned@)), sb);
                        if split.right_negated {
                            lemma_not_free(r0, sb);
                        }
                        lemma_join_free(split.connective, lg, rg, sb);
                    }
                }
                proof {
                    assert(pend1 == pend0);
                    lemma_added_forms_prefix(pend0, pend2, self.pending_matrix_conjuncts@);
                    if clean_run(*old(self), *self, sentences@) {
                        assert(e_l == e0);
                        assert(s1.errors@.len() == e0);
                        lemma_ready_kept(*old(self), s1, sentences@);
                        lemma_ready_kept(*old(self), s2, sentences@);
                        lemma_added_forms(pend0, pend2, self.pending_matrix_conjuncts@, p);
                        assert(clear_form(lg, p));
                        assert(clear_form(r0, p));
                        assert(clear_form(rg, p));
                        lemma_connective_clear(split.connective, lg, rg, p);
                    }
                }
                proof {
                    assert(f == spec_join(split.connective, lg, rg));
                    if self.errors@.len() == e0 {
                        assert(e_l == e0);
                        let nl = choose|n: nat|
                            branch_compiled(n_l, selbris@, u_l, old(self).kea, head_positioned@, head_next_place as int, relation, left_terms@, negated, tense, attitudinal, lg, n);
                        let nr = choose|n: nat|
                            branch_compiled(interned(self.interner), selbris@, sumtis@, old(self).kea, head_positioned@, head_next_place as int, relation, right_terms@, negated, tense, attitudinal, r0, n);
                        let n = if nl <= nr { nr } else { nl };
                        assert(terms_wf(left_terms@, u_l.len()));
                        lemma_branch_lift(n_l, interned(self.interner), u_l, sumtis@, selbris@, sentences@, old(self).kea, head_positioned@, head_next_place as int, relation, left_terms@, negated, tense, attitudinal, lg, nl, n);
                        assert(terms_wf(right_terms@, sumtis@.len()));
                        lemma_branch_lift(interned(self.interner), interned(self.interner), sumtis@, sumtis@, selbris@, sentences@, old(self).kea, head_positioned@, head_next_place as int, relation, right_terms@, negated, tense, attitudinal, r0, nr, n);
                        lemma_terms_split_up(u0, sumtis@, selbris@, sentences@, tail_terms@);
                        assert(terms_split_parts(sumtis@, tail_terms@, split, left_terms@, right_terms@)) by {
                            match split.wrapper {
                                ConnWrapper::Bare => {},
                                _ => {
                                    assert(sumtis@[left_slot as int] == u_mid[left_slot as int]);
                                    assert(sumtis@[right_slot as int] == u_mid[right_slot as int]);
                                },
                            }
                        }
                        assert(joined_as(f, split.connective, split.right_negated, lg, r0));
                        assert(first_split(sumtis@, tail_terms@, split));
                        assert(!terms_unconnected(sumtis@, tail_terms@));
                        assert(branch_compiled(interned(self.interner), selbris@, sumtis@, old(self).kea, head_positioned@, head_next_place as int, relation, tail_terms@, negated, tense, attitudinal, f, n + 1));
                    }
                }
                return f;
            },
            None => {},
        }
        let arity = get_selbri_arity(selbris, relation);
        let mut slots = empty_slots(arity);
        proof {
            assert(slots@ =~= spec_empty_slots(arity as nat));
            assert(head_positioned@.take(0) =~= Seq::<(usize, Term)>::empty());
        }
        let mut h: usize = 0;
        while h < head_positioned.len()
            invariant
                slots@.len() == arity,
                h <= head_positioned@.len(),
                kept(*old(self), *self),
                self.budget < old(self).budget,
                self.pending_matrix_conjuncts == old(self).pending_matrix_conjuncts,
                e0 == old(self).errors@.len(),
                e0 <= self.errors@.len(),
                self.errors@.len() == e0 ==> slots@ == spec_head_slots(head_positioned@.take(h as int), arity as nat),
                forall|j: int| 0 <= j < slots@.len() ==> (#[trigger] slots@[j] matches Some(Term::Variable(k))
                    ==> placed_vars(head_positioned@).contains(k)),
            decreases head_positioned@.len() - h,
        {
            let (place, term) = head_positioned[h];
            proof {
                assert(head_positioned@.take(h + 1).drop_last() =~= head_positioned@.take(h as int));
                assert(head_positioned@.take(h + 1).last() == head_positioned@[h as int]);
            }
            if place >= arity {
                self.fail(head_beyond_message(place, arity));
            } else if slots[place].is_some() {
                self.fail("the shared GIhA head targets a place that is already filled.".to_owned());
            } else {
                let ghost sl0 = slots@;
                slots.set(place, Some(term));
                proof {
                    assert forall|j: int| 0 <= j < slots@.len() implies (#[trigger] slots@[j] matches Some(Term::Variable(k))
                        ==> placed_vars(head_positioned@).contains(k)) by {
                        if j != place as int {
                            assert(slots@[j] == sl0[j]);
                        } else {
                            assert(head_positioned@[h as int].1 == term);
                        }
                    }
                }
            }
            h = h + 1;
        }
        let ghost e_h = self.errors@.len();
        proof {
            assert(head_positioned@.take(head_positioned@.len() as int) =~= head_positioned@);
        }
        let next0 = if head_next_place < arity {
            head_next_place
        } else {
            arity
        };
        let mut frame = Frame {
            slots,
            next_place: next0,
            markers: Vec::new(),
            introduced: Vec::new(),
            modals: Vec::new(),
            overflow: 0,
        };
        let ghost init = frame.slots@;
        let ghost mut ts: Seq<Term> = Seq::empty();
        let ghost mut qs: Seq<Seq<QuantifierEntry>> = Seq::empty();
        proof {
            assert(head_positioned@.take(head_positioned@.len() as int) =~= head_positioned@);
            assert(tail_terms@.take(0) =~= Seq::<u32>::empty());
            assert(spec_modal_pairs(frame.modals@) =~= Seq::<(ModalTag, Term)>::empty());
            assert(spec_desc_quants(frame.markers@) =~= Seq::<QuantifierEntry>::empty());
            assert(spec_modal_entry_quants(frame.modals@) =~= Seq::<QuantifierEntry>::empty());
        }
        let mut i: usize = 0;
        while i < tail_terms.len()
            invariant
                i <= tail_terms@.len(),
                ast_wf(selbris@, sumtis@, sentences@),
                prefix_of(old(sumtis)@, sumtis@),
                terms_wf(tail_terms@, sumtis@.len()),
                kept(*old(self), *self),
                self.budget < old(self).budget,
                frame.slots@.len() == arity,
                frame.next_place <= arity,
                ts.len() == i,
                qs.len() == i,
                u0 == old(sumtis)@,
                ast_wf(selbris@, u0, sentences@),
                terms_wf(tail_terms@, u0.len()),
                e0 == old(self).errors@.len(),
                e0 <= e_h <= self.errors@.len(),
                e_h == e0 ==> init == spec_head_slots(head_positioned@, arity as nat),
                self.errors@.len() == e0 ==> {
                    &&& (frame.slots@, frame.next_place as int) == spec_placed_from(
                        u0,
                        tail_terms@.take(i as int),
                        ts,
                        init,
                        next0 as int,
                    )
                    &&& spec_modal_pairs(frame.modals@) == spec_modal_terms(u0, tail_terms@.take(i as int), ts)
                    &&& spec_desc_quants(frame.markers@) == spec_term_quants(u0, tail_terms@.take(i as int), qs)
                    &&& spec_modal_entry_quants(frame.modals@) == spec_modal_quants(u0, tail_terms@.take(i as int), qs)
                    &&& forall|k: int|
                        0 <= k < i ==> #[trigger] resolved_quants(
                            u0[term_target(u0, tail_terms@[k] as int)],
                            selbris@,
                            interned(self.interner),
                            ts[k],
                            qs[k],
                        )
                    &&& forall|k: int|
                        0 <= k < i ==> #[trigger] resolved_term(
                            u0,
                            term_target(u0, tail_terms@[k] as int),
                            old(self).kea,
                            selbris@,
                            interned(self.interner),
                            ts[k],
                        )
                },
                p == old(self).prenex_vars@,
                pend0 == old(self).pending_matrix_conjuncts@,
                prefix_of(pend0, self.pending_matrix_conjuncts@),
                law_ready(*old(self), sentences@) && self.errors@.len() == e0 ==> {
                    &&& clear_forms(added(pend0, self.pending_matrix_conjuncts@), p)
                    &&& clear_markers(frame.markers@, p)
                    &&& forall|j: int| 0 <= j < frame.modals@.len() ==> clear_quants(#[trigger] frame.modals@[j].2@, p)
                },
                sb == open_vars(*old(self)).union(placed_vars(head_positioned@)),
                intro_marked(frame.introduced@, frame.markers@),
                forall|j: int| 0 <= j < frame.slots@.len() ==> (#[trigger] frame.slots@[j] matches Some(Term::Variable(k))
                    ==> sb.contains(k) || term_vars(ts).contains(k)),
                self.errors@.len() == e0 && giha_clause_free(old(sumtis)@, sentences@) ==> bridi_open(sb, ts, pend0, self.pending_matrix_conjuncts@, frame.markers@, frame.modals@),
                (forall|i: int| 0 <= i < tail_terms@.len() ==> clause_free(old(sumtis)@, #[trigger] tail_terms@[i] as int)) ==> self.pending_matrix_conjuncts@ == pend0,
            decreases tail_terms@.len() - i,
        {
            let ghost s_i = *self;
            let ghost fr_i = frame;
            let ghost ts_i = ts;
            let ghost pend_i = self.pending_matrix_conjuncts@;
            let ghost before = sumtis@;
            let ghost eb = self.errors@.len();
            let ghost names_b = interned(self.interner);
            let ghost mk_b = frame.markers@;
            let ghost md_b = frame.modals@;
            proof {
                if (forall|i: int| 0 <= i < tail_terms@.len() ==> clause_free(old(sumtis)@, #[trigger] tail_terms@[i] as int)) {
                    assert(clause_free(old(sumtis)@, tail_terms@[i as int] as int));
                    lemma_clause_free_prefix(old(sumtis)@, before, tail_terms@[i as int] as int);
                }
            }
            let t = self.place_term(tail_terms[i], &mut frame, arity, selbris, sumtis, sentences);
            let ghost mut q: Seq<QuantifierEntry> = Seq::empty();
            proof {
                if self.errors@.len() == e0 && giha_clause_free(old(sumtis)@, sentences@) {
                    assert(eb == e0);
                    lemma_giha_grow(selbris@, old(sumtis)@, before, sentences@);
                    assert(term_placed_open(s_i, *self, t, fr_i, frame));
                    let md0 = fr_i.modals@;
                    let md1 = frame.modals@;
                    let si = open_vars(s_i);
                    assert forall|j: int| md0.len() <= j < md1.len() implies quants_within(#[trigger] md1[j].2@, si)
                        && md1[j].1 == t by {
                        assert(term_placed_open(s_i, *self, t, fr_i, frame));
                        assert(quants_within(frame.modals@[j].2@, open_vars(s_i)));
                    }
                    lemma_open_kept(*old(self), s_i);
                    assert(si.subset_of(sb));
                    assert(intro_marked(fr_i.introduced@, fr_i.markers@));
                    lemma_bridi_open_step(sb, si, ts_i, t, pend0, pend_i, self.pending_matrix_conjuncts@, fr_i.markers@, frame.markers@, md0, md1);
                }
                assert forall|j: int| 0 <= j < frame.slots@.len() implies (#[trigger] frame.slots@[j] matches Some(Term::Variable(k))
                    ==> sb.contains(k) || term_vars(ts_i.push(t)).contains(k)) by {
                    if let Some(Term::Variable(k)) = frame.slots@[j] {
                        if frame.slots@[j] == Some(t) {
                            assert(ts_i.push(t)[ts_i.len() as int] == t);
                        } else {
                            assert(fr_i.slots@[j] == frame.slots@[j]);
                            if !sb.contains(k) {
                                let w = choose|w: int| 0 <= w < ts_i.len() && #[trigger] ts_i[w] == Term::Variable(k);
                                assert(ts_i.push(t)[w] == ts_i[w]);
                            }
                        }
                    }
                }
            }
            proof {
                lemma_added_forms_prefix(pend0, pend_i, self.pending_matrix_conjuncts@);
                if law_ready(*old(self), sentences@) && self.errors@.len() == e0 {
                    assert(eb == e0);
                    lemma_ready_kept(*old(self), s_i, sentences@);
                    lemma_added_forms(pend0, pend_i, self.pending_matrix_conjuncts@, p);
                    lemma_markers_extend(mk_b, frame.markers@, p);
                    assert forall|j: int| 0 <= j < frame.modals@.len() implies clear_quants(#[trigger] frame.modals@[j].2@, p) by {
                        if j < md_b.len() {
                            assert(frame.modals@[j] == md_b[j]);
                        }
                    }
                }
            }
            proof {
                let id = tail_terms@[i as int] as int;
                if self.errors@.len() == e0 {
                    q = choose|q: Seq<QuantifierEntry>| #[trigger] term_scope(
                        before[term_target(before, id)],
                        before[id],
                        selbris@,
                        interned(self.interner),
                        t,
                        q,
                        mk_b,
                        frame.markers@,
                        md_b,
                        frame.modals@,
                    );
                    lemma_wf_nodes(selbris@, u0, sentences@);
                    assert(sumti_wf(u0, selbris@.len(), sentences@.len(), id));
                    assert(before[term_target(u0, id)] == u0[term_target(u0, id)]);
                    assert(qs.push(q).drop_last() =~= qs);
                    assert forall|j: int| 0 <= j < i implies #[trigger] resolved_quants(
                        u0[term_target(u0, tail_terms@[j] as int)],
                        selbris@,
                        interned(self.interner),
                        ts[j],
                        qs[j],
                    ) by {
                        lemma_resolved_quants_mono(u0[term_target(u0, tail_terms@[j] as int)], selbris@, names_b, interned(self.interner), ts[j], qs[j]);
                    }
                    assert(eb == e0);
                    assert(before[id] == u0[id]);
                    lemma_wf_nodes(selbris@, u0, sentences@);
                    assert(sumti_wf(u0, selbris@.len(), sentences@.len(), id));
                    assert(term_target(before, id) == term_target(u0, id));
                    lemma_resolved_grow(u0, before, term_target(u0, id), old(self).kea, selbris@, interned(self.interner), t);
                    assert forall|k: int| 0 <= k < i implies #[trigger] resolved_term(
                        u0,
                        term_target(u0, tail_terms@[k] as int),
                        old(self).kea,
                        selbris@,
                        interned(self.interner),
                        ts[k],
                    ) by {
                        lemma_resolved_mono(u0, term_target(u0, tail_terms@[k] as int), old(self).kea, selbris@, names_b, interned(self.interner), ts[k]);
                    }
                    assert(tail_terms@.take(i + 1).drop_last() =~= tail_terms@.take(i as int));
                    assert(tail_terms@.take(i + 1).last() == tail_terms@[i as int]);
                    assert(ts.push(t).drop_last() =~= ts);
                }
                ts = ts.push(t);
                qs = qs.push(q);
            }
            i = i + 1;
        }
        let args = slots_to_args(&frame.slots);
        let main_x1 = args[0];
        let ghost args_v = args@;
        let ghost names1 = interned(self.interner);
        let ghost s_a = *self;
        let ghost md_loop = frame.modals@;
        let ghost mk_loop = frame.markers@;
        let ghost slots_a = frame.slots@;
        let ghost u_a = sumtis@;
        let ghost pend_a = self.pending_matrix_conjuncts@;
        let mut form = self.apply_selbri(relation, args, selbris, sumtis, sentences);
        let ghost g = form;
        let ghost names2 = interned(self.interner);
        let ghost e2 = self.errors@.len();
        let mut markers = frame.markers;
        let ghost mods = spec_modal_pairs(frame.modals@);
        form = self.conjoin_modals(form, frame.modals, main_x1, &mut markers, selbris);
        let ghost f2 = form;
        let ghost names3 = interned(self.interner);
        let skip = concat_ids(&frame.introduced, head_introduced);
        let ghost names_c = interned(self.interner);
        form = self.close_residual_vars(form, &skip);
        let ghost hh = form;
        let ghost vs = choose|vs: Seq<u32>|
            {
                &&& vs.no_duplicates()
                &&& forall|k: u32|
                    #[trigger] vs.contains(k) <==> (collectable(names_c, self.prenex_vars@, Seq::empty(), f2, k)
                        && !skip@.contains(k))
                &&& hh == spec_exists_all(vs, f2)
            };
        let ghost ms = markers@;
        form = fold_markers(markers, form);
        let f = wrap_bridi(negated, tense, attitudinal, form);
        proof {
            assert(f == spec_wrapped(negated, tense, attitudinal, form));
            if self.errors@.len() == e0 && giha_clause_free(old(sumtis)@, sentences@) {
                assert(e2 == e0);
                lemma_giha_grow(selbris@, old(sumtis)@, u_a, sentences@);
                lemma_open_kept(*old(self), s_a);
                lemma_free_sub_mono(g, term_vars(args_v).union(open_vars(s_a)), term_vars(args_v).union(sb));
                assert(bridi_open(sb, ts, pend_a, pend_a, mk_loop, md_loop));
                lemma_bridi_close(sb, ts, slots_a, args_v, main_x1, g, f2, f2, hh, pend_a, pend_a, mk_loop, ms, md_loop);
                lemma_wrapped_free(negated, tense, attitudinal, form, sb);
            }
            if clean_run(*old(self), *self, sentences@) {
                assert(e2 == e0);
                lemma_ready_kept(*old(self), s_a, sentences@);
                assert(clear_form(g, p));
                assert(forall|j: int| 0 <= j < md_loop.len() ==> clear_quants(#[trigger] md_loop[j].2@, p));
                assert(clear_form(f2, p));
                lemma_markers_extend(mk_loop, ms, p);
                assert(clear_form(hh, p));
                lemma_fold_clear(ms, hh, p);
                lemma_wrapped_clear(negated, tense, attitudinal, form, p);
            }
        }
        proof {
            if self.errors@.len() == e0 {
                assert(e2 == e0);
                assert(tail_terms@.take(tail_terms@.len() as int) =~= tail_terms@);
                assert(args_v =~= spec_slot_args(frame.slots@));
                lemma_applied_mono(names2, interned(self.interner), selbris@, relation as int, args_v, g);
                lemma_modals_conjoined_mono(names3, interned(self.interner), selbris@, g, mods, main_x1, f2);
                assert(main_x1 == spec_x1(args_v));
                assert forall|k: int| 0 <= k < ts.len() implies #[trigger] resolved_term(
                    u0,
                    term_target(u0, tail_terms@[k] as int),
                    old(self).kea,
                    selbris@,
                    interned(self.interner),
                    ts[k],
                ) by {
                    lemma_resolved_mono(u0, term_target(u0, tail_terms@[k] as int), old(self).kea, selbris@, names1, interned(self.interner), ts[k]);
                }
                assert(form == spec_fold_markers(ms, hh));
                assert(init == spec_head_slots(head_positioned@, arity as nat));
                assert(frame.slots@ == spec_placed_from(u0, tail_terms@, ts, spec_head_slots(head_positioned@, arity as nat), next0 as int).0);
                assert(mods == spec_modal_terms(u0, tail_terms@, ts));
                assert forall|j: int| 0 <= j < qs.len() implies #[trigger] resolved_quants(
                    u0[term_target(u0, tail_terms@[j] as int)],
                    selbris@,
                    interned(self.interner),
                    ts[j],
                    qs[j],
                ) by {
                    lemma_resolved_quants_mono(u0[term_target(u0, tail_terms@[j] as int)], selbris@, names1, interned(self.interner), ts[j], qs[j]);
                }
                assert(spec_desc_quants(ms) == spec_term_quants(u0, tail_terms@, qs) + spec_modal_quants(u0, tail_terms@, qs));
                assert(forall|v: u32| #[trigger] vs.contains(v) ==> occurs_free(f2, v));
                assert(branch_parts(interned(self.interner), selbris@, u0, old(self).kea, head_positioned@, head_next_place as int, relation, tail_terms@, negated, tense, attitudinal, f, ts, qs, g, f2, ms, hh, vs));
                assert(branch_predication(interned(self.interner), selbris@, u0, old(self).kea, head_positioned@, head_next_place as int, relation, tail_terms@, negated, tense, attitudinal, f));
                lemma_terms_split_up(u0, sumtis@, selbris@, sentences@, tail_terms@);
                assert(terms_unconnected(u0, tail_terms@));
                lemma_branch_lift(interned(self.interner), interned(self.interner), u0, sumtis@, selbris@, sentences@, old(self).kea, head_positioned@, head_next_place as int, relation, tail_terms@, negated, tense, attitudinal, f, 0, 0);
            }
        }
        f
    }
}

impl SemanticCompiler {
    /// Compile every top-level sentence of a parsed text, in order.
    pub fn compile_roots(&mut self, ast: &mut Ast) -> (forms: Vec<LogicalForm>)
        requires
            ast_wf(old(ast).selbris@, old(ast).sumtis@, old(ast).sentences@),
            forall|k: int|
                0 <= k < old(ast).roots@.len() ==> #[trigger] old(ast).roots@[k] < old(
                    ast,
                ).sentences@.len(),
        ensures
            forms@.len() == old(ast).roots@.len(),
            kept(*old(self), *final(self)),
            final(ast).selbris@ == old(ast).selbris@,
            final(ast).sentences@ == old(ast).sentences@,
            final(ast).roots@ == old(ast).roots@,
            prefix_of(old(ast).sumtis@, final(ast).sumtis@),
            ast_wf(final(ast).selbris@, final(ast).sumtis@, final(ast).sentences@),
            old(self).pending_clause_subject is None && final(self).errors@.len() == old(
                self,
            ).errors@.len() ==> forall|k: int|
                0 <= k < forms@.len() ==> #[trigger] sentence_compiled(
                    interned(final(self).interner),
                    old(ast).selbris@,
                    final(ast).sumtis@,
                    old(ast).sentences@,
                    old(self).kea,
                    old(ast).roots@[k] as int,
                    forms@[k],
                ),
            law_ready(*old(self), old(ast).sentences@) && final(self).errors@.len() == old(self).errors@.len()
                ==> forall|k: int|
                0 <= k < forms@.len() ==> #[trigger] prenex_kept(
                    interned(final(self).interner),
                    old(ast).sentences@,
                    old(ast).roots@[k] as int,
                    forms@[k],
                ),
            final(self).errors@.len() == old(self).errors@.len() && giha_clause_free(old(ast).sumtis@, old(ast).sentences@)
                ==> forall|k: int| 0 <= k < forms@.len() ==> free_sub(#[trigger] forms@[k], open_vars(*old(self))),
            (exists|k: int|
                0 <= k < old(ast).roots@.len() && #[trigger] simple_tag_beyond(
                    old(ast).selbris@,
                    old(ast).sumtis@,
                    old(ast).sentences@,
                    old(ast).roots@[k] as int,
                )) ==> final(self).errors@.len() > old(self).errors@.len(),
            forall|k: int|
                0 <= k < old(ast).roots@.len() ==> (old(ast).sentences@[#[trigger] old(ast).roots@[k] as int] matches Sentence::Simple(b)
                    ==> (no_connected(old(ast).sumtis@, b) ==> tag_beyond_reported(
                    old(self).errors@,
                    final(self).errors@,
                    old(ast).selbris@,
                    old(ast).sumtis@,
                    b,
                ))),
    {
        let mut forms: Vec<LogicalForm> = Vec::new();
        let ghost e0 = self.errors@.len();
        let mut i: usize = 0;
        while i < ast.roots.len()
            invariant
                i <= ast.roots@.len(),
                ast.roots@ == old(ast).roots@,
                ast.sentences@ == old(ast).sentences@,
                ast.selbris@ == old(ast).selbris@,
                ast_wf(ast.selbris@, ast.sumtis@, ast.sentences@),
                prefix_of(old(ast).sumtis@, ast.sumtis@),
                forall|k: int| 0 <= k < ast.roots@.len() ==> #[trigger] ast.roots@[k] < ast.sentences@.len(),
                forms@.len() == i,
                kept(*old(self), *self),
                forall|k: int|
                    0 <= k < i ==> (old(ast).sentences@[#[trigger] old(ast).roots@[k] as int] matches Sentence::Simple(b)
                        ==> (no_connected(old(ast).sumtis@, b) ==> tag_beyond_reported(
                        old(self).errors@,
                        self.errors@,
                        old(ast).selbris@,
                        old(ast).sumtis@,
                        b,
                    ))),
                e0 == old(self).errors@.len(),
                (exists|k: int|
                    0 <= k < i && #[trigger] simple_tag_beyond(
                        old(ast).selbris@,
                        old(ast).sumtis@,
                        old(ast).sentences@,
                        old(ast).roots@[k] as int,
                    )) ==> self.errors@.len() > e0,
                old(self).pending_clause_subject is None && self.errors@.len() == e0 ==> forall|k: int|
                    0 <= k < i ==> #[trigger] sentence_compiled(
                        interned(self.interner),
                        old(ast).selbris@,
                        ast.sumtis@,
                        old(ast).sentences@,
                        old(self).kea,
                        old(ast).roots@[k] as int,
                        forms@[k],
                    ),
                law_ready(*old(self), old(ast).sentences@) && self.errors@.len() == e0 ==> forall|k: int|
                    0 <= k < i ==> #[trigger] prenex_kept(
                        interned(self.interner),
                        old(ast).sentences@,
                        old(ast).roots@[k] as int,
                        forms@[k],
                    ),
                ast_wf(old(ast).selbris@, old(ast).sumtis@, old(ast).sentences@),
                self.errors@.len() == e0 && giha_clause_free(old(ast).sumtis@, old(ast).sentences@) ==> forall|k: int|
                    0 <= k < i ==> free_sub(#[trigger] forms@[k], open_vars(*old(self))),
            decreases ast.roots@.len() - i,
        {
            let root = ast.roots[i];
            let ghost n0 = interned(self.interner);
            let ghost u0 = ast.sumtis@;
            let ghost s_i = *self;
            let f = self.compile_sentence(root, &ast.selbris, &mut ast.sumtis, &ast.sentences);
            proof {
                lemma_wf_nodes(old(ast).selbris@, old(ast).sumtis@, old(ast).sentences@);
                assert forall|k: int|
                    0 <= k < i + 1 implies (old(ast).sentences@[#[trigger] old(ast).roots@[k] as int] matches Sentence::Simple(b)
                        ==> (no_connected(old(ast).sumtis@, b) ==> tag_beyond_reported(
                        old(self).errors@,
                        self.errors@,
                        old(ast).selbris@,
                        old(ast).sumtis@,
                        b,
                    ))) by {
                    if let Sentence::Simple(b) = old(ast).sentences@[old(ast).roots@[k] as int] {
                        if no_connected(old(ast).sumtis@, b) {
                            assert(sentence_wf(
                                old(ast).sentences@,
                                old(ast).selbris@.len(),
                                old(ast).sumtis@.len(),
                                old(ast).roots@[k] as int,
                            ));
                            if k < i {
                                lemma_tag_beyond_reported_grow(
                                    old(self).errors@,
                                    old(self).errors@,
                                    s_i.errors@,
                                    self.errors@,
                                    old(ast).selbris@,
                                    old(ast).sentences@,
                                    old(ast).sumtis@,
                                    old(ast).sumtis@,
                                    b,
                                );
                            } else {
                                lemma_no_connected_prefix(old(ast).sumtis@, u0, old(ast).selbris@, old(ast).sentences@, b);
                                lemma_tag_beyond_reported_grow(
                                    old(self).errors@,
                                    s_i.errors@,
                                    self.errors@,
                                    self.errors@,
                                    old(ast).selbris@,
                                    old(ast).sentences@,
                                    old(ast).sumtis@,
                                    u0,
                                    b,
                                );
                            }
                        }
                    }
                }
                if simple_tag_beyond(old(ast).selbris@, old(ast).sumtis@, old(ast).sentences@, root as int) {
                    lemma_simple_tag_beyond_prefix(old(ast).sumtis@, u0, old(ast).selbris@, old(ast).sentences@, root as int);
                }
                if exists|k: int| 0 <= k < i + 1 && #[trigger] simple_tag_beyond(
                    old(ast).selbris@,
                    old(ast).sumtis@,
                    old(ast).sentences@,
                    old(ast).roots@[k] as int,
                ) {
                    let k = choose|k: int| 0 <= k < i + 1 && #[trigger] simple_tag_beyond(
                        old(ast).selbris@,
                        old(ast).sumtis@,
                        old(ast).sentences@,
                        old(ast).roots@[k] as int,
                    );
                    if k < i {
                        assert(s_i.errors@.len() > e0);
                    }
                }
                if self.errors@.len() == e0 && giha_clause_free(old(ast).sumtis@, old(ast).sentences@) {
                    assert(s_i.errors@.len() == e0);
                    lemma_giha_grow(old(ast).selbris@, old(ast).sumtis@, u0, old(ast).sentences@);
                    lemma_open_kept(*old(self), s_i);
                    lemma_free_sub_mono(f, open_vars(s_i), open_vars(*old(self)));
                }
                if law_ready(*old(self), old(ast).sentences@) && self.errors@.len() == e0 {
                    lemma_ready_kept(*old(self), s_i, old(ast).sentences@);
                    assert(s_i.errors@.len() == e0);
                    assert forall|k: int| 0 <= k < i implies #[trigger] prenex_kept(
                        interned(self.interner),
                        old(ast).sentences@,
                        old(ast).roots@[k] as int,
                        forms@[k],
                    ) by {
                        lemma_prenex_kept_mono(n0, interned(self.interner), old(ast).sentences@, old(ast).roots@[k] as int, forms@[k]);
                    }
                }
            }
            proof {
                if old(self).pending_clause_subject is None && self.errors@.len() == e0 {
                    assert forall|k: int| 0 <= k < i implies #[trigger] sentence_compiled(
                        interned(self.interner),
                        old(ast).selbris@,
                        ast.sumtis@,
                        old(ast).sentences@,
                        old(self).kea,
                        old(ast).roots@[k] as int,
                        forms@[k],
                    ) by {
                        lemma_compiled_lift(n0, interned(self.interner), u0, ast.sumtis@, old(ast).selbris@, old(ast).sentences@, old(self).kea, old(ast).roots@[k] as int, forms@[k]);
                    }
                }
            }
            forms.push(f);
            i = i + 1;
        }
        forms
    }
}

} // verus!
