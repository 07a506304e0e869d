//! The abstract syntax of the Lojban fragment: flat node buffers addressed by
//! `u32` ids. A node only refers to nodes that were allocated before it, which is
//! what [`ast_wf`] states.

use vstd::prelude::*;
use crate::lexer::Cmavo;

verus! {

/// A tense marker (`pu`/`ca`/`ba`).
#[derive(Clone, Copy, PartialEq, Eq, Debug, Structural)]
pub enum Tense {
    Pu,
    Ca,
    Ba,
}

/// A deontic attitudinal (`ei`/`e'e`).
#[derive(Clone, Copy, PartialEq, Eq, Debug, Structural)]
pub enum Attitudinal {
    Ei,
    Ehe,
}

/// A logical connective (`je`/`ja`/`jo`/`ju` and their sumti and GIhA forms).
#[derive(Clone, Copy, PartialEq, Eq, Debug, Structural)]
pub enum Connective {
    Je,
    Ja,
    Jo,
    Ju,
}

/// How two sentences are joined.
#[derive(Clone, Copy, PartialEq, Eq, Debug, Structural)]
pub enum SentenceConnective {
    GanaiGi,
    GeGi,
    GaGi,
    GoGi,
    Afterthought { left_negated: bool, connective: Connective, right_negated: bool },
}

/// A place tag (`fa`..`fu`), naming places x1..x5.
#[derive(Clone, Copy, PartialEq, Eq, Debug, Structural)]
pub enum PlaceTag {
    Fa,
    Fe,
    Fi,
    Fo,
    Fu,
}

/// The place (0-based) that a place tag names.
pub open spec fn spec_tag_index(t: PlaceTag) -> nat {
    match t {
        PlaceTag::Fa => 0,
        PlaceTag::Fe => 1,
        PlaceTag::Fi => 2,
        PlaceTag::Fo => 3,
        PlaceTag::Fu => 4,
    }
}

/// The cmavo that spells a place tag.
pub open spec fn spec_tag_name(t: PlaceTag) -> Seq<char> {
    match t {
        PlaceTag::Fa => "fa"@,
        PlaceTag::Fe => "fe"@,
        PlaceTag::Fi => "fi"@,
        PlaceTag::Fo => "fo"@,
        PlaceTag::Fu => "fu"@,
    }
}

impl PlaceTag {
    /// The place (0-based) this tag names.
    pub fn to_index(&self) -> (i: usize)
        ensures
            i == spec_tag_index(*self),
    {
        match self {
            PlaceTag::Fa => 0,
            PlaceTag::Fe => 1,
            PlaceTag::Fi => 2,
            PlaceTag::Fo => 3,
            PlaceTag::Fu => 4,
        }
    }

    /// The cmavo that spells this tag.
    pub fn name(&self) -> (s: &'static str)
        ensures
            s@ == spec_tag_name(*self),
    {
        match self {
            PlaceTag::Fa => "fa",
            PlaceTag::Fe => "fe",
            PlaceTag::Fi => "fi",
            PlaceTag::Fo => "fo",
            PlaceTag::Fu => "fu",
        }
    }
}

/// A BAI modal cmavo of the fragment.
#[derive(Clone, Copy, PartialEq, Eq, Debug, Structural)]
pub enum Bai {
    Riha,
    Kihu,
    Piho,
    Muhi,
    Gau,
}

/// A modal tag: a fixed BAI, or `fi'o` with the id of its selbri.
#[derive(Clone, Copy, PartialEq, Eq, Debug, Structural)]
pub enum ModalTag {
    Fixed(Bai),
    Fio(u32),
}

/// A description article.
#[derive(Clone, Copy, PartialEq, Eq, Debug, Structural)]
pub enum Gadri {
    Lo,
    Le,
    La,
}

/// A place-swapping conversion (`se`/`te`/`ve`/`xe`).
#[derive(Clone, Copy, PartialEq, Eq, Debug, Structural)]
pub enum Conversion {
    Se,
    Te,
    Ve,
    Xe,
}

/// An outer quantifier on a description.
#[derive(Clone, Copy, PartialEq, Eq, Debug, Structural)]
pub enum Quantifier {
    Ro,
    Number(u32),
}

/// A selbri node.
#[derive(Debug)]
pub enum Selbri {
    /// A predicate word.
    Root(String),
    /// A tanru: a modifier selbri applied to a head selbri.
    Tanru(u32, u32),
    /// A place-swapping conversion of a selbri.
    Converted(Conversion, u32),
    /// A `na`-negated selbri.
    Negated(u32),
    /// A `nu` abstraction over a sentence.
    Abstraction(u32),
}

/// A sumti node.
#[derive(Debug)]
pub enum Sumti {
    ProSumti(Cmavo),
    Name(String),
    QuotedLiteral(String),
    Number(u32),
    Description { gadri: Gadri, selbri: u32, quantifier: Option<Quantifier> },
    /// A sumti with a relative clause (`poi`/`noi` and a sentence).
    Restricted { inner: u32, clause: u32, restrictive: bool },
    Tagged(PlaceTag, u32),
    ModalTagged(ModalTag, u32),
    /// `left connective [nai] right`.
    Connected(u32, Connective, bool, u32),
}

/// A predication: a selbri with its head and tail terms.
#[derive(Debug)]
pub struct Bridi {
    pub relation: u32,
    pub head_terms: Vec<u32>,
    pub tail_terms: Vec<u32>,
    pub negated: bool,
    pub tense: Option<Tense>,
    pub attitudinal: Option<Attitudinal>,
}

/// One GIhA bridi-tail: its own selbri and trailing terms, sharing the chain's head.
#[derive(Debug)]
pub struct GihaTail {
    pub connective: Connective,
    pub right_negated: bool,
    pub relation: u32,
    pub tail_terms: Vec<u32>,
    pub negated: bool,
}

/// A sentence node.
#[derive(Debug)]
pub enum Sentence {
    Simple(Bridi),
    /// `ro da [ro de ...] zo'u` over a body sentence.
    Prenex(Vec<Cmavo>, u32),
    Connected(SentenceConnective, u32, u32),
    /// A GIhA chain whose quantified/description head is bound once across its tails.
    SharedHead(Bridi, Vec<GihaTail>),
}

/// A parsed text: the node buffers and the ids of its top-level sentences.
#[derive(Debug)]
pub struct Ast {
    pub selbris: Vec<Selbri>,
    pub sumtis: Vec<Sumti>,
    pub sentences: Vec<Sentence>,
    pub roots: Vec<u32>,
}

/// A selbri node refers only to earlier selbri and to existing sentences.
pub open spec fn selbri_wf(selbris: Seq<Selbri>, nsent: nat, j: int) -> bool {
    match selbris[j] {
        Selbri::Tanru(m, h) => m < j && h < j,
        Selbri::Converted(_, i) => i < j,
        Selbri::Negated(i) => i < j,
        Selbri::Abstraction(s) => s < nsent,
        Selbri::Root(_) => true,
    }
}

/// A sumti node refers only to earlier sumti and to existing selbri and sentences.
pub open spec fn sumti_wf(sumtis: Seq<Sumti>, nsel: nat, nsent: nat, i: int) -> bool {
    match sumtis[i] {
        Sumti::Description { selbri, .. } => selbri < nsel,
        Sumti::Restricted { inner, clause, .. } => inner < i && clause < nsent,
        Sumti::Tagged(_, inner) => inner < i,
        Sumti::ModalTagged(m, inner) => inner < i && match m {
            ModalTag::Fio(s) => s < nsel,
            ModalTag::Fixed(_) => true,
        },
        Sumti::Connected(l, _, _, r) => l < i && r < i,
        _ => true,
    }
}

/// Every term id of a list names an existing sumti.
pub open spec fn terms_wf(terms: Seq<u32>, nsum: nat) -> bool {
    forall|k: int| 0 <= k < terms.len() ==> #[trigger] terms[k] < nsum
}

/// A bridi names an existing selbri and existing sumti.
pub open spec fn bridi_wf(b: Bridi, nsel: nat, nsum: nat) -> bool {
    &&& b.relation < nsel
    &&& terms_wf(b.head_terms@, nsum)
    &&& terms_wf(b.tail_terms@, nsum)
}

/// A GIhA tail names an existing selbri and existing sumti.
pub open spec fn tail_wf(t: GihaTail, nsel: nat, nsum: nat) -> bool {
    &&& t.relation < nsel
    &&& terms_wf(t.tail_terms@, nsum)
}

/// A sentence node refers only to earlier sentences and to existing selbri and sumti.
pub open spec fn sentence_wf(sentences: Seq<Sentence>, nsel: nat, nsum: nat, k: int) -> bool {
    match sentences[k] {
        Sentence::Simple(b) => bridi_wf(b, nsel, nsum),
        Sentence::Prenex(_, body) => body < k,
        Sentence::Connected(_, l, r) => l < k && r < k,
        Sentence::SharedHead(h, tails) => bridi_wf(h, nsel, nsum) && forall|t: int|
            0 <= t < tails@.len() ==> tail_wf(#[trigger] tails@[t], nsel, nsum),
    }
}

/// Well-formed node buffers: every reference points at an existing node, and within a
/// buffer only at an earlier one.
#[verifier::opaque]
pub open spec fn ast_wf(selbris: Seq<Selbri>, sumtis: Seq<Sumti>, sentences: Seq<Sentence>) -> bool {
    &&& forall|j: int| 0 <= j < selbris.len() ==> #[trigger] selbri_wf(selbris, sentences.len(), j)
    &&& forall|i: int|
        0 <= i < sumtis.len() ==> #[trigger] sumti_wf(sumtis, selbris.len(), sentences.len(), i)
    &&& forall|k: int|
        0 <= k < sentences.len() ==> #[trigger] sentence_wf(
            sentences,
            selbris.len(),
            sumtis.len(),
            k,
        )
}

/// The nodes of well-formed buffers are each well formed.
pub proof fn lemma_wf_nodes(selbris: Seq<Selbri>, sumtis: Seq<Sumti>, sentences: Seq<Sentence>)
    requires
        ast_wf(selbris, sumtis, sentences),
    ensures
        forall|j: int| 0 <= j < selbris.len() ==> #[trigger] selbri_wf(selbris, sentences.len(), j),
        forall|i: int|
            0 <= i < sumtis.len() ==> #[trigger] sumti_wf(sumtis, selbris.len(), sentences.len(), i),
        forall|k: int|
            0 <= k < sentences.len() ==> #[trigger] sentence_wf(
                sentences,
                selbris.len(),
                sumtis.len(),
                k,
            ),
{
    reveal(ast_wf);
}

/// Empty buffers are well formed.
pub proof fn lemma_wf_empty(selbris: Seq<Selbri>, sumtis: Seq<Sumti>, sentences: Seq<Sentence>)
    requires
        selbris.len() == 0,
        sumtis.len() == 0,
        sentences.len() == 0,
    ensures
        ast_wf(selbris, sumtis, sentences),
{
    reveal(ast_wf);
}

/// A copy of a list of node ids.
pub fn copy_ids(v: &Vec<u32>) -> (r: Vec<u32>)
    ensures
        r@ == v@,
{
    let mut r: Vec<u32> = Vec::new();
    let mut i: usize = 0;
    while i < v.len()
        invariant
            i <= v@.len(),
            r@ == v@.subrange(0, i as int),
        decreases v@.len() - i,
    {
        r.push(v[i]);
        i = i + 1;
    }
    assert(r@ =~= v@);
    r
}

} // verus!
