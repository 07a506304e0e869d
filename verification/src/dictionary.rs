//! The place structures the semantic compiler relies on: how many places each known
//! predicate word has, the predicate behind each BAI modal, and a short gloss for every
//! word of the fragment.

use vstd::prelude::*;
use crate::ast::Bai;
use crate::lexer::{Cmavo, cmavo_of, spec_cmavo_of};

verus! {

/// The number of places of a known predicate word.
pub open spec fn spec_arity(w: Seq<char>) -> Option<nat> {
    if w == "gerku"@ || w == "mlatu"@ || w == "citka"@ || w == "sutra"@ || w == "prami"@
        || w == "cidja"@ || w == "kunti"@ || w == "plise"@ || w == "badna"@ || w == "danlu"@
        || w == "krinu"@ || w == "gasnu"@ || w == "nelci"@ {
        Some(2)
    } else if w == "barda"@ || w == "ponse"@ || w == "datni"@ || w == "curmi"@ || w == "pilno"@
        || w == "bilga"@ || w == "djica"@ || w == "viska"@ || w == "dunda"@ || w == "tarmi"@
        || w == "mukti"@ || w == "zarci"@ || w == "cmene"@ {
        Some(3)
    } else if w == "bajra"@ || w == "rinka"@ {
        Some(4)
    } else if w == "klama"@ || w == "cukta"@ {
        Some(5)
    } else if w == "prenu"@ || w == "terdi"@ {
        Some(1)
    } else {
        None
    }
}

/// The place count the compiler uses: a known word's own, two for an unknown word.
pub open spec fn spec_arity_or_default(w: Seq<char>) -> nat {
    match spec_arity(w) {
        Some(n) => n,
        None => 2,
    }
}

/// True when two strings have the same characters.
pub fn str_equal(a: &str, b: &str) -> (r: bool)
    ensures
        r == (a@ == b@),
{
    let n = a.unicode_len();
    if b.unicode_len() != n {
        return false;
    }
    let mut i: usize = 0;
    while i < n
        invariant
            n == a@.len(),
            n == b@.len(),
            i <= n,
            forall|j: int| 0 <= j < i ==> a@[j] == b@[j],
        decreases n - i,
    {
        if a.get_char(i) != b.get_char(i) {
            return false;
        }
        i = i + 1;
    }
    assert(a@ =~= b@);
    true
}

/// The number of places of a known predicate word, `None` for an unknown word.
pub fn get_arity(w: &str) -> (r: Option<usize>)
    ensures
        match r {
            Some(n) => spec_arity(w@) == Some(n as nat),
            None => spec_arity(w@) is None,
        },
{
    if str_equal(w, "gerku") || str_equal(w, "mlatu") || str_equal(w, "citka") || str_equal(
        w,
        "sutra",
    ) || str_equal(w, "prami") || str_equal(w, "cidja") || str_equal(w, "kunti") || str_equal(
        w,
        "plise",
    ) || str_equal(w, "badna") || str_equal(w, "danlu") || str_equal(w, "krinu") || str_equal(
        w,
        "gasnu",
    ) || str_equal(w, "nelci") {
        Some(2)
    } else if str_equal(w, "barda") || str_equal(w, "ponse") || str_equal(w, "datni") || str_equal(
        w,
        "curmi",
    ) || str_equal(w, "pilno") || str_equal(w, "bilga") || str_equal(w, "djica") || str_equal(
        w,
        "viska",
    ) || str_equal(w, "dunda") || str_equal(w, "tarmi") || str_equal(w, "mukti") || str_equal(
        w,
        "zarci",
    ) || str_equal(w, "cmene") {
        Some(3)
    } else if str_equal(w, "bajra") || str_equal(w, "rinka") {
        Some(4)
    } else if str_equal(w, "klama") || str_equal(w, "cukta") {
        Some(5)
    } else if str_equal(w, "prenu") || str_equal(w, "terdi") {
        Some(1)
    } else {
        None
    }
}

/// The place count of a word, defaulting to two places for an unknown word.
pub fn get_arity_or_default(w: &str) -> (n: usize)
    ensures
        n == spec_arity_or_default(w@),
        1 <= n <= 5,
{
    match get_arity(w) {
        Some(n) => n,
        None => 2,
    }
}

/// The predicate word a BAI modal stands for.
pub open spec fn spec_bai_gismu(b: Bai) -> Seq<char> {
    match b {
        Bai::Riha => "rinka"@,
        Bai::Kihu => "krinu"@,
        Bai::Piho => "pilno"@,
        Bai::Muhi => "mukti"@,
        Bai::Gau => "gasnu"@,
    }
}

/// The predicate word a BAI modal stands for.
pub fn bai_to_gismu(b: Bai) -> (s: &'static str)
    ensures
        s@ == spec_bai_gismu(b),
{
    match b {
        Bai::Riha => "rinka",
        Bai::Kihu => "krinu",
        Bai::Piho => "pilno",
        Bai::Muhi => "mukti",
        Bai::Gau => "gasnu",
    }
}

/// A short gloss of a predicate word known to the dictionary.
pub fn gismu_gloss(w: &str) -> (g: Option<&'static str>)
    ensures
        g is Some <==> spec_arity(w@) is Some,
{
    if get_arity(w).is_none() {
        return None;
    }
    let g = if str_equal(w, "gerku") {
        "x1 is a dog of breed x2"
    } else if str_equal(w, "mlatu") {
        "x1 is a cat of species x2"
    } else if str_equal(w, "citka") {
        "x1 eats x2"
    } else if str_equal(w, "sutra") {
        "x1 is fast at doing x2"
    } else if str_equal(w, "prami") {
        "x1 loves x2"
    } else if str_equal(w, "cidja") {
        "x1 is food for x2"
    } else if str_equal(w, "kunti") {
        "x1 is empty of x2"
    } else if str_equal(w, "plise") {
        "x1 is an apple of species x2"
    } else if str_equal(w, "badna") {
        "x1 is a banana of species x2"
    } else if str_equal(w, "danlu") {
        "x1 is an animal of species x2"
    } else if str_equal(w, "krinu") {
        "x1 is a reason for x2"
    } else if str_equal(w, "gasnu") {
        "x1 brings about x2"
    } else if str_equal(w, "nelci") {
        "x1 is fond of x2"
    } else if str_equal(w, "barda") {
        "x1 is big in property x2 by standard x3"
    } else if str_equal(w, "ponse") {
        "x1 owns x2 under law x3"
    } else if str_equal(w, "datni") {
        "x1 is data about x2 gathered by x3"
    } else if str_equal(w, "curmi") {
        "x1 allows x2 under conditions x3"
    } else if str_equal(w, "pilno") {
        "x1 uses x2 for purpose x3"
    } else if str_equal(w, "bilga") {
        "x1 is obliged to x2 by standard x3"
    } else if str_equal(w, "djica") {
        "x1 desires x2 for purpose x3"
    } else if str_equal(w, "viska") {
        "x1 sees x2 under conditions x3"
    } else if str_equal(w, "dunda") {
        "x1 gives x2 to x3"
    } else if str_equal(w, "tarmi") {
        "x1 is the shape of x2 in x3"
    } else if str_equal(w, "mukti") {
        "x1 is a motive for action x2 by x3"
    } else if str_equal(w, "zarci") {
        "x1 is a market selling x2 run by x3"
    } else if str_equal(w, "cmene") {
        "x1 is a name of x2 used by x3"
    } else if str_equal(w, "bajra") {
        "x1 runs on x2 using limbs x3 with gait x4"
    } else if str_equal(w, "rinka") {
        "x1 physically causes x2 under conditions x3 (x4)"
    } else if str_equal(w, "klama") {
        "x1 goes to x2 from x3 via x4 by means x5"
    } else if str_equal(w, "cukta") {
        "x1 is a book about x2 by x3 for x4 in medium x5"
    } else if str_equal(w, "prenu") {
        "x1 is a person"
    } else {
        "x1 is the Earth"
    };
    Some(g)
}

/// The gloss of a structure word: what it does in the fragment.
pub open spec fn spec_cmavo_gloss(c: Cmavo) -> Seq<char> {
    match c {
        Cmavo::Pu => "past tense"@,
        Cmavo::Ca => "present tense"@,
        Cmavo::Ba => "future tense"@,
        Cmavo::Ei => "obligation"@,
        Cmavo::Ehe => "permission"@,
        Cmavo::Ro => "every"@,
        Cmavo::Da | Cmavo::De | Cmavo::Di => "something (logic variable)"@,
        Cmavo::Zohu => "end of prenex"@,
        Cmavo::Ganai => "if (forethought)"@,
        Cmavo::Ge => "both (forethought)"@,
        Cmavo::Ga => "either (forethought)"@,
        Cmavo::Go => "if and only if (forethought)"@,
        Cmavo::Gi => "forethought separator"@,
        Cmavo::Gihe | Cmavo::Gihenai => "and (bridi-tail)"@,
        Cmavo::Giha | Cmavo::Gihanai => "or (bridi-tail)"@,
        Cmavo::Giho | Cmavo::Gihonai => "if and only if (bridi-tail)"@,
        Cmavo::Gihu | Cmavo::Gihunai => "whether or not (bridi-tail)"@,
        Cmavo::Nai => "negation of a connective"@,
        Cmavo::Cu => "selbri separator"@,
        Cmavo::Vau => "end of bridi"@,
        Cmavo::Na => "bridi negation"@,
        Cmavo::Se => "swap places x1 and x2"@,
        Cmavo::Te => "swap places x1 and x3"@,
        Cmavo::Ve => "swap places x1 and x4"@,
        Cmavo::Xe => "swap places x1 and x5"@,
        Cmavo::Lo => "the one(s) that really are"@,
        Cmavo::Le => "the one(s) described as"@,
        Cmavo::La => "the one(s) named"@,
        Cmavo::Ku => "end of description"@,
        Cmavo::Poi => "which (restrictive)"@,
        Cmavo::Noi => "which (incidental)"@,
        Cmavo::Kuho => "end of relative clause"@,
        Cmavo::Nu => "event of"@,
        Cmavo::Kei => "end of abstraction"@,
        Cmavo::Fa => "place tag x1"@,
        Cmavo::Fe => "place tag x2"@,
        Cmavo::Fi => "place tag x3"@,
        Cmavo::Fo => "place tag x4"@,
        Cmavo::Fu => "place tag x5"@,
        Cmavo::Fiho => "modal with a selbri"@,
        Cmavo::Fehu => "end of fi'o"@,
        Cmavo::Riha => "because (physically caused by)"@,
        Cmavo::Kihu => "because of reason"@,
        Cmavo::Piho => "using"@,
        Cmavo::Muhi => "motivated by"@,
        Cmavo::Gau => "with agent"@,
        Cmavo::I => "sentence separator"@,
        Cmavo::Je | Cmavo::E => "and"@,
        Cmavo::Ja | Cmavo::A => "or"@,
        Cmavo::Jo | Cmavo::O => "if and only if"@,
        Cmavo::Ju | Cmavo::U => "whether or not"@,
        Cmavo::Mi => "I, me"@,
        Cmavo::Do => "you"@,
        Cmavo::Koha | Cmavo::Kohe | Cmavo::Kohi => "it, he, she, they"@,
        Cmavo::Ti => "this here"@,
        Cmavo::Ta => "that there"@,
        Cmavo::Tu => "that yonder"@,
        Cmavo::Keha => "the relativized sumti"@,
        Cmavo::Li => "the number"@,
        Cmavo::Zo => "quote the next word"@,
        Cmavo::No => "0"@,
        Cmavo::Pa => "1"@,
        Cmavo::Re => "2"@,
        Cmavo::Ci => "3"@,
        Cmavo::Vo => "4"@,
        Cmavo::Mu => "5"@,
        Cmavo::Xa => "6"@,
        Cmavo::Ze => "7"@,
        Cmavo::Bi => "8"@,
        Cmavo::So => "9"@,
    }
}

/// What a structure word does in the fragment.
fn cmavo_gloss(c: Cmavo) -> (g: &'static str)
    ensures
        g@ == spec_cmavo_gloss(c),
{
    match c {
        Cmavo::Pu => "past tense",
        Cmavo::Ca => "present tense",
        Cmavo::Ba => "future tense",
        Cmavo::Ei => "obligation",
        Cmavo::Ehe => "permission",
        Cmavo::Ro => "every",
        Cmavo::Da | Cmavo::De | Cmavo::Di => "something (logic variable)",
        Cmavo::Zohu => "end of prenex",
        Cmavo::Ganai => "if (forethought)",
        Cmavo::Ge => "both (forethought)",
        Cmavo::Ga => "either (forethought)",
        Cmavo::Go => "if and only if (forethought)",
        Cmavo::Gi => "forethought separator",
        Cmavo::Gihe | Cmavo::Gihenai => "and (bridi-tail)",
        Cmavo::Giha | Cmavo::Gihanai => "or (bridi-tail)",
        Cmavo::Giho | Cmavo::Gihonai => "if and only if (bridi-tail)",
        Cmavo::Gihu | Cmavo::Gihunai => "whether or not (bridi-tail)",
        Cmavo::Nai => "negation of a connective",
        Cmavo::Cu => "selbri separator",
        Cmavo::Vau => "end of bridi",
        Cmavo::Na => "bridi negation",
        Cmavo::Se => "swap places x1 and x2",
        Cmavo::Te => "swap places x1 and x3",
        Cmavo::Ve => "swap places x1 and x4",
        Cmavo::Xe => "swap places x1 and x5",
        Cmavo::Lo => "the one(s) that really are",
        Cmavo::Le => "the one(s) described as",
        Cmavo::La => "the one(s) named",
        Cmavo::Ku => "end of description",
        Cmavo::Poi => "which (restrictive)",
        Cmavo::Noi => "which (incidental)",
        Cmavo::Kuho => "end of relative clause",
        Cmavo::Nu => "event of",
        Cmavo::Kei => "end of abstraction",
        Cmavo::Fa => "place tag x1",
        Cmavo::Fe => "place tag x2",
        Cmavo::Fi => "place tag x3",
        Cmavo::Fo => "place tag x4",
        Cmavo::Fu => "place tag x5",
        Cmavo::Fiho => "modal with a selbri",
        Cmavo::Fehu => "end of fi'o",
        Cmavo::Riha => "because (physically caused by)",
        Cmavo::Kihu => "because of reason",
        Cmavo::Piho => "using",
        Cmavo::Muhi => "motivated by",
        Cmavo::Gau => "with agent",
        Cmavo::I => "sentence separator",
        Cmavo::Je | Cmavo::E => "and",
        Cmavo::Ja | Cmavo::A => "or",
        Cmavo::Jo | Cmavo::O => "if and only if",
        Cmavo::Ju | Cmavo::U => "whether or not",
        Cmavo::Mi => "I, me",
        Cmavo::Do => "you",
        Cmavo::Koha | Cmavo::Kohe | Cmavo::Kohi => "it, he, she, they",
        Cmavo::Ti => "this here",
        Cmavo::Ta => "that there",
        Cmavo::Tu => "that yonder",
        Cmavo::Keha => "the relativized sumti",
        Cmavo::Li => "the number",
        Cmavo::Zo => "quote the next word",
        Cmavo::No => "0",
        Cmavo::Pa => "1",
        Cmavo::Re => "2",
        Cmavo::Ci => "3",
        Cmavo::Vo => "4",
        Cmavo::Mu => "5",
        Cmavo::Xa => "6",
        Cmavo::Ze => "7",
        Cmavo::Bi => "8",
        Cmavo::So => "9",
    }
}

/// The characters of a string.
pub fn chars_of(s: &str) -> (v: Vec<char>)
    ensures
        v@ == s@,
{
    let n = s.unicode_len();
    let mut v: Vec<char> = Vec::new();
    let mut i: usize = 0;
    while i < n
        invariant
            n == s@.len(),
            i <= n,
            v@ == s@.subrange(0, i as int),
        decreases n - i,
    {
        v.push(s.get_char(i));
        i = i + 1;
    }
    assert(v@ =~= s@);
    v
}

/// A gloss of any word the dictionary knows: a predicate word's place structure or a
/// structure word's role.
pub fn get_gloss(w: &str) -> (g: Option<&'static str>)
    ensures
        g is Some <==> (spec_arity(w@) is Some || spec_cmavo_of(w@) is Some),
        spec_arity(w@) is None && spec_cmavo_of(w@) is Some ==> (g matches Some(x) && x@ == spec_cmavo_gloss(
            spec_cmavo_of(w@)->0,
        )),
{
    match gismu_gloss(w) {
        Some(g) => Some(g),
        None => match cmavo_of(&chars_of(w)) {
            Some(c) => Some(cmavo_gloss(c)),
            None => None,
        },
    }
}

} // verus!
