//! Lexing: splitting a line of Lojban into words and classifying each word as a
//! cmavo (a structure word of the fragment), a brivla (a predicate word) or a
//! cmevla (a dot-delimited name).

use vstd::prelude::*;
use vstd::string::StrSliceExecFns;

verus! {

/// The cmavo (structure words) of the supported fragment.
#[derive(Clone, Copy, PartialEq, Eq, Debug, Structural)]
pub enum Cmavo {
    Pu,
    Ca,
    Ba,
    Ei,
    Ehe,
    Ro,
    Da,
    De,
    Di,
    Zohu,
    Ganai,
    Ge,
    Ga,
    Go,
    Gi,
    Gihe,
    Giha,
    Giho,
    Gihu,
    Gihenai,
    Gihanai,
    Gihonai,
    Gihunai,
    Nai,
    Cu,
    Vau,
    Na,
    Se,
    Te,
    Ve,
    Xe,
    Lo,
    Le,
    La,
    Ku,
    Poi,
    Noi,
    Kuho,
    Nu,
    Kei,
    Fa,
    Fe,
    Fi,
    Fo,
    Fu,
    Fiho,
    Fehu,
    Riha,
    Kihu,
    Piho,
    Muhi,
    Gau,
    I,
    Je,
    Ja,
    Jo,
    Ju,
    E,
    A,
    O,
    U,
    Mi,
    Do,
    Koha,
    Kohe,
    Kohi,
    Ti,
    Ta,
    Tu,
    Keha,
    Li,
    Zo,
    No,
    Pa,
    Re,
    Ci,
    Vo,
    Mu,
    Xa,
    Ze,
    Bi,
    So,
}

/// A classified word.
#[derive(Debug)]
pub enum Token {
    Cmavo(Cmavo),
    Brivla(String),
    Cmevla(String),
}

/// The mathematical value of a token: its class and its spelling.
pub enum TokenV {
    Cmavo(Cmavo),
    Brivla(Seq<char>),
    Cmevla(Seq<char>),
}

impl View for Token {
    type V = TokenV;

    open spec fn view(&self) -> TokenV {
        match self {
            Token::Cmavo(c) => TokenV::Cmavo(*c),
            Token::Brivla(s) => TokenV::Brivla(s@),
            Token::Cmevla(s) => TokenV::Cmevla(s@),
        }
    }
}

/// A word the lexer cannot classify: its position among the words of the line and
/// its spelling.
#[derive(Debug)]
pub struct LexError {
    pub index: usize,
    pub word: String,
}

/// The cmavo spelled `w`, if `w` is one.
pub open spec fn spec_cmavo_of(w: Seq<char>) -> Option<Cmavo> {
    if w == "pu"@ {
        Some(Cmavo::Pu)
    } else if w == "ca"@ {
        Some(Cmavo::Ca)
    } else if w == "ba"@ {
        Some(Cmavo::Ba)
    } else if w == "ei"@ {
        Some(Cmavo::Ei)
    } else if w == "e'e"@ {
        Some(Cmavo::Ehe)
    } else if w == "ro"@ {
        Some(Cmavo::Ro)
    } else if w == "da"@ {
        Some(Cmavo::Da)
    } else if w == "de"@ {
        Some(Cmavo::De)
    } else if w == "di"@ {
        Some(Cmavo::Di)
    } else if w == "zo'u"@ {
        Some(Cmavo::Zohu)
    } else if w == "ganai"@ {
        Some(Cmavo::Ganai)
    } else if w == "ge"@ {
        Some(Cmavo::Ge)
    } else if w == "ga"@ {
        Some(Cmavo::Ga)
    } else if w == "go"@ {
        Some(Cmavo::Go)
    } else if w == "gi"@ {
        Some(Cmavo::Gi)
    } else if w == "gi'e"@ {
        Some(Cmavo::Gihe)
    } else if w == "gi'a"@ {
        Some(Cmavo::Giha)
    } else if w == "gi'o"@ {
        Some(Cmavo::Giho)
    } else if w == "gi'u"@ {
        Some(Cmavo::Gihu)
    } else if w == "gi'enai"@ {
        Some(Cmavo::Gihenai)
    } else if w == "gi'anai"@ {
        Some(Cmavo::Gihanai)
    } else if w == "gi'onai"@ {
        Some(Cmavo::Gihonai)
    } else if w == "gi'unai"@ {
        Some(Cmavo::Gihunai)
    } else if w == "nai"@ {
        Some(Cmavo::Nai)
    } else if w == "cu"@ {
        Some(Cmavo::Cu)
    } else if w == "vau"@ {
        Some(Cmavo::Vau)
    } else if w == "na"@ {
        Some(Cmavo::Na)
    } else if w == "se"@ {
        Some(Cmavo::Se)
    } else if w == "te"@ {
        Some(Cmavo::Te)
    } else if w == "ve"@ {
        Some(Cmavo::Ve)
    } else if w == "xe"@ {
        Some(Cmavo::Xe)
    } else if w == "lo"@ {
        Some(Cmavo::Lo)
    } else if w == "le"@ {
        Some(Cmavo::Le)
    } else if w == "la"@ {
        Some(Cmavo::La)
    } else if w == "ku"@ {
        Some(Cmavo::Ku)
    } else if w == "poi"@ {
        Some(Cmavo::Poi)
    } else if w == "noi"@ {
        Some(Cmavo::Noi)
    } else if w == "ku'o"@ {
        Some(Cmavo::Kuho)
    } else if w == "nu"@ {
        Some(Cmavo::Nu)
    } else if w == "kei"@ {
        Some(Cmavo::Kei)
    } else if w == "fa"@ {
        Some(Cmavo::Fa)
    } else if w == "fe"@ {
        Some(Cmavo::Fe)
    } else if w == "fi"@ {
        Some(Cmavo::Fi)
    } else if w == "fo"@ {
        Some(Cmavo::Fo)
    } else if w == "fu"@ {
        Some(Cmavo::Fu)
    } else if w == "fi'o"@ {
        Some(Cmavo::Fiho)
    } else if w == "fe'u"@ {
        Some(Cmavo::Fehu)
    } else if w == "ri'a"@ {
        Some(Cmavo::Riha)
    } else if w == "ki'u"@ {
        Some(Cmavo::Kihu)
    } else if w == "pi'o"@ {
        Some(Cmavo::Piho)
    } else if w == "mu'i"@ {
        Some(Cmavo::Muhi)
    } else if w == "gau"@ {
        Some(Cmavo::Gau)
    } else if w == "i"@ {
        Some(Cmavo::I)
    } else if w == "je"@ {
        Some(Cmavo::Je)
    } else if w == "ja"@ {
        Some(Cmavo::Ja)
    } else if w == "jo"@ {
        Some(Cmavo::Jo)
    } else if w == "ju"@ {
        Some(Cmavo::Ju)
    } else if w == "e"@ {
        Some(Cmavo::E)
    } else if w == "a"@ {
        Some(Cmavo::A)
    } else if w == "o"@ {
        Some(Cmavo::O)
    } else if w == "u"@ {
        Some(Cmavo::U)
    } else if w == "mi"@ {
        Some(Cmavo::Mi)
    } else if w == "do"@ {
        Some(Cmavo::Do)
    } else if w == "ko'a"@ {
        Some(Cmavo::Koha)
    } else if w == "ko'e"@ {
        Some(Cmavo::Kohe)
    } else if w == "ko'i"@ {
        Some(Cmavo::Kohi)
    } else if w == "ti"@ {
        Some(Cmavo::Ti)
    } else if w == "ta"@ {
        Some(Cmavo::Ta)
    } else if w == "tu"@ {
        Some(Cmavo::Tu)
    } else if w == "ke'a"@ {
        Some(Cmavo::Keha)
    } else if w == "li"@ {
        Some(Cmavo::Li)
    } else if w == "zo"@ {
        Some(Cmavo::Zo)
    } else if w == "no"@ {
        Some(Cmavo::No)
    } else if w == "pa"@ {
        Some(Cmavo::Pa)
    } else if w == "re"@ {
        Some(Cmavo::Re)
    } else if w == "ci"@ {
        Some(Cmavo::Ci)
    } else if w == "vo"@ {
        Some(Cmavo::Vo)
    } else if w == "mu"@ {
        Some(Cmavo::Mu)
    } else if w == "xa"@ {
        Some(Cmavo::Xa)
    } else if w == "ze"@ {
        Some(Cmavo::Ze)
    } else if w == "bi"@ {
        Some(Cmavo::Bi)
    } else if w == "so"@ {
        Some(Cmavo::So)
    } else {
        None
    }
}

/// The spelling of a cmavo.
pub open spec fn spec_cmavo_text(c: Cmavo) -> Seq<char> {
    match c {
        Cmavo::Pu => "pu"@,
        Cmavo::Ca => "ca"@,
        Cmavo::Ba => "ba"@,
        Cmavo::Ei => "ei"@,
        Cmavo::Ehe => "e'e"@,
        Cmavo::Ro => "ro"@,
        Cmavo::Da => "da"@,
        Cmavo::De => "de"@,
        Cmavo::Di => "di"@,
        Cmavo::Zohu => "zo'u"@,
        Cmavo::Ganai => "ganai"@,
        Cmavo::Ge => "ge"@,
        Cmavo::Ga => "ga"@,
        Cmavo::Go => "go"@,
        Cmavo::Gi => "gi"@,
        Cmavo::Gihe => "gi'e"@,
        Cmavo::Giha => "gi'a"@,
        Cmavo::Giho => "gi'o"@,
        Cmavo::Gihu => "gi'u"@,
        Cmavo::Gihenai => "gi'enai"@,
        Cmavo::Gihanai => "gi'anai"@,
        Cmavo::Gihonai => "gi'onai"@,
        Cmavo::Gihunai => "gi'unai"@,
        Cmavo::Nai => "nai"@,
        Cmavo::Cu => "cu"@,
        Cmavo::Vau => "vau"@,
        Cmavo::Na => "na"@,
        Cmavo::Se => "se"@,
        Cmavo::Te => "te"@,
        Cmavo::Ve => "ve"@,
        Cmavo::Xe => "xe"@,
        Cmavo::Lo => "lo"@,
        Cmavo::Le => "le"@,
        Cmavo::La => "la"@,
        Cmavo::Ku => "ku"@,
        Cmavo::Poi => "poi"@,
        Cmavo::Noi => "noi"@,
        Cmavo::Kuho => "ku'o"@,
        Cmavo::Nu => "nu"@,
        Cmavo::Kei => "kei"@,
        Cmavo::Fa => "fa"@,
        Cmavo::Fe => "fe"@,
        Cmavo::Fi => "fi"@,
        Cmavo::Fo => "fo"@,
        Cmavo::Fu => "fu"@,
        Cmavo::Fiho => "fi'o"@,
        Cmavo::Fehu => "fe'u"@,
        Cmavo::Riha => "ri'a"@,
        Cmavo::Kihu => "ki'u"@,
        Cmavo::Piho => "pi'o"@,
        Cmavo::Muhi => "mu'i"@,
        Cmavo::Gau => "gau"@,
        Cmavo::I => "i"@,
        Cmavo::Je => "je"@,
        Cmavo::Ja => "ja"@,
        Cmavo::Jo => "jo"@,
        Cmavo::Ju => "ju"@,
        Cmavo::E => "e"@,
        Cmavo::A => "a"@,
        Cmavo::O => "o"@,
        Cmavo::U => "u"@,
        Cmavo::Mi => "mi"@,
        Cmavo::Do => "do"@,
        Cmavo::Koha => "ko'a"@,
        Cmavo::Kohe => "ko'e"@,
        Cmavo::Kohi => "ko'i"@,
        Cmavo::Ti => "ti"@,
        Cmavo::Ta => "ta"@,
        Cmavo::Tu => "tu"@,
        Cmavo::Keha => "ke'a"@,
        Cmavo::Li => "li"@,
        Cmavo::Zo => "zo"@,
        Cmavo::No => "no"@,
        Cmavo::Pa => "pa"@,
        Cmavo::Re => "re"@,
        Cmavo::Ci => "ci"@,
        Cmavo::Vo => "vo"@,
        Cmavo::Mu => "mu"@,
        Cmavo::Xa => "xa"@,
        Cmavo::Ze => "ze"@,
        Cmavo::Bi => "bi"@,
        Cmavo::So => "so"@,
    }
}

/// The spelling of a cmavo.
pub fn cmavo_text(c: Cmavo) -> (s: &'static str)
    ensures
        s@ == spec_cmavo_text(c),
{
    match c {
        Cmavo::Pu => "pu",
        Cmavo::Ca => "ca",
        Cmavo::Ba => "ba",
        Cmavo::Ei => "ei",
        Cmavo::Ehe => "e'e",
        Cmavo::Ro => "ro",
        Cmavo::Da => "da",
        Cmavo::De => "de",
        Cmavo::Di => "di",
        Cmavo::Zohu => "zo'u",
        Cmavo::Ganai => "ganai",
        Cmavo::Ge => "ge",
        Cmavo::Ga => "ga",
        Cmavo::Go => "go",
        Cmavo::Gi => "gi",
        Cmavo::Gihe => "gi'e",
        Cmavo::Giha => "gi'a",
        Cmavo::Giho => "gi'o",
        Cmavo::Gihu => "gi'u",
        Cmavo::Gihenai => "gi'enai",
        Cmavo::Gihanai => "gi'anai",
        Cmavo::Gihonai => "gi'onai",
        Cmavo::Gihunai => "gi'unai",
        Cmavo::Nai => "nai",
        Cmavo::Cu => "cu",
        Cmavo::Vau => "vau",
        Cmavo::Na => "na",
        Cmavo::Se => "se",
        Cmavo::Te => "te",
        Cmavo::Ve => "ve",
        Cmavo::Xe => "xe",
        Cmavo::Lo => "lo",
        Cmavo::Le => "le",
        Cmavo::La => "la",
        Cmavo::Ku => "ku",
        Cmavo::Poi => "poi",
        Cmavo::Noi => "noi",
        Cmavo::Kuho => "ku'o",
        Cmavo::Nu => "nu",
        Cmavo::Kei => "kei",
        Cmavo::Fa => "fa",
        Cmavo::Fe => "fe",
        Cmavo::Fi => "fi",
        Cmavo::Fo => "fo",
        Cmavo::Fu => "fu",
        Cmavo::Fiho => "fi'o",
        Cmavo::Fehu => "fe'u",
        Cmavo::Riha => "ri'a",
        Cmavo::Kihu => "ki'u",
        Cmavo::Piho => "pi'o",
        Cmavo::Muhi => "mu'i",
        Cmavo::Gau => "gau",
        Cmavo::I => "i",
        Cmavo::Je => "je",
        Cmavo::Ja => "ja",
        Cmavo::Jo => "jo",
        Cmavo::Ju => "ju",
        Cmavo::E => "e",
        Cmavo::A => "a",
        Cmavo::O => "o",
        Cmavo::U => "u",
        Cmavo::Mi => "mi",
        Cmavo::Do => "do",
        Cmavo::Koha => "ko'a",
        Cmavo::Kohe => "ko'e",
        Cmavo::Kohi => "ko'i",
        Cmavo::Ti => "ti",
        Cmavo::Ta => "ta",
        Cmavo::Tu => "tu",
        Cmavo::Keha => "ke'a",
        Cmavo::Li => "li",
        Cmavo::Zo => "zo",
        Cmavo::No => "no",
        Cmavo::Pa => "pa",
        Cmavo::Re => "re",
        Cmavo::Ci => "ci",
        Cmavo::Vo => "vo",
        Cmavo::Mu => "mu",
        Cmavo::Xa => "xa",
        Cmavo::Ze => "ze",
        Cmavo::Bi => "bi",
        Cmavo::So => "so",
    }
}

/// True when `w` has exactly the characters of `lit`.
fn chars_equal(w: &Vec<char>, lit: &str) -> (r: bool)
    ensures
        r == (w@ == lit@),
{
    let n = lit.unicode_len();
    if w.len() != n {
        return false;
    }
    let mut i: usize = 0;
    while i < n
        invariant
            n == lit@.len(),
            w@.len() == n,
            i <= n,
            forall|j: int| 0 <= j < i ==> w@[j] == lit@[j],
        decreases n - i,
    {
        if w[i] != lit.get_char(i) {
            return false;
        }
        i = i + 1;
    }
    assert(w@ =~= lit@);
    true
}

/// The cmavo spelled `w`, if `w` is one.
pub fn cmavo_of(w: &Vec<char>) -> (r: Option<Cmavo>)
    ensures
        r == spec_cmavo_of(w@),
{
    if chars_equal(w, "pu") {
        return Some(Cmavo::Pu);
    }
    if chars_equal(w, "ca") {
        return Some(Cmavo::Ca);
    }
    if chars_equal(w, "ba") {
        return Some(Cmavo::Ba);
    }
    if chars_equal(w, "ei") {
        return Some(Cmavo::Ei);
    }
    if chars_equal(w, "e'e") {
        return Some(Cmavo::Ehe);
    }
    if chars_equal(w, "ro") {
        return Some(Cmavo::Ro);
    }
    if chars_equal(w, "da") {
        return Some(Cmavo::Da);
    }
    if chars_equal(w, "de") {
        return Some(Cmavo::De);
    }
    if chars_equal(w, "di") {
        return Some(Cmavo::Di);
    }
    if chars_equal(w, "zo'u") {
        return Some(Cmavo::Zohu);
    }
    if chars_equal(w, "ganai") {
        return Some(Cmavo::Ganai);
    }
    if chars_equal(w, "ge") {
        return Some(Cmavo::Ge);
    }
    if chars_equal(w, "ga") {
        return Some(Cmavo::Ga);
    }
    if chars_equal(w, "go") {
        return Some(Cmavo::Go);
    }
    if chars_equal(w, "gi") {
        return Some(Cmavo::Gi);
    }
    if chars_equal(w, "gi'e") {
        return Some(Cmavo::Gihe);
    }
    if chars_equal(w, "gi'a") {
        return Some(Cmavo::Giha);
    }
    if chars_equal(w, "gi'o") {
        return Some(Cmavo::Giho);
    }
    if chars_equal(w, "gi'u") {
        return Some(Cmavo::Gihu);
    }
    if chars_equal(w, "gi'enai") {
        return Some(Cmavo::Gihenai);
    }
    if chars_equal(w, "gi'anai") {
        return Some(Cmavo::Gihanai);
    }
    if chars_equal(w, "gi'onai") {
        return Some(Cmavo::Gihonai);
    }
    if chars_equal(w, "gi'unai") {
        return Some(Cmavo::Gihunai);
    }
    if chars_equal(w, "nai") {
        return Some(Cmavo::Nai);
    }
    if chars_equal(w, "cu") {
        return Some(Cmavo::Cu);
    }
    if chars_equal(w, "vau") {
        return Some(Cmavo::Vau);
    }
    if chars_equal(w, "na") {
        return Some(Cmavo::Na);
    }
    if chars_equal(w, "se") {
        return Some(Cmavo::Se);
    }
    if chars_equal(w, "te") {
        return Some(Cmavo::Te);
    }
    if chars_equal(w, "ve") {
        return Some(Cmavo::Ve);
    }
    if chars_equal(w, "xe") {
        return Some(Cmavo::Xe);
    }
    if chars_equal(w, "lo") {
        return Some(Cmavo::Lo);
    }
    if chars_equal(w, "le") {
        return Some(Cmavo::Le);
    }
    if chars_equal(w, "la") {
        return Some(Cmavo::La);
    }
    if chars_equal(w, "ku") {
        return Some(Cmavo::Ku);
    }
    if chars_equal(w, "poi") {
        return Some(Cmavo::Poi);
    }
    if chars_equal(w, "noi") {
        return Some(Cmavo::Noi);
    }
    if chars_equal(w, "ku'o") {
        return Some(Cmavo::Kuho);
    }
    if chars_equal(w, "nu") {
        return Some(Cmavo::Nu);
    }
    if chars_equal(w, "kei") {
        return Some(Cmavo::Kei);
    }
    if chars_equal(w, "fa") {
        return Some(Cmavo::Fa);
    }
    if chars_equal(w, "fe") {
        return Some(Cmavo::Fe);
    }
    if chars_equal(w, "fi") {
        return Some(Cmavo::Fi);
    }
    if chars_equal(w, "fo") {
        return Some(Cmavo::Fo);
    }
    if chars_equal(w, "fu") {
        return Some(Cmavo::Fu);
    }
    if chars_equal(w, "fi'o") {
        return Some(Cmavo::Fiho);
    }
    if chars_equal(w, "fe'u") {
        return Some(Cmavo::Fehu);
    }
    if chars_equal(w, "ri'a") {
        return Some(Cmavo::Riha);
    }
    if chars_equal(w, "ki'u") {
        return Some(Cmavo::Kihu);
    }
    if chars_equal(w, "pi'o") {
        return Some(Cmavo::Piho);
    }
    if chars_equal(w, "mu'i") {
        return Some(Cmavo::Muhi);
    }
    if chars_equal(w, "gau") {
        return Some(Cmavo::Gau);
    }
    if chars_equal(w, "i") {
        return Some(Cmavo::I);
    }
    if chars_equal(w, "je") {
        return Some(Cmavo::Je);
    }
    if chars_equal(w, "ja") {
        return Some(Cmavo::Ja);
    }
    if chars_equal(w, "jo") {
        return Some(Cmavo::Jo);
    }
    if chars_equal(w, "ju") {
        return Some(Cmavo::Ju);
    }
    if chars_equal(w, "e") {
        return Some(Cmavo::E);
    }
    if chars_equal(w, "a") {
        return Some(Cmavo::A);
    }
    if chars_equal(w, "o") {
        return Some(Cmavo::O);
    }
    if chars_equal(w, "u") {
        return Some(Cmavo::U);
    }
    if chars_equal(w, "mi") {
        return Some(Cmavo::Mi);
    }
    if chars_equal(w, "do") {
        return Some(Cmavo::Do);
    }
    if chars_equal(w, "ko'a") {
        return Some(Cmavo::Koha);
    }
    if chars_equal(w, "ko'e") {
        return Some(Cmavo::Kohe);
    }
    if chars_equal(w, "ko'i") {
        return Some(Cmavo::Kohi);
    }
    if chars_equal(w, "ti") {
        return Some(Cmavo::Ti);
    }
    if chars_equal(w, "ta") {
        return Some(Cmavo::Ta);
    }
    if chars_equal(w, "tu") {
        return Some(Cmavo::Tu);
    }
    if chars_equal(w, "ke'a") {
        return Some(Cmavo::Keha);
    }
    if chars_equal(w, "li") {
        return Some(Cmavo::Li);
    }
    if chars_equal(w, "zo") {
        return Some(Cmavo::Zo);
    }
    if chars_equal(w, "no") {
        return Some(Cmavo::No);
    }
    if chars_equal(w, "pa") {
        return Some(Cmavo::Pa);
    }
    if chars_equal(w, "re") {
        return Some(Cmavo::Re);
    }
    if chars_equal(w, "ci") {
        return Some(Cmavo::Ci);
    }
    if chars_equal(w, "vo") {
        return Some(Cmavo::Vo);
    }
    if chars_equal(w, "mu") {
        return Some(Cmavo::Mu);
    }
    if chars_equal(w, "xa") {
        return Some(Cmavo::Xa);
    }
    if chars_equal(w, "ze") {
        return Some(Cmavo::Ze);
    }
    if chars_equal(w, "bi") {
        return Some(Cmavo::Bi);
    }
    if chars_equal(w, "so") {
        return Some(Cmavo::So);
    }
    None
}

/// A whitespace character: one with Unicode's White_Space property, the characters
/// that `char::is_whitespace` accepts. Whitespace separates words and is trimmed from
/// the ends of lines.
pub open spec fn is_space(c: char) -> bool {
    ||| '\t' <= c && c <= '\r'
    ||| c == ' ' || c == '\u{85}' || c == '\u{a0}' || c == '\u{1680}'
    ||| '\u{2000}' <= c && c <= '\u{200a}'
    ||| c == '\u{2028}' || c == '\u{2029}' || c == '\u{202f}' || c == '\u{205f}' || c == '\u{3000}'
}

/// A lower-case Latin letter.
pub open spec fn is_letter(c: char) -> bool {
    'a' <= c && c <= 'z'
}

/// A Lojban vowel.
pub open spec fn is_vowel(c: char) -> bool {
    c == 'a' || c == 'e' || c == 'i' || c == 'o' || c == 'u'
}

/// The body of a name: letters only, ending in a consonant.
pub open spec fn is_name_body(s: Seq<char>) -> bool {
    &&& s.len() > 0
    &&& forall|i: int| 0 <= i < s.len() ==> is_letter(#[trigger] s[i])
    &&& !is_vowel(s.last())
}

/// The shape of a predicate word: at least five letters or apostrophes, ending in a vowel.
pub open spec fn is_brivla_body(s: Seq<char>) -> bool {
    &&& s.len() >= 5
    &&& forall|i: int| 0 <= i < s.len() ==> (is_letter(#[trigger] s[i]) || s[i] == '\'')
    &&& is_vowel(s.last())
}

/// How one word is classified: a dot-delimited name, a cmavo (a leading pause dot is
/// dropped, as in `.i` or `.e`), or a predicate word; anything else is unlexable.
pub open spec fn spec_classify(w: Seq<char>) -> Option<TokenV> {
    if w.len() > 2 && w[0] == '.' && w.last() == '.' {
        let inner = w.subrange(1, w.len() - 1);
        if is_name_body(inner) {
            Some(TokenV::Cmevla(inner))
        } else {
            None
        }
    } else {
        let body = if w.len() > 1 && w[0] == '.' {
            w.drop_first()
        } else {
            w
        };
        match spec_cmavo_of(body) {
            Some(c) => Some(TokenV::Cmavo(c)),
            None => if is_brivla_body(body) {
                Some(TokenV::Brivla(body))
            } else {
                None
            },
        }
    }
}

/// The words of `s` seen so far and the word being read, after reading `s` left to right.
pub open spec fn split_state(s: Seq<char>) -> (Seq<Seq<char>>, Seq<char>)
    decreases s.len(),
{
    if s.len() == 0 {
        (Seq::empty(), Seq::empty())
    } else {
        let (done, cur) = split_state(s.drop_last());
        let c = s.last();
        if is_space(c) {
            if cur.len() > 0 {
                (done.push(cur), Seq::empty())
            } else {
                (done, cur)
            }
        } else {
            (done, cur.push(c))
        }
    }
}

/// The maximal runs of non-space characters of `s`, in order.
pub open spec fn spec_words(s: Seq<char>) -> Seq<Seq<char>> {
    let (done, cur) = split_state(s);
    if cur.len() > 0 {
        done.push(cur)
    } else {
        done
    }
}

/// Whether `c` is whitespace.
pub(crate) fn is_space_char(c: char) -> (r: bool)
    ensures
        r == is_space(c),
{
    ('\t' <= c && c <= '\r') || c == ' ' || c == '\u{85}' || c == '\u{a0}' || c == '\u{1680}' || ('\u{2000}'
        <= c && c <= '\u{200a}') || c == '\u{2028}' || c == '\u{2029}' || c == '\u{202f}' || c == '\u{205f}'
        || c == '\u{3000}'
}

fn is_vowel_char(c: char) -> (r: bool)
    ensures
        r == is_vowel(c),
{
    c == 'a' || c == 'e' || c == 'i' || c == 'o' || c == 'u'
}

/// `v[from..to]` as a new vector.
fn slice_chars(v: &Vec<char>, from: usize, to: usize) -> (r: Vec<char>)
    requires
        from <= to <= v@.len(),
    ensures
        r@ == v@.subrange(from as int, to as int),
{
    let mut r: Vec<char> = Vec::new();
    let mut i = from;
    while i < to
        invariant
            from <= i <= to <= v@.len(),
            r@ == v@.subrange(from as int, i as int),
        decreases to - i,
    {
        r.push(v[i]);
        i = i + 1;
    }
    r
}

fn is_name_chars(s: &Vec<char>) -> (r: bool)
    ensures
        r == is_name_body(s@),
{
    if s.len() == 0 {
        return false;
    }
    let mut i: usize = 0;
    while i < s.len()
        invariant
            i <= s@.len(),
            forall|j: int| 0 <= j < i ==> is_letter(#[trigger] s@[j]),
        decreases s@.len() - i,
    {
        if !('a' <= s[i] && s[i] <= 'z') {
            return false;
        }
        i = i + 1;
    }
    !is_vowel_char(s[s.len() - 1])
}

fn is_brivla_chars(s: &Vec<char>) -> (r: bool)
    ensures
        r == is_brivla_body(s@),
{
    if s.len() < 5 {
        return false;
    }
    let mut i: usize = 0;
    while i < s.len()
        invariant
            i <= s@.len(),
            forall|j: int| 0 <= j < i ==> (is_letter(#[trigger] s@[j]) || s@[j] == '\''),
        decreases s@.len() - i,
    {
        if !(('a' <= s[i] && s[i] <= 'z') || s[i] == '\'') {
            return false;
        }
        i = i + 1;
    }
    is_vowel_char(s[s.len() - 1])
}

/// A string holding the characters of `v`.
pub(crate) fn string_of(v: &Vec<char>) -> (s: String)
    ensures
        s@ == v@,
{
    let mut s = String::new();
    let mut i: usize = 0;
    while i < v.len()
        invariant
            i <= v@.len(),
            s@ == v@.subrange(0, i as int),
        decreases v@.len() - i,
    {
        push_char(&mut s, v[i]);
        i = i + 1;
    }
    s
}

/// Append one character to a string.
#[verifier::external_body]
fn push_char(s: &mut String, c: char)
    ensures
        final(s)@ == old(s)@.push(c),
{
    s.push(c);
}

/// Classify one word.
pub fn classify(w: &Vec<char>) -> (r: Option<Token>)
    ensures
        match r {
            Some(t) => spec_classify(w@) == Some(t@),
            None => spec_classify(w@) is None,
        },
{
    let n = w.len();
    if n > 2 && w[0] == '.' && w[n - 1] == '.' {
        let inner = slice_chars(w, 1, n - 1);
        if is_name_chars(&inner) {
            return Some(Token::Cmevla(string_of(&inner)));
        }
        return None;
    }
    let body = if n > 1 && w[0] == '.' {
        slice_chars(w, 1, n)
    } else {
        slice_chars(w, 0, n)
    };
    proof {
        if n > 1 && w@[0] == '.' {
            assert(body@ =~= w@.drop_first());
        } else {
            assert(body@ =~= w@);
        }
    }
    match cmavo_of(&body) {
        Some(c) => Some(Token::Cmavo(c)),
        None => {
            if is_brivla_chars(&body) {
                Some(Token::Brivla(string_of(&body)))
            } else {
                None
            }
        },
    }
}

/// Split a line into its words (maximal runs of non-space characters).
pub fn split_words(text: &str) -> (words: Vec<Vec<char>>)
    ensures
        words@.len() == spec_words(text@).len(),
        forall|i: int| 0 <= i < words@.len() ==> (#[trigger] words@[i])@ == spec_words(text@)[i],
{
    let n = text.unicode_len();
    let mut done: Vec<Vec<char>> = Vec::new();
    let mut cur: Vec<char> = Vec::new();
    let mut i: usize = 0;
    while i < n
        invariant
            n == text@.len(),
            i <= n,
            done@.len() == split_state(text@.take(i as int)).0.len(),
            forall|k: int|
                0 <= k < done@.len() ==> (#[trigger] done@[k])@ == split_state(
                    text@.take(i as int),
                ).0[k],
            cur@ == split_state(text@.take(i as int)).1,
        decreases n - i,
    {
        let c = text.get_char(i);
        assert(text@.take(i + 1).drop_last() =~= text@.take(i as int));
        if is_space_char(c) {
            if cur.len() > 0 {
                let word = cur;
                done.push(word);
                cur = Vec::new();
            }
        } else {
            cur.push(c);
        }
        i = i + 1;
    }
    assert(text@.take(n as int) =~= text@);
    if cur.len() > 0 {
        done.push(cur);
    }
    done
}

/// Lex a line: every word must classify. On failure, the first unlexable word is reported.
pub fn lex(text: &str) -> (r: Result<Vec<Token>, LexError>)
    ensures
        match r {
            Ok(ts) => {
                &&& ts@.len() == spec_words(text@).len()
                &&& forall|i: int|
                    0 <= i < ts@.len() ==> spec_classify(spec_words(text@)[i]) == Some(
                        (#[trigger] ts@[i])@,
                    )
            },
            Err(e) => {
                &&& e.index < spec_words(text@).len()
                &&& spec_classify(spec_words(text@)[e.index as int]) is None
                &&& e.word@ == spec_words(text@)[e.index as int]
                &&& forall|j: int|
                    0 <= j < e.index ==> (#[trigger] spec_classify(spec_words(text@)[j])) is Some
            },
        },
{
    let words = split_words(text);
    let mut tokens: Vec<Token> = Vec::new();
    let mut i: usize = 0;
    while i < words.len()
        invariant
            i <= words@.len(),
            words@.len() == spec_words(text@).len(),
            forall|k: int| 0 <= k < words@.len() ==> (#[trigger] words@[k])@ == spec_words(text@)[k],
            tokens@.len() == i,
            forall|k: int|
                0 <= k < i ==> spec_classify(spec_words(text@)[k]) == Some((#[trigger] tokens@[k])@),
        decreases words@.len() - i,
    {
        match classify(&words[i]) {
            Some(t) => tokens.push(t),
            None => {
                assert forall|j: int| 0 <= j < i implies (#[trigger] spec_classify(
                    spec_words(text@)[j],
                )) is Some by {
                    assert(spec_classify(spec_words(text@)[j]) == Some(tokens@[j]@));
                }
                return Err(LexError { index: i, word: string_of(&words[i]) });
            },
        }
        i = i + 1;
    }
    Ok(tokens)
}

} // verus!
