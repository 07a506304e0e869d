//! Text handling around the gates: the lines of a knowledge base, their joining for a
//! whole-text semantic parse, JSON string escaping and display truncation.

use vstd::prelude::*;
use crate::lexer::{is_space, is_space_char, string_of};
use crate::dictionary::chars_of;

verus! {

/// `s` without its leading whitespace.
pub open spec fn trim_start(s: Seq<char>) -> Seq<char>
    decreases s.len(),
{
    if s.len() > 0 && is_space(s[0]) {
        trim_start(s.drop_first())
    } else {
        s
    }
}

/// `s` without its trailing whitespace.
pub open spec fn trim_end(s: Seq<char>) -> Seq<char>
    decreases s.len(),
{
    if s.len() > 0 && is_space(s.last()) {
        trim_end(s.drop_last())
    } else {
        s
    }
}

/// `s` without leading and trailing whitespace, as `str::trim` gives it.
pub open spec fn spec_trim(s: Seq<char>) -> Seq<char> {
    trim_end(trim_start(s))
}

/// A line of a knowledge base that holds a sentence: not empty, not a `#` comment.
pub open spec fn is_content_line(t: Seq<char>) -> bool {
    t.len() > 0 && t[0] != '#'
}

/// The content lines found so far and the line being read, after reading `s`.
pub open spec fn line_state(s: Seq<char>) -> (Seq<Seq<char>>, Seq<char>)
    decreases s.len(),
{
    if s.len() == 0 {
        (Seq::empty(), Seq::empty())
    } else {
        let (done, cur) = line_state(s.drop_last());
        if s.last() == '\n' {
            if is_content_line(spec_trim(cur)) {
                (done.push(spec_trim(cur)), Seq::empty())
            } else {
                (done, Seq::empty())
            }
        } else {
            (done, cur.push(s.last()))
        }
    }
}

/// The content lines of a knowledge base, each trimmed, in order.
pub open spec fn spec_kb_lines(s: Seq<char>) -> Seq<Seq<char>> {
    let (done, cur) = line_state(s);
    if is_content_line(spec_trim(cur)) {
        done.push(spec_trim(cur))
    } else {
        done
    }
}

/// The characters of `v` from `from` to `to`.
fn sub_chars(v: &Vec<char>, from: usize, to: usize) -> (r: Vec<char>)
    requires
        from <= to <= v@.len(),
    ensures
        r@ == v@.subrange(from as int, to as int),
{
    let mut r: Vec<char> = Vec::new();
    let mut i = from;
    while i < to
        invariant
            from <= i <= to,
            to <= v@.len(),
            r@ == v@.subrange(from as int, i as int),
        decreases to - i,
    {
        r.push(v[i]);
        assert(r@ =~= v@.subrange(from as int, i + 1));
        i = i + 1;
    }
    r
}

/// Dropping leading whitespace from a suffix.
proof fn lemma_trim_start_step(s: Seq<char>, i: int)
    requires
        0 <= i < s.len(),
        is_space(s[i]),
    ensures
        trim_start(s.subrange(i, s.len() as int)) == trim_start(s.subrange(i + 1, s.len() as int)),
{
    assert(s.subrange(i, s.len() as int).drop_first() =~= s.subrange(i + 1, s.len() as int));
}

/// Trimming a suffix that starts with a non-whitespace character leaves it alone; a sequence
/// whose end trim is taken after its start trim.
proof fn lemma_trim_end_of_range(s: Seq<char>, i: int, j: int)
    requires
        0 <= i <= j <= s.len(),
        forall|k: int| j <= k < s.len() ==> is_space(#[trigger] s[k]),
    ensures
        trim_end(s.subrange(i, s.len() as int)) == trim_end(s.subrange(i, j)),
    decreases s.len() - j,
{
    if j < s.len() {
        lemma_trim_end_of_range(s, i, j + 1);
        let t = s.subrange(i, j + 1);
        assert(t.drop_last() =~= s.subrange(i, j));
        assert(t.last() == s[j]);
    }
}

/// `v` without leading and trailing whitespace.
pub fn trim_chars(v: &Vec<char>) -> (r: Vec<char>)
    ensures
        r@ == spec_trim(v@),
{
    let n = v.len();
    let mut i: usize = 0;
    assert(v@.subrange(0, n as int) =~= v@);
    while i < n && is_space_char(v[i])
        invariant
            i <= n,
            n == v@.len(),
            trim_start(v@) == trim_start(v@.subrange(i as int, n as int)),
        decreases n - i,
    {
        proof {
            lemma_trim_start_step(v@, i as int);
        }
        i = i + 1;
    }
    // Now v[i..] starts with a non-whitespace character (or is empty): its start trim is itself.
    assert(trim_start(v@.subrange(i as int, n as int)) == v@.subrange(i as int, n as int));
    let mut j: usize = n;
    while j > i && is_space_char(v[j - 1])
        invariant
            i <= j <= n,
            n == v@.len(),
            forall|k: int| j <= k < n ==> is_space(#[trigger] v@[k]),
        decreases j,
    {
        j = j - 1;
    }
    proof {
        lemma_trim_end_of_range(v@, i as int, j as int);
        let t = v@.subrange(i as int, j as int);
        if t.len() > 0 {
            assert(t.last() == v@[j - 1]);
        }
        assert(trim_end(t) == t);
    }
    sub_chars(v, i, j)
}

/// The content lines of a knowledge base: each line trimmed, empty lines and `#`
/// comment lines dropped, in order.
pub fn kb_lines(text: &str) -> (lines: Vec<String>)
    ensures
        lines@.len() == spec_kb_lines(text@).len(),
        forall|i: int| 0 <= i < lines@.len() ==> (#[trigger] lines@[i])@ == spec_kb_lines(text@)[i],
{
    let chars = chars_of(text);
    let n = chars.len();
    let mut done: Vec<String> = Vec::new();
    let mut cur: Vec<char> = Vec::new();
    let mut i: usize = 0;
    while i < n
        invariant
            i <= n,
            n == chars@.len(),
            chars@ == text@,
            line_state(chars@.subrange(0, i as int)).1 == cur@,
            done@.len() == line_state(chars@.subrange(0, i as int)).0.len(),
            forall|k: int|
                0 <= k < done@.len() ==> (#[trigger] done@[k])@ == line_state(
                    chars@.subrange(0, i as int),
                ).0[k],
        decreases n - i,
    {
        let c = chars[i];
        proof {
            assert(chars@.subrange(0, i + 1).drop_last() =~= chars@.subrange(0, i as int));
            assert(chars@.subrange(0, i + 1).last() == c);
        }
        if c == '\n' {
            let t = trim_chars(&cur);
            if t.len() > 0 && t[0] != '#' {
                done.push(string_of(&t));
            }
            cur = Vec::new();
        } else {
            cur.push(c);
        }
        i = i + 1;
    }
    assert(chars@.subrange(0, n as int) =~= chars@);
    let t = trim_chars(&cur);
    if t.len() > 0 && t[0] != '#' {
        done.push(string_of(&t));
    }
    done
}

/// The content lines joined into one text with the sentence separator ` .i `.
pub open spec fn spec_join_lines(lines: Seq<Seq<char>>) -> Seq<char>
    decreases lines.len(),
{
    if lines.len() == 0 {
        Seq::empty()
    } else if lines.len() == 1 {
        lines[0]
    } else {
        spec_join_lines(lines.drop_last()) + " .i "@ + lines.last()
    }
}

/// Collapse a knowledge base into one text for a whole-text semantic parse: its
/// content lines (see [`kb_lines`]) joined with the neutral sentence separator ` .i `.
pub fn kb_to_tersmu_text(text: &str) -> (r: String)
    ensures
        r@ == spec_join_lines(spec_kb_lines(text@)),
{
    let lines = kb_lines(text);
    let ghost ls = spec_kb_lines(text@);
    let mut out = String::new();
    let mut i: usize = 0;
    while i < lines.len()
        invariant
            i <= lines@.len(),
            lines@.len() == ls.len(),
            forall|k: int| 0 <= k < lines@.len() ==> (#[trigger] lines@[k])@ == ls[k],
            out@ == spec_join_lines(ls.subrange(0, i as int)),
        decreases lines@.len() - i,
    {
        proof {
            let pre = ls.subrange(0, i + 1);
            assert(pre.drop_last() =~= ls.subrange(0, i as int));
            assert(pre.last() == ls[i as int]);
            if i == 0 {
                assert(pre.len() == 1);
            }
        }
        if i > 0 {
            out.append(" .i ");
        }
        out.append(lines[i].as_str());
        i = i + 1;
    }
    assert(ls.subrange(0, ls.len() as int) =~= ls);
    out
}

/// The lower-case hexadecimal digit of `d` (below 16).
pub open spec fn hex_digit(d: int) -> char {
    if d < 10 {
        (d + 48) as char
    } else {
        (d + 87) as char
    }
}

/// The JSON escape of one character: `"`, `\`, newline, carriage return and tab get a
/// backslash form, every other control character (below U+0020) a `\u00XX` form, and
/// every other character stands for itself.
pub open spec fn escape_char(c: char) -> Seq<char> {
    if c == '"' {
        seq!['\\', '"']
    } else if c == '\\' {
        seq!['\\', '\\']
    } else if c == '\n' {
        seq!['\\', 'n']
    } else if c == '\r' {
        seq!['\\', 'r']
    } else if c == '\t' {
        seq!['\\', 't']
    } else if (c as int) < 0x20 {
        seq!['\\', 'u', '0', '0', hex_digit(c as int / 16), hex_digit(c as int % 16)]
    } else {
        seq![c]
    }
}

/// The hexadecimal digit of `d`.
fn hex_digit_char(d: u32) -> (r: char)
    requires
        d < 16,
    ensures
        r == hex_digit(d as int),
{
    if d < 10 {
        ((d + 48) as u8) as char
    } else {
        ((d + 87) as u8) as char
    }
}

/// The JSON escape of a string: each character escaped in turn.
pub open spec fn spec_escape_json(s: Seq<char>) -> Seq<char>
    decreases s.len(),
{
    if s.len() == 0 {
        Seq::empty()
    } else {
        spec_escape_json(s.drop_last()) + escape_char(s.last())
    }
}

/// Escape a string for embedding in a JSON string literal.
pub fn escape_json(s: &str) -> (out: String)
    ensures
        out@ == spec_escape_json(s@),
{
    let n = s.unicode_len();
    let mut out = String::new();
    let mut i: usize = 0;
    while i < n
        invariant
            i <= n,
            n == s@.len(),
            out@ == spec_escape_json(s@.subrange(0, i as int)),
        decreases n - i,
    {
        let c = s.get_char(i);
        proof {
            assert(s@.subrange(0, i + 1).drop_last() =~= s@.subrange(0, i as int));
        }
        if c == '"' {
            out.append("\\\"");
        } else if c == '\\' {
            out.append("\\\\");
        } else if c == '\n' {
            out.append("\\n");
        } else if c == '\r' {
            out.append("\\r");
        } else if c == '\t' {
            out.append("\\t");
        } else if (c as u32) < 0x20 {
            let code = c as u32;
            let mut esc: Vec<char> = Vec::new();
            esc.push('\\');
            esc.push('u');
            esc.push('0');
            esc.push('0');
            esc.push(hex_digit_char(code / 16));
            esc.push(hex_digit_char(code % 16));
            assert(esc@ =~= escape_char(c));
            out.append(string_of(&esc).as_str());
        } else {
            let mut one: Vec<char> = Vec::new();
            one.push(c);
            out.append(string_of(&one).as_str());
        }
        proof {
            reveal_strlit("\\\"");
            reveal_strlit("\\\\");
            reveal_strlit("\\n");
            reveal_strlit("\\r");
            reveal_strlit("\\t");
            assert(out@ =~= spec_escape_json(s@.subrange(0, i + 1)));
        }
        i = i + 1;
    }
    assert(s@.subrange(0, n as int) =~= s@);
    out
}

/// The value of `c` as a hexadecimal digit, if it is one.
pub open spec fn hex_value(c: char) -> Option<int> {
    if '0' <= c && c <= '9' {
        Some(c as int - 48)
    } else if 'a' <= c && c <= 'f' {
        Some(c as int - 87)
    } else if 'A' <= c && c <= 'F' {
        Some(c as int - 55)
    } else {
        None
    }
}

/// The character of a one-letter JSON escape `\e`, if `e` names one.
pub open spec fn json_short_escape(e: char) -> Option<char> {
    if e == '"' {
        Some('"')
    } else if e == '\\' {
        Some('\\')
    } else if e == '/' {
        Some('/')
    } else if e == 'b' {
        Some('\u{8}')
    } else if e == 'f' {
        Some('\u{c}')
    } else if e == 'n' {
        Some('\n')
    } else if e == 'r' {
        Some('\r')
    } else if e == 't' {
        Some('\t')
    } else {
        None
    }
}

/// The code point that the four hexadecimal digits `t[1..5]` spell, if they are digits.
pub open spec fn json_hex4(t: Seq<char>) -> Option<int> {
    if t.len() >= 5 && hex_value(t[1]) is Some && hex_value(t[2]) is Some && hex_value(t[3]) is Some
        && hex_value(t[4]) is Some {
        Some(
            hex_value(t[1])->0 * 4096 + hex_value(t[2])->0 * 256 + hex_value(t[3])->0 * 16 + hex_value(
                t[4],
            )->0,
        )
    } else {
        None
    }
}

/// The characters that `t`, the body of a JSON string literal, stands for; `None` where
/// `t` is no such body (a raw `"` or control character, or a malformed escape). A `\u`
/// escape of a surrogate half is not decoded.
pub open spec fn json_string_value(t: Seq<char>) -> Option<Seq<char>>
    decreases t.len(),
{
    if t.len() == 0 {
        Some(Seq::empty())
    } else if t[0] == '"' || (t[0] as int) < 0x20 {
        None
    } else if t[0] != '\\' {
        match json_string_value(t.drop_first()) {
            Some(r) => Some(seq![t[0]] + r),
            None => None,
        }
    } else if t.len() < 2 {
        None
    } else if json_short_escape(t[1]) is Some {
        match json_string_value(t.subrange(2, t.len() as int)) {
            Some(r) => Some(seq![json_short_escape(t[1])->0] + r),
            None => None,
        }
    } else if t[1] == 'u' && json_hex4(t.drop_first()) is Some && (json_hex4(t.drop_first())->0 < 0xd800
        || json_hex4(t.drop_first())->0 > 0xdfff) {
        match json_string_value(t.subrange(6, t.len() as int)) {
            Some(r) => Some(seq![json_hex4(t.drop_first())->0 as char] + r),
            None => None,
        }
    } else {
        None
    }
}

/// Escaping a string character by character, taken from the front.
proof fn lemma_escape_json_front(s: Seq<char>)
    requires
        s.len() > 0,
    ensures
        spec_escape_json(s) == escape_char(s[0]) + spec_escape_json(s.drop_first()),
    decreases s.len(),
{
    if s.len() > 1 {
        lemma_escape_json_front(s.drop_last());
        assert(s.drop_last().drop_first() =~= s.drop_first().drop_last());
        assert(s.drop_first().last() == s.last());
        assert(s.drop_last()[0] == s[0]);
        assert(spec_escape_json(s.drop_first()) == spec_escape_json(s.drop_first().drop_last())
            + escape_char(s.last()));
        assert(escape_char(s[0]) + spec_escape_json(s.drop_first()) =~= (escape_char(s[0])
            + spec_escape_json(s.drop_last().drop_first())) + escape_char(s.last()));
    } else {
        assert(s.drop_last() =~= Seq::<char>::empty());
        assert(s.drop_first() =~= Seq::<char>::empty());
        assert(escape_char(s[0]) + Seq::<char>::empty() =~= escape_char(s[0]));
    }
}

/// The hexadecimal digit of `d` reads back as `d`.
proof fn lemma_hex_digit(d: int)
    requires
        0 <= d < 16,
    ensures
        hex_value(hex_digit(d)) == Some(d),
{
}

/// One escaped character, read back before whatever follows it.
proof fn lemma_escape_char_value(c: char, t: Seq<char>)
    ensures
        json_string_value(escape_char(c) + t) == match json_string_value(t) {
            Some(r) => Some(seq![c] + r),
            None => None::<Seq<char>>,
        },
{
    let e = escape_char(c);
    let w = e + t;
    if c == '"' || c == '\\' || c == '\n' || c == '\r' || c == '\t' {
        assert(w.subrange(2, w.len() as int) =~= t);
    } else if (c as int) < 0x20 {
        lemma_hex_digit(c as int / 16);
        lemma_hex_digit(c as int % 16);
        assert(w[0] == '\\' && w[1] == 'u');
        assert(w.drop_first()[1] == '0' && w.drop_first()[2] == '0');
        assert(w.drop_first()[3] == hex_digit(c as int / 16));
        assert(w.drop_first()[4] == hex_digit(c as int % 16));
        assert(json_hex4(w.drop_first()) == Some(c as int));
        assert(w.subrange(6, w.len() as int) =~= t);
    } else {
        assert(w.drop_first() =~= t);
    }
}

/// Wrapped in double quotes, an escaped string is a JSON string literal whose value is
/// the string itself.
pub proof fn lemma_escape_json_round_trip(s: Seq<char>)
    ensures
        json_string_value(spec_escape_json(s)) == Some(s),
    decreases s.len(),
{
    if s.len() > 0 {
        lemma_escape_json_front(s);
        lemma_escape_json_round_trip(s.drop_first());
        lemma_escape_char_value(s[0], spec_escape_json(s.drop_first()));
        assert(seq![s[0]] + s.drop_first() =~= s);
    }
}

/// `s` cut to its first `max` characters, with an ellipsis when anything was cut.
pub open spec fn spec_truncate(s: Seq<char>, max: nat) -> Seq<char> {
    if s.len() > max {
        s.subrange(0, max as int).push('…')
    } else {
        s
    }
}

/// `s` cut to its first `max` characters, with an ellipsis when anything was cut.
pub fn truncate(s: &str, max: usize) -> (r: String)
    ensures
        r@ == spec_truncate(s@, max as nat),
{
    let chars = chars_of(s);
    if chars.len() > max {
        let mut cut = sub_chars(&chars, 0, max);
        cut.push('…');
        string_of(&cut)
    } else {
        string_of(&chars)
    }
}

} // verus!
