//! Reporting on translation attempts: the per-gate chips of an attempt, the attempts of
//! an outcome, and the three-gate verdict on a candidate.

use vstd::prelude::*;
use crate::gates::{passes_gates, validate_kb, GateError, GateKind};
use crate::parser::has_unknown_word;
use crate::dictionary::chars_of;
use crate::lexer::string_of;
use crate::compile::{decimal, spec_decimal};
use crate::text::{spec_kb_lines, spec_trim, spec_truncate, trim_chars, truncate};

verus! {

/// How one gate fared on an attempt.
#[derive(Clone, Copy, PartialEq, Eq, Debug, Structural)]
pub enum ChipState {
    Pass,
    Fail,
    /// Not run: an earlier gate failed.
    Skip,
}

/// The gates in the fail-fast order the validator runs them.
pub open spec fn spec_gate_name(i: nat) -> Seq<char> {
    if i == 0 {
        "gerna"@
    } else if i == 1 {
        "smuni"@
    } else {
        "camxes"@
    }
}

/// The position of a gate in the fail-fast order.
pub open spec fn spec_gate_index(g: Seq<char>) -> Option<nat> {
    if g == "gerna"@ {
        Some(0)
    } else if g == "smuni"@ {
        Some(1)
    } else if g == "camxes"@ {
        Some(2)
    } else {
        None
    }
}

/// How gate `i` fared, given which gate failed (if one did): the gates before it passed,
/// it failed, the later ones were skipped. A failure of a check that is not one of the
/// three gates (the semantic verification after them) means all three passed.
pub open spec fn spec_chip_state(failed: Option<Seq<char>>, i: nat) -> ChipState {
    match failed {
        None => ChipState::Pass,
        Some(g) => match spec_gate_index(g) {
            None => ChipState::Pass,
            Some(f) => if i < f {
                ChipState::Pass
            } else if i == f {
                ChipState::Fail
            } else {
                ChipState::Skip
            },
        },
    }
}

/// The glyph of a chip state.
pub open spec fn spec_glyph(s: ChipState) -> Seq<char> {
    match s {
        ChipState::Pass => "✓"@,
        ChipState::Fail => "✗"@,
        ChipState::Skip => "·"@,
    }
}

/// The style class of a chip state.
pub open spec fn spec_chip_class(s: ChipState) -> Seq<char> {
    match s {
        ChipState::Pass => "gate-chip pass"@,
        ChipState::Fail => "gate-chip fail"@,
        ChipState::Skip => "gate-chip skip"@,
    }
}

fn gate_name(i: usize) -> (s: &'static str)
    ensures
        s@ == spec_gate_name(i as nat),
{
    if i == 0 {
        "gerna"
    } else if i == 1 {
        "smuni"
    } else {
        "camxes"
    }
}

fn gate_index(g: &str) -> (r: Option<usize>)
    ensures
        match r {
            Some(i) => spec_gate_index(g@) == Some(i as nat),
            None => spec_gate_index(g@) is None,
        },
{
    if crate::dictionary::str_equal(g, "gerna") {
        Some(0)
    } else if crate::dictionary::str_equal(g, "smuni") {
        Some(1)
    } else if crate::dictionary::str_equal(g, "camxes") {
        Some(2)
    } else {
        None
    }
}

/// How each of the three gates fared, given which gate failed (if one did).
pub fn chip_states(failed: Option<&str>) -> (v: Vec<ChipState>)
    ensures
        v@.len() == 3,
        forall|i: int| 0 <= i < 3 ==> #[trigger] v@[i] == spec_chip_state(
            match failed {
                Some(g) => Some(g@),
                None => None,
            },
            i as nat,
        ),
{
    let f = match failed {
        Some(g) => gate_index(g),
        None => None,
    };
    let mut v: Vec<ChipState> = Vec::new();
    let mut i: usize = 0;
    while i < 3
        invariant
            i <= 3,
            v@.len() == i,
            f == match failed {
                Some(g) => match spec_gate_index(g@) {
                    Some(k) => Some(k as usize),
                    None => None,
                },
                None => None::<usize>,
            },
            forall|k: int| 0 <= k < i ==> #[trigger] v@[k] == spec_chip_state(
                match failed {
                    Some(g) => Some(g@),
                    None => None,
                },
                k as nat,
            ),
        decreases 3 - i,
    {
        let st = match f {
            None => ChipState::Pass,
            Some(k) => if i < k {
                ChipState::Pass
            } else if i == k {
                ChipState::Fail
            } else {
                ChipState::Skip
            },
        };
        v.push(st);
        i = i + 1;
    }
    v
}

/// The chip of each gate: its name and the state's glyph, and the state's style class.
pub fn gate_chips(failed: Option<&str>) -> (chips: Vec<(String, &'static str)>)
    ensures
        chips@.len() == 3,
        forall|i: int|
            0 <= i < 3 ==> {
                let st = spec_chip_state(
                    match failed {
                        Some(g) => Some(g@),
                        None => None,
                    },
                    i as nat,
                );
                &&& (#[trigger] chips@[i]).0@ == spec_gate_name(i as nat) + " "@ + spec_glyph(st)
                &&& chips@[i].1@ == spec_chip_class(st)
            },
{
    let states = chip_states(failed);
    let mut chips: Vec<(String, &'static str)> = Vec::new();
    let mut i: usize = 0;
    while i < 3
        invariant
            i <= 3,
            states@.len() == 3,
            chips@.len() == i,
            forall|k: int| 0 <= k < 3 ==> #[trigger] states@[k] == spec_chip_state(
                match failed {
                    Some(g) => Some(g@),
                    None => None,
                },
                k as nat,
            ),
            forall|k: int|
                0 <= k < i ==> {
                    let st = states@[k];
                    &&& (#[trigger] chips@[k]).0@ == spec_gate_name(k as nat) + " "@ + spec_glyph(st)
                    &&& chips@[k].1@ == spec_chip_class(st)
                },
        decreases 3 - i,
    {
        let (glyph, class) = match states[i] {
            ChipState::Pass => ("✓", "gate-chip pass"),
            ChipState::Fail => ("✗", "gate-chip fail"),
            ChipState::Skip => ("·", "gate-chip skip"),
        };
        let mut label = gate_name(i).to_owned();
        label.append(" ");
        label.append(glyph);
        chips.push((label, class));
        i = i + 1;
    }
    chips
}

/// One translation attempt: its number, the candidate text and, when a gate stopped it,
/// that error.
#[derive(Debug)]
pub struct Attempt {
    pub n: u32,
    pub candidate: String,
    pub error: Option<GateError>,
}

/// How a translation run ended, with the attempts it made.
#[derive(Debug)]
pub enum Outcome {
    /// A candidate passed every gate; `degraded` when the run went on without its tools.
    Success { lojban: String, attempts: Vec<Attempt>, degraded: bool },
    /// The attempt budget ran out first: the best candidate, the last gate error, the
    /// attempts, and whether the run went on without its tools.
    Exhausted { best: String, last_error: GateError, attempts: Vec<Attempt>, degraded: bool },
    /// The model could not be reached.
    ChatFailed { error: String, attempts: Vec<Attempt> },
}

/// The attempts an outcome made.
pub fn outcome_attempts(o: &Outcome) -> (a: &Vec<Attempt>)
    ensures
        *a == match *o {
            Outcome::Success { attempts, .. } => attempts,
            Outcome::Exhausted { attempts, .. } => attempts,
            Outcome::ChatFailed { attempts, .. } => attempts,
        },
{
    match o {
        Outcome::Success { attempts, .. } => attempts,
        Outcome::Exhausted { attempts, .. } => attempts,
        Outcome::ChatFailed { attempts, .. } => attempts,
    }
}

/// The name of how an outcome ended.
pub fn outcome_kind(o: &Outcome) -> (k: &'static str)
    ensures
        k@ == match *o {
            Outcome::Success { .. } => "success"@,
            Outcome::Exhausted { .. } => "exhausted"@,
            Outcome::ChatFailed { .. } => "chat_failed"@,
        },
{
    match o {
        Outcome::Success { .. } => "success",
        Outcome::Exhausted { .. } => "exhausted",
        Outcome::ChatFailed { .. } => "chat_failed",
    }
}

/// The notice shown when a run ran out of attempts: how many it made, and the last gate
/// error.
pub open spec fn spec_exhausted_notice(attempts: nat, last_error: Seq<char>) -> Seq<char> {
    "Couldn't fully validate after "@ + spec_decimal(attempts) + " attempts — showing best effort. Last: "@
        + last_error
}

/// The notice shown when a run ran out of attempts.
pub fn exhausted_notice(attempts: usize, last_error: &GateError) -> (s: String)
    ensures
        s@ == spec_exhausted_notice(
            attempts as nat,
            (match last_error.kind {
                GateKind::Syntax => "[Syntax Error] "@,
                GateKind::Semantic => "[Semantic Error] "@,
            }) + last_error.detail@,
        ),
{
    let mut s = "Couldn't fully validate after ".to_owned();
    s.append(decimal(attempts as u128).as_str());
    s.append(" attempts — showing best effort. Last: ");
    s.append(last_error.message().as_str());
    s
}

/// Whether the settings cannot be saved yet for want of an API key: every provider but a
/// custom one (which may be a local server) needs a key that is not blank once trimmed.
pub fn save_needs_key(api_key: &str, custom_provider: bool) -> (needs: bool)
    ensures
        needs == (spec_trim(api_key@).len() == 0 && !custom_provider),
{
    trim_chars(&chars_of(api_key)).len() == 0 && !custom_provider
}

/// Whether a translation may start: the source text is not blank once trimmed and no
/// translation is already running.
pub fn translate_ready(source: &str, translating: bool) -> (ready: bool)
    ensures
        ready == (spec_trim(source@).len() > 0 && !translating),
{
    trim_chars(&chars_of(source)).len() > 0 && !translating
}

/// The official-grammar gate on a candidate, from the verdict on each of its content
/// lines (`Some(true)` accepted, `Some(false)` rejected, `None` the grammar could not be
/// run): it passes when every line was accepted.
pub fn camxes_ok(verdicts: &Vec<Option<bool>>) -> (ok: bool)
    ensures
        ok == forall|i: int| 0 <= i < verdicts@.len() ==> #[trigger] verdicts@[i] == Some(true),
{
    let mut i: usize = 0;
    while i < verdicts.len()
        invariant
            i <= verdicts@.len(),
            forall|k: int| 0 <= k < i ==> #[trigger] verdicts@[k] == Some(true),
        decreases verdicts@.len() - i,
    {
        if verdicts[i] != Some(true) {
            return false;
        }
        i = i + 1;
    }
    true
}

/// The full three-gate verdict on a candidate: both local gates on every content line,
/// and the official grammar's verdict on each line (`verdicts[i]` for content line `i`
/// of [`crate::text::kb_lines`]).
pub fn three_gate_ok(candidate: &str, verdicts: &Vec<Option<bool>>) -> (ok: bool)
    requires
        verdicts@.len() == spec_kb_lines(candidate@).len(),
    ensures
        ok ==> forall|i: int| 0 <= i < verdicts@.len() ==> #[trigger] verdicts@[i] == Some(true),
        ok ==> forall|i: int|
            0 <= i < spec_kb_lines(candidate@).len() ==> #[trigger] passes_gates(spec_kb_lines(candidate@)[i]),
        (exists|i: int|
            0 <= i < spec_kb_lines(candidate@).len() && #[trigger] has_unknown_word(spec_kb_lines(candidate@)[i]))
            ==> !ok,
        spec_kb_lines(candidate@).len() == 0 ==> ok,
{
    validate_kb(candidate).is_ok() && camxes_ok(verdicts)
}

/// `s` with each newline replaced by a space.
pub open spec fn spec_flatten_newlines(s: Seq<char>) -> Seq<char> {
    Seq::new(s.len(), |i: int| if s[i] == '\n' { ' ' } else { s[i] })
}

/// A compact `args → result` snippet for a tool call: the arguments cut to 40
/// characters, the result on one line cut to 80.
pub fn tool_summary(args: &str, result: &str) -> (s: String)
    ensures
        s@ == spec_truncate(args@, 40) + " → "@ + spec_truncate(spec_flatten_newlines(result@), 80),
{
    let chars = chars_of(result);
    let mut flat: Vec<char> = Vec::new();
    let mut i: usize = 0;
    while i < chars.len()
        invariant
            i <= chars@.len(),
            chars@ == result@,
            flat@ == spec_flatten_newlines(result@).subrange(0, i as int),
        decreases chars@.len() - i,
    {
        flat.push(if chars[i] == '\n' {
            ' '
        } else {
            chars[i]
        });
        assert(flat@ =~= spec_flatten_newlines(result@).subrange(0, i + 1));
        i = i + 1;
    }
    assert(flat@ =~= spec_flatten_newlines(result@));
    let flat_s = string_of(&flat);
    let mut s = truncate(args, 40);
    s.append(" → ");
    s.append(truncate(flat_s.as_str(), 80).as_str());
    s
}

/// The proxy address handed to the tool client: the configured one, trimmed, only
/// when the tools are enabled; otherwise empty, so no call leaves the machine.
pub fn active_proxy_url(enabled: bool, proxy_url: &str) -> (url: String)
    ensures
        url@ == if enabled {
            spec_trim(proxy_url@)
        } else {
            Seq::empty()
        },
{
    if enabled {
        string_of(&trim_chars(&chars_of(proxy_url)))
    } else {
        String::new()
    }
}

/// The characters of `s` before its first newline (all of them when it has none).
pub open spec fn spec_before_newline(s: Seq<char>) -> Seq<char>
    decreases s.len(),
{
    if s.len() == 0 || s[0] == '\n' {
        Seq::empty()
    } else {
        seq![s[0]] + spec_before_newline(s.drop_first())
    }
}

/// The first line of `s`, as `str::lines` gives it: the characters before its first
/// newline, without the carriage return of a `\r\n` ending.
pub open spec fn spec_first_line(s: Seq<char>) -> Seq<char> {
    let t = spec_before_newline(s);
    if t.len() < s.len() && t.len() > 0 && t.last() == '\r' {
        t.drop_last()
    } else {
        t
    }
}

/// The characters of `v` from `i` before the first newline.
proof fn lemma_before_newline_step(v: Seq<char>, i: int)
    requires
        0 <= i < v.len(),
        v[i] != '\n',
    ensures
        spec_before_newline(v.subrange(i, v.len() as int)) == seq![v[i]] + spec_before_newline(
            v.subrange(i + 1, v.len() as int),
        ),
{
    assert(v.subrange(i, v.len() as int).drop_first() =~= v.subrange(i + 1, v.len() as int));
}

/// The first line of `s`.
pub fn first_line(s: &str) -> (r: String)
    ensures
        r@ == spec_first_line(s@),
{
    let chars = chars_of(s);
    let n = chars.len();
    let mut out: Vec<char> = Vec::new();
    let mut i: usize = 0;
    assert(chars@.subrange(0, n as int) =~= chars@);
    while i < n && chars[i] != '\n'
        invariant
            i <= n,
            n == chars@.len(),
            chars@ == s@,
            spec_before_newline(s@) == out@ + spec_before_newline(chars@.subrange(i as int, n as int)),
            out@.len() == i,
        decreases n - i,
    {
        proof {
            lemma_before_newline_step(chars@, i as int);
            assert(out@.push(chars@[i as int]) =~= out@ + seq![chars@[i as int]]);
            assert((out@ + seq![chars@[i as int]]) + spec_before_newline(chars@.subrange(i + 1, n as int))
                =~= out@ + (seq![chars@[i as int]] + spec_before_newline(chars@.subrange(i + 1, n as int))));
        }
        out.push(chars[i]);
        i = i + 1;
    }
    proof {
        let rest = chars@.subrange(i as int, n as int);
        assert(spec_before_newline(rest) == Seq::<char>::empty());
        assert(out@ + Seq::<char>::empty() =~= out@);
    }
    if i < n && out.len() > 0 && out[out.len() - 1] == '\r' {
        out.pop();
    }
    string_of(&out)
}

/// The one-line detail of an attempt: that it passed, or the failing gate and the
/// first line of its error.
pub open spec fn spec_trace_detail(error: Option<(Seq<char>, Seq<char>)>) -> Seq<char> {
    match error {
        None => "valid — passed the gates"@,
        Some((gate, message)) => gate + ": "@ + spec_first_line(message),
    }
}

/// One row of the self-correction trace: the attempt's number, whether it passed, a
/// one-line detail and the per-gate chips.
pub struct TraceRow {
    pub n: u32,
    pub ok: bool,
    pub detail: String,
    pub gates: Vec<(String, &'static str)>,
}

/// Which gate an attempt's error came from, and its message.
pub open spec fn spec_error_parts(e: Option<GateError>) -> Option<(Seq<char>, Seq<char>)> {
    match e {
        None => None,
        Some(e) => Some(
            (
                match e.kind {
                    GateKind::Syntax => "gerna"@,
                    GateKind::Semantic => "smuni"@,
                },
                (match e.kind {
                    GateKind::Syntax => "[Syntax Error] "@,
                    GateKind::Semantic => "[Semantic Error] "@,
                }) + e.detail@,
            ),
        ),
    }
}

/// Which gate stopped an attempt: its name, or `None` when the attempt passed.
pub open spec fn spec_failed_gate(e: Option<GateError>) -> Option<Seq<char>> {
    match spec_error_parts(e) {
        Some((g, _)) => Some(g),
        None => None,
    }
}

/// `chips` are the three gate chips for a run that `failed` names the failing gate of.
pub open spec fn chips_for(chips: Seq<(String, &'static str)>, failed: Option<Seq<char>>) -> bool {
    &&& chips.len() == 3
    &&& forall|i: int|
        0 <= i < 3 ==> {
            let st = spec_chip_state(failed, i as nat);
            &&& (#[trigger] chips[i]).0@ == spec_gate_name(i as nat) + " "@ + spec_glyph(st)
            &&& chips[i].1@ == spec_chip_class(st)
        }
}

/// The trace row of one attempt: its number, whether it passed the gates, its one-line
/// detail and its gate chips.
pub fn trace_row(a: &Attempt) -> (row: TraceRow)
    ensures
        row.n == a.n,
        row.ok == (a.error is None),
        row.detail@ == spec_trace_detail(spec_error_parts(a.error)),
        chips_for(row.gates@, spec_failed_gate(a.error)),
{
    match &a.error {
        None => TraceRow {
            n: a.n,
            ok: true,
            detail: "valid — passed the gates".to_owned(),
            gates: gate_chips(None),
        },
        Some(e) => {
            let gate = e.gate();
            let mut detail = gate.to_owned();
            detail.append(": ");
            detail.append(first_line(e.message().as_str()).as_str());
            TraceRow { n: a.n, ok: false, detail, gates: gate_chips(Some(gate)) }
        },
    }
}

/// The trace rows of a run's attempts, in order.
pub fn trace_rows(attempts: &Vec<Attempt>) -> (rows: Vec<TraceRow>)
    ensures
        rows@.len() == attempts@.len(),
        forall|i: int|
            0 <= i < rows@.len() ==> {
                &&& (#[trigger] rows@[i]).n == attempts@[i].n
                &&& rows@[i].ok == (attempts@[i].error is None)
                &&& rows@[i].detail@ == spec_trace_detail(spec_error_parts(attempts@[i].error))
                &&& chips_for(rows@[i].gates@, spec_failed_gate(attempts@[i].error))
            },
{
    let mut rows: Vec<TraceRow> = Vec::new();
    let mut i: usize = 0;
    while i < attempts.len()
        invariant
            i <= attempts@.len(),
            rows@.len() == i,
            forall|k: int|
                0 <= k < i ==> {
                    &&& (#[trigger] rows@[k]).n == attempts@[k].n
                    &&& rows@[k].ok == (attempts@[k].error is None)
                    &&& rows@[k].detail@ == spec_trace_detail(spec_error_parts(attempts@[k].error))
                    &&& chips_for(rows@[k].gates@, spec_failed_gate(attempts@[k].error))
                },
        decreases attempts@.len() - i,
    {
        rows.push(trace_row(&attempts[i]));
        i = i + 1;
    }
    rows
}

} // verus!
