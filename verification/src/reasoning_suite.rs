//! A deterministic synthetic reasoning suite: generated cases in five task
//! families and three splits, their canonical text, and objective scoring of
//! predictions with a failure taxonomy.

use vstd::prelude::*;
use crate::fingerprint::{deterministic_u64, mix64};
use crate::plan_executor::{escape_log_text, log_esc};
use crate::planner::{is_ws, is_ws_char};
use crate::session::repl_trim;
use crate::text::{
    chars_of, dec, dec_signed, parse_i64, parse_i64_spec, parse_bounded, parse_unsigned_in, push_char,
    push_i64, push_str, push_u64, string_from, string_of, has_prefix,
};

verus! {

pub const REASONING_SUITE_SCHEMA_VERSION: u32 = 1;
pub const REASONING_SUITE_SEED: u64 = 130_659_918;

#[derive(Clone, Copy, Debug, PartialEq, Eq, Structural)]
pub enum ReasoningProfile {
    Smoke,
    Full,
}

impl ReasoningProfile {
    pub open spec fn spec_name(self) -> Seq<char> {
        match self {
            ReasoningProfile::Smoke => "smoke"@,
            ReasoningProfile::Full => "full"@,
        }
    }

    pub fn as_str(self) -> (r: &'static str)
        ensures
            r@ == self.spec_name(),
    {
        match self {
            ReasoningProfile::Smoke => "smoke",
            ReasoningProfile::Full => "full",
        }
    }

    pub open spec fn spec_per_bucket(self) -> usize {
        match self {
            ReasoningProfile::Smoke => 2,
            ReasoningProfile::Full => 16,
        }
    }

    /// How many cases each (kind, split) bucket holds.
    pub fn cases_per_kind_split(self) -> (r: usize)
        ensures
            r == self.spec_per_bucket(),
    {
        match self {
            ReasoningProfile::Smoke => 2,
            ReasoningProfile::Full => 16,
        }
    }
}

#[derive(Clone, Copy, Debug, PartialEq, Eq, Structural)]
pub enum ReasoningKind {
    ArithmeticComposition,
    AlgorithmicSequence,
    VariableBinding,
    FiniteStatePlanning,
    DistractorRobustness,
}

impl ReasoningKind {
    pub const ALL: [ReasoningKind; 5] = [
        ReasoningKind::ArithmeticComposition,
        ReasoningKind::AlgorithmicSequence,
        ReasoningKind::VariableBinding,
        ReasoningKind::FiniteStatePlanning,
        ReasoningKind::DistractorRobustness,
    ];

    pub open spec fn spec_name(self) -> Seq<char> {
        match self {
            ReasoningKind::ArithmeticComposition => "arithmetic-composition"@,
            ReasoningKind::AlgorithmicSequence => "algorithmic-sequence"@,
            ReasoningKind::VariableBinding => "variable-binding"@,
            ReasoningKind::FiniteStatePlanning => "finite-state-planning"@,
            ReasoningKind::DistractorRobustness => "distractor-robustness"@,
        }
    }

    pub fn as_str(self) -> (r: &'static str)
        ensures
            r@ == self.spec_name(),
    {
        match self {
            ReasoningKind::ArithmeticComposition => "arithmetic-composition",
            ReasoningKind::AlgorithmicSequence => "algorithmic-sequence",
            ReasoningKind::VariableBinding => "variable-binding",
            ReasoningKind::FiniteStatePlanning => "finite-state-planning",
            ReasoningKind::DistractorRobustness => "distractor-robustness",
        }
    }

    /// Position of the kind in `ALL` (and in the per-kind report arrays).
    pub open spec fn spec_index(self) -> usize {
        match self {
            ReasoningKind::ArithmeticComposition => 0,
            ReasoningKind::AlgorithmicSequence => 1,
            ReasoningKind::VariableBinding => 2,
            ReasoningKind::FiniteStatePlanning => 3,
            ReasoningKind::DistractorRobustness => 4,
        }
    }

    pub open spec fn spec_at(i: int) -> ReasoningKind {
        if i == 0 {
            ReasoningKind::ArithmeticComposition
        } else if i == 1 {
            ReasoningKind::AlgorithmicSequence
        } else if i == 2 {
            ReasoningKind::VariableBinding
        } else if i == 3 {
            ReasoningKind::FiniteStatePlanning
        } else {
            ReasoningKind::DistractorRobustness
        }
    }

    fn index(self) -> (r: usize)
        ensures
            r == self.spec_index(),
    {
        match self {
            ReasoningKind::ArithmeticComposition => 0,
            ReasoningKind::AlgorithmicSequence => 1,
            ReasoningKind::VariableBinding => 2,
            ReasoningKind::FiniteStatePlanning => 3,
            ReasoningKind::DistractorRobustness => 4,
        }
    }

    fn at(i: usize) -> (r: ReasoningKind)
        ensures
            r == ReasoningKind::spec_at(i as int),
    {
        if i == 0 {
            ReasoningKind::ArithmeticComposition
        } else if i == 1 {
            ReasoningKind::AlgorithmicSequence
        } else if i == 2 {
            ReasoningKind::VariableBinding
        } else if i == 3 {
            ReasoningKind::FiniteStatePlanning
        } else {
            ReasoningKind::DistractorRobustness
        }
    }
}

#[derive(Clone, Copy, Debug, PartialEq, Eq, Structural)]
pub enum ReasoningSplit {
    TrainDifficulty,
    EvalDifficulty,
    EvalLength,
}

impl ReasoningSplit {
    pub const ALL: [ReasoningSplit; 3] = [
        ReasoningSplit::TrainDifficulty,
        ReasoningSplit::EvalDifficulty,
        ReasoningSplit::EvalLength,
    ];

    pub open spec fn spec_name(self) -> Seq<char> {
        match self {
            ReasoningSplit::TrainDifficulty => "train-difficulty"@,
            ReasoningSplit::EvalDifficulty => "eval-difficulty"@,
            ReasoningSplit::EvalLength => "eval-length"@,
        }
    }

    pub fn as_str(self) -> (r: &'static str)
        ensures
            r@ == self.spec_name(),
    {
        match self {
            ReasoningSplit::TrainDifficulty => "train-difficulty",
            ReasoningSplit::EvalDifficulty => "eval-difficulty",
            ReasoningSplit::EvalLength => "eval-length",
        }
    }

    pub open spec fn spec_index(self) -> usize {
        match self {
            ReasoningSplit::TrainDifficulty => 0,
            ReasoningSplit::EvalDifficulty => 1,
            ReasoningSplit::EvalLength => 2,
        }
    }

    pub open spec fn spec_at(i: int) -> ReasoningSplit {
        if i == 0 {
            ReasoningSplit::TrainDifficulty
        } else if i == 1 {
            ReasoningSplit::EvalDifficulty
        } else {
            ReasoningSplit::EvalLength
        }
    }

    fn index(self) -> (r: usize)
        ensures
            r == self.spec_index(),
    {
        match self {
            ReasoningSplit::TrainDifficulty => 0,
            ReasoningSplit::EvalDifficulty => 1,
            ReasoningSplit::EvalLength => 2,
        }
    }

    fn at(i: usize) -> (r: ReasoningSplit)
        ensures
            r == ReasoningSplit::spec_at(i as int),
    {
        if i == 0 {
            ReasoningSplit::TrainDifficulty
        } else if i == 1 {
            ReasoningSplit::EvalDifficulty
        } else {
            ReasoningSplit::EvalLength
        }
    }
}

#[derive(Clone, Debug, PartialEq, Eq)]
pub enum ReasoningAnswer {
    Integer(i64),
    IntegerSequence(Vec<i64>),
    Plan { actions: String, final_state: usize, steps: usize },
    DistractorInteger { correct: i64, distractors: Vec<i64> },
}

/// Integers written in decimal and separated by commas.
pub open spec fn join_ints(vs: Seq<i64>) -> Seq<char>
    decreases vs.len(),
{
    if vs.len() == 0 {
        Seq::empty()
    } else if vs.len() == 1 {
        dec_signed(vs[0] as int)
    } else {
        join_ints(vs.drop_last()) + ","@ + dec_signed(vs.last() as int)
    }
}

fn push_joined_ints(out: &mut String, vs: &Vec<i64>, n: usize)
    requires
        n <= vs@.len(),
    ensures
        final(out)@ == old(out)@ + join_ints(vs@.subrange(0, n as int)),
{
    let ghost before = out@;
    let mut i: usize = 0;
    while i < n
        invariant
            n <= vs@.len(),
            i <= n,
            out@ == before + join_ints(vs@.subrange(0, i as int)),
        decreases n - i,
    {
        let ghost s = vs@.subrange(0, i + 1);
        assert(s.drop_last() =~= vs@.subrange(0, i as int));
        assert(s.last() == vs@[i as int]);
        if i > 0 {
            push_str(out, ",");
        } else {
            assert(s[0] == vs@[0]);
        }
        push_i64(out, vs[i]);
        i = i + 1;
        assert(out@ =~= before + join_ints(s));
    }
}

pub open spec fn plan_answer_text(actions: Seq<char>, final_state: usize, steps: usize) -> Seq<char> {
    "plan="@ + actions + ";state=S"@ + dec(final_state as nat) + ";steps="@ + dec(steps as nat)
}

impl ReasoningAnswer {
    pub open spec fn spec_canonical(self) -> Seq<char> {
        match self {
            ReasoningAnswer::Integer(v) => dec_signed(v as int),
            ReasoningAnswer::IntegerSequence(vs) => join_ints(vs@),
            ReasoningAnswer::Plan { actions, final_state, steps } => plan_answer_text(actions@, final_state, steps),
            ReasoningAnswer::DistractorInteger { correct, .. } => dec_signed(correct as int),
        }
    }

    /// The answer as an exact prediction writes it.
    pub fn canonical(&self) -> (r: String)
        ensures
            r@ == self.spec_canonical(),
    {
        let mut out = String::new();
        match self {
            ReasoningAnswer::Integer(v) => push_i64(&mut out, *v),
            ReasoningAnswer::IntegerSequence(vs) => {
                push_joined_ints(&mut out, vs, vs.len());
                assert(vs@.subrange(0, vs@.len() as int) =~= vs@);
            },
            ReasoningAnswer::Plan { actions, final_state, steps } => {
                push_str(&mut out, "plan=");
                push_str(&mut out, actions.as_str());
                push_str(&mut out, ";state=S");
                push_u64(&mut out, *final_state as u64);
                push_str(&mut out, ";steps=");
                push_u64(&mut out, *steps as u64);
            },
            ReasoningAnswer::DistractorInteger { correct, .. } => push_i64(&mut out, *correct),
        }
        assert(out@ =~= self.spec_canonical());
        out
    }
}

#[derive(Clone, Debug, PartialEq, Eq)]
pub struct ReasoningCase {
    pub id: String,
    pub kind: ReasoningKind,
    pub split: ReasoningSplit,
    pub difficulty: u8,
    pub length: usize,
    pub prompt: String,
    pub expected: ReasoningAnswer,
}

impl ReasoningCase {
    pub open spec fn spec_canonical(self) -> Seq<char> {
        "case|id="@ + log_esc(self.id@) + "|kind="@ + self.kind.spec_name() + "|split="@ + self.split.spec_name()
            + "|difficulty="@ + dec(self.difficulty as nat) + "|length="@ + dec(self.length as nat) + "|prompt="@
            + log_esc(self.prompt@) + "|answer="@ + log_esc(self.expected.spec_canonical()) + "\n"@
    }

    /// One line of the suite's canonical text.
    pub fn canonical(&self) -> (r: String)
        ensures
            r@ == self.spec_canonical(),
    {
        let mut out = string_from("case|id=");
        push_str(&mut out, escape_log_text(self.id.as_str()).as_str());
        push_str(&mut out, "|kind=");
        push_str(&mut out, self.kind.as_str());
        push_str(&mut out, "|split=");
        push_str(&mut out, self.split.as_str());
        push_str(&mut out, "|difficulty=");
        push_u64(&mut out, self.difficulty as u64);
        push_str(&mut out, "|length=");
        push_u64(&mut out, self.length as u64);
        push_str(&mut out, "|prompt=");
        push_str(&mut out, escape_log_text(self.prompt.as_str()).as_str());
        push_str(&mut out, "|answer=");
        let answer = self.expected.canonical();
        push_str(&mut out, escape_log_text(answer.as_str()).as_str());
        push_str(&mut out, "\n");
        out
    }
}

pub open spec fn cases_text(cases: Seq<ReasoningCase>) -> Seq<char>
    decreases cases.len(),
{
    if cases.len() == 0 {
        Seq::empty()
    } else {
        cases_text(cases.drop_last()) + cases.last().spec_canonical()
    }
}

/// The canonical text of a list of cases: their lines in order.
pub fn canonical_cases(cases: &[ReasoningCase]) -> (r: String)
    ensures
        r@ == cases_text(cases@),
{
    let mut out = String::new();
    let mut i: usize = 0;
    while i < cases.len()
        invariant
            i <= cases@.len(),
            out@ == cases_text(cases@.subrange(0, i as int)),
        decreases cases.len() - i,
    {
        assert(cases@.subrange(0, i + 1).drop_last() =~= cases@.subrange(0, i as int));
        let line = cases[i].canonical();
        push_str(&mut out, line.as_str());
        i = i + 1;
    }
    assert(cases@.subrange(0, cases@.len() as int) =~= cases@);
    out
}

#[derive(Clone, Copy, Debug, PartialEq, Eq, Structural)]
pub enum FailureKind {
    Correct,
    InvalidFormat,
    WrongValue,
    WrongLength,
    WrongBinding,
    WrongTransition,
    DistractorCapture,
}

impl FailureKind {
    pub const FAILURES: [FailureKind; 6] = [
        FailureKind::InvalidFormat,
        FailureKind::WrongValue,
        FailureKind::WrongLength,
        FailureKind::WrongBinding,
        FailureKind::WrongTransition,
        FailureKind::DistractorCapture,
    ];

    pub open spec fn spec_name(self) -> Seq<char> {
        match self {
            FailureKind::Correct => "correct"@,
            FailureKind::InvalidFormat => "invalid-format"@,
            FailureKind::WrongValue => "wrong-value"@,
            FailureKind::WrongLength => "wrong-length"@,
            FailureKind::WrongBinding => "wrong-binding"@,
            FailureKind::WrongTransition => "wrong-transition"@,
            FailureKind::DistractorCapture => "distractor-capture"@,
        }
    }

    pub fn as_str(self) -> (r: &'static str)
        ensures
            r@ == self.spec_name(),
    {
        match self {
            FailureKind::Correct => "correct",
            FailureKind::InvalidFormat => "invalid-format",
            FailureKind::WrongValue => "wrong-value",
            FailureKind::WrongLength => "wrong-length",
            FailureKind::WrongBinding => "wrong-binding",
            FailureKind::WrongTransition => "wrong-transition",
            FailureKind::DistractorCapture => "distractor-capture",
        }
    }

    /// Position in `FAILURES`; `Correct` has none.
    pub open spec fn spec_index(self) -> Option<usize> {
        match self {
            FailureKind::Correct => None,
            FailureKind::InvalidFormat => Some(0),
            FailureKind::WrongValue => Some(1),
            FailureKind::WrongLength => Some(2),
            FailureKind::WrongBinding => Some(3),
            FailureKind::WrongTransition => Some(4),
            FailureKind::DistractorCapture => Some(5),
        }
    }

    fn index(self) -> (r: Option<usize>)
        ensures
            r == self.spec_index(),
    {
        match self {
            FailureKind::Correct => None,
            FailureKind::InvalidFormat => Some(0),
            FailureKind::WrongValue => Some(1),
            FailureKind::WrongLength => Some(2),
            FailureKind::WrongBinding => Some(3),
            FailureKind::WrongTransition => Some(4),
            FailureKind::DistractorCapture => Some(5),
        }
    }
}

#[derive(Clone, Copy, Debug, PartialEq, Eq, Structural)]
pub struct CaseScore {
    pub exact: bool,
    pub failure: FailureKind,
}

#[derive(Clone, Debug, PartialEq, Eq)]
pub struct ReasoningReport {
    pub total: usize,
    pub correct: usize,
    pub failure_counts: [usize; 6],
    pub per_kind_total: [usize; 5],
    pub per_kind_correct: [usize; 5],
    pub per_split_total: [usize; 3],
    pub per_split_correct: [usize; 3],
}

impl ReasoningReport {
    /// How many cases failed with `kind` (zero for `Correct`).
    pub fn failure_count(&self, kind: FailureKind) -> (r: usize)
        ensures
            r == (match kind.spec_index() {
                Some(i) => self.failure_counts@[i as int],
                None => 0,
            }),
    {
        match kind.index() {
            Some(i) => self.failure_counts[i],
            None => 0,
        }
    }
}

#[derive(Clone, Debug, PartialEq, Eq)]
pub enum ReasoningError {
    PredictionCountMismatch { expected: usize, actual: usize },
    InvalidProfile(&'static str),
}

impl ReasoningError {
    pub open spec fn spec_message(self) -> Seq<char> {
        match self {
            ReasoningError::PredictionCountMismatch { expected, actual } =>
                "prediction count mismatch: expected "@ + dec(expected as nat) + ", got "@ + dec(actual as nat),
            ReasoningError::InvalidProfile(m) => "invalid reasoning profile: "@ + m@,
        }
    }

    /// The error's text (its `Display`).
    pub fn message(&self) -> (r: String)
        ensures
            r@ == self.spec_message(),
    {
        match self {
            ReasoningError::PredictionCountMismatch { expected, actual } => {
                let mut out = string_from("prediction count mismatch: expected ");
                push_u64(&mut out, *expected as u64);
                push_str(&mut out, ", got ");
                push_u64(&mut out, *actual as u64);
                out
            },
            ReasoningError::InvalidProfile(m) => {
                let mut out = string_from("invalid reasoning profile: ");
                push_str(&mut out, m);
                out
            },
        }
    }
}

} // verus!

verus! {

// ---------------------------------------------------------------------------
// Reading predictions
// ---------------------------------------------------------------------------

/// The pieces of `s` between occurrences of `sep` (`str::split`; always at
/// least one).
pub open spec fn parts(s: Seq<char>, sep: char) -> Seq<Seq<char>>
    decreases s.len(),
{
    if s.len() == 0 {
        seq![Seq::<char>::empty()]
    } else {
        let p = parts(s.drop_last(), sep);
        if s.last() == sep {
            p.push(Seq::<char>::empty())
        } else {
            p.update(p.len() - 1, p.last().push(s.last()))
        }
    }
}

proof fn lemma_parts_nonempty(s: Seq<char>, sep: char)
    ensures
        parts(s, sep).len() >= 1,
    decreases s.len(),
{
    if s.len() > 0 {
        lemma_parts_nonempty(s.drop_last(), sep);
    }
}

pub open spec fn texts_view(v: Seq<String>) -> Seq<Seq<char>> {
    v.map_values(|s: String| s@)
}

/// The pieces of `text` between occurrences of `sep`.
fn split_on(text: &str, sep: char) -> (r: Vec<String>)
    ensures
        texts_view(r@) == parts(text@, sep),
{
    let cs = chars_of(text);
    let mut out: Vec<String> = Vec::new();
    let mut start: usize = 0;
    let mut i: usize = 0;
    assert(cs@.subrange(0, 0) =~= Seq::<char>::empty());
    while i < cs.len()
        invariant
            cs@ == text@,
            start <= i <= cs.len(),
            parts(cs@.subrange(0, i as int), sep) == texts_view(out@).push(cs@.subrange(start as int, i as int)),
        decreases cs.len() - i,
    {
        assert(cs@.subrange(0, i + 1).drop_last() =~= cs@.subrange(0, i as int));
        if cs[i] == sep {
            let ghost ov = out@;
            let piece = string_of(&cs, start, i);
            out.push(piece);
            assert(texts_view(out@) =~= texts_view(ov).push(piece@));
            i = i + 1;
            start = i;
            assert(cs@.subrange(start as int, i as int) =~= Seq::<char>::empty());
        } else {
            i = i + 1;
            assert(cs@.subrange(start as int, i as int) =~= cs@.subrange(start as int, i - 1).push(cs@[i - 1]));
        }
    }
    assert(cs@.subrange(0, cs.len() as int) =~= text@);
    let ghost ov = out@;
    let piece = string_of(&cs, start, cs.len());
    out.push(piece);
    assert(texts_view(out@) =~= texts_view(ov).push(piece@));
    out
}

/// Some white space inside.
pub open spec fn has_ws(t: Seq<char>) -> bool {
    exists|i: int| 0 <= i < t.len() && is_ws(#[trigger] t[i])
}

/// An integer prediction: trimmed, one token, a decimal `i64`.
pub open spec fn parse_integer_spec(s: Seq<char>) -> Option<i64> {
    let t = repl_trim(s);
    if t.len() == 0 || has_ws(t) { None } else { parse_i64_spec(t) }
}

fn parse_integer(value: &str) -> (r: Option<i64>)
    ensures
        r == parse_integer_spec(value@),
{
    let t = crate::session::trim_text(value);
    let cs = chars_of(t.as_str());
    if cs.len() == 0 {
        return None;
    }
    let mut i: usize = 0;
    while i < cs.len()
        invariant
            cs@ == t@,
            t@ == repl_trim(value@),
            i <= cs.len(),
            forall|j: int| 0 <= j < i ==> !is_ws(#[trigger] cs@[j]),
        decreases cs.len() - i,
    {
        if is_ws_char(cs[i]) {
            assert(cs@ == t@);
            assert(is_ws(t@[i as int]));
            return None;
        }
        i = i + 1;
    }
    parse_i64(t.as_str())
}

/// Every piece read as an integer, or nothing if one is not.
pub open spec fn parse_all(ps: Seq<Seq<char>>) -> Option<Seq<i64>>
    decreases ps.len(),
{
    if ps.len() == 0 {
        Some(Seq::empty())
    } else {
        match (parse_all(ps.drop_last()), parse_integer_spec(ps.last())) {
            (Some(vs), Some(v)) => Some(vs.push(v)),
            _ => None,
        }
    }
}

/// A sequence prediction: comma-separated integers.
pub open spec fn parse_sequence_spec(s: Seq<char>) -> Option<Seq<i64>> {
    let t = repl_trim(s);
    if t.len() == 0 { None } else { parse_all(parts(t, ',')) }
}

fn parse_integer_sequence(value: &str) -> (r: Option<Vec<i64>>)
    ensures
        r matches Some(v) ==> parse_sequence_spec(value@) == Some(v@),
        r is None ==> parse_sequence_spec(value@) is None,
{
    let t = crate::session::trim_text(value);
    if t.as_str().unicode_len() == 0 {
        assert(t@.len() == 0);
        return None;
    }
    let ps = split_on(t.as_str(), ',');
    let ghost pv = texts_view(ps@);
    let mut out: Vec<i64> = Vec::new();
    let mut i: usize = 0;
    while i < ps.len()
        invariant
            pv == texts_view(ps@),
            pv == parts(repl_trim(value@), ','),
            repl_trim(value@).len() > 0,
            i <= ps@.len(),
            parse_all(pv.subrange(0, i as int)) == Some(out@),
        decreases ps.len() - i,
    {
        assert(pv.subrange(0, i + 1).drop_last() =~= pv.subrange(0, i as int));
        assert(pv.subrange(0, i + 1).last() == ps@[i as int]@);
        match parse_integer(ps[i].as_str()) {
            Some(v) => out.push(v),
            None => {
                proof {
                    assert(pv[i as int] == ps@[i as int]@);
                    assert(parse_all(pv.subrange(0, i + 1)) is None);
                    lemma_parse_all_prefix_none(pv, i as int + 1);
                }
                return None;
            },
        }
        i = i + 1;
    }
    assert(pv.subrange(0, pv.len() as int) =~= pv);
    Some(out)
}

/// Once a prefix fails to read, so does the whole list.
proof fn lemma_parse_all_prefix_none(ps: Seq<Seq<char>>, k: int)
    requires
        0 <= k <= ps.len(),
        parse_all(ps.subrange(0, k)) is None,
    ensures
        parse_all(ps) is None,
    decreases ps.len() - k,
{
    if k < ps.len() {
        assert(ps.subrange(0, k + 1).drop_last() =~= ps.subrange(0, k));
        lemma_parse_all_prefix_none(ps, k + 1);
    } else {
        assert(ps.subrange(0, k) =~= ps);
    }
}

pub open spec fn plan_action(c: char) -> bool {
    c == 'A' || c == 'B' || c == 'C'
}

pub open spec fn only_actions(s: Seq<char>) -> bool {
    forall|i: int| 0 <= i < s.len() ==> plan_action(#[trigger] s[i])
}

pub open spec fn after(s: Seq<char>, prefix: Seq<char>) -> Option<Seq<char>> {
    if has_prefix(s, prefix) { Some(s.subrange(prefix.len() as int, s.len() as int)) } else { None }
}

pub open spec fn parse_usize_spec(s: Seq<char>) -> Option<usize> {
    match parse_bounded(s, usize::MAX as nat) {
        Some(v) => Some(v as usize),
        None => None,
    }
}

/// A plan prediction: `plan=<ABC...>;state=S<n>;steps=<n>`, trimmed.
pub open spec fn parse_plan_spec(s: Seq<char>) -> Option<(Seq<char>, usize, usize)> {
    let ps = parts(repl_trim(s), ';');
    if ps.len() != 3 {
        None
    } else {
        match (after(ps[0], "plan="@), after(ps[1], "state=S"@), after(ps[2], "steps="@)) {
            (Some(plan), Some(state), Some(steps)) => match (parse_usize_spec(state), parse_usize_spec(steps)) {
                (Some(st), Some(n)) => if only_actions(plan) { Some((plan, st, n)) } else { None },
                _ => None,
            },
            _ => None,
        }
    }
}

fn strip_prefix(s: &str, prefix: &str) -> (r: Option<String>)
    ensures
        r matches Some(x) ==> after(s@, prefix@) == Some(x@),
        r is None ==> after(s@, prefix@) is None,
{
    if crate::text::starts_with(s, prefix) {
        let cs = chars_of(s);
        let n = prefix.unicode_len();
        Some(string_of(&cs, n, cs.len()))
    } else {
        None
    }
}

fn parse_usize(s: &str) -> (r: Option<usize>)
    ensures
        r == parse_usize_spec(s@),
{
    match crate::text::parse_unsigned(s, usize::MAX as u64) {
        Some(v) => Some(v as usize),
        None => None,
    }
}

fn parse_plan(value: &str) -> (r: Option<(String, usize, usize)>)
    ensures
        r matches Some(x) ==> parse_plan_spec(value@) == Some((x.0@, x.1, x.2)),
        r is None ==> parse_plan_spec(value@) is None,
{
    let t = crate::session::trim_text(value);
    let ps = split_on(t.as_str(), ';');
    if ps.len() != 3 {
        return None;
    }
    let plan = match strip_prefix(ps[0].as_str(), "plan=") {
        Some(p) => p,
        None => {
            return None;
        },
    };
    let state_text = match strip_prefix(ps[1].as_str(), "state=S") {
        Some(p) => p,
        None => {
            return None;
        },
    };
    let steps_text = match strip_prefix(ps[2].as_str(), "steps=") {
        Some(p) => p,
        None => {
            return None;
        },
    };
    let state = match parse_usize(state_text.as_str()) {
        Some(v) => v,
        None => {
            return None;
        },
    };
    let steps = match parse_usize(steps_text.as_str()) {
        Some(v) => v,
        None => {
            return None;
        },
    };
    let cs = chars_of(plan.as_str());
    let mut i: usize = 0;
    while i < cs.len()
        invariant
            cs@ == plan@,
            parts(repl_trim(value@), ';').len() == 3,
            after(parts(repl_trim(value@), ';')[0], "plan="@) == Some(plan@),
            after(parts(repl_trim(value@), ';')[1], "state=S"@) == Some(state_text@),
            after(parts(repl_trim(value@), ';')[2], "steps="@) == Some(steps_text@),
            parse_usize_spec(state_text@) == Some(state),
            parse_usize_spec(steps_text@) == Some(steps),
            i <= cs.len(),
            forall|j: int| 0 <= j < i ==> plan_action(#[trigger] cs@[j]),
        decreases cs.len() - i,
    {
        if !(cs[i] == 'A' || cs[i] == 'B' || cs[i] == 'C') {
            assert(cs@ == plan@);
            assert(!plan_action(plan@[i as int]));
            return None;
        }
        i = i + 1;
    }
    Some((plan, state, steps))
}

// ---------------------------------------------------------------------------
// Scoring
// ---------------------------------------------------------------------------

pub open spec fn passed() -> CaseScore {
    CaseScore { exact: true, failure: FailureKind::Correct }
}

pub open spec fn failed(f: FailureKind) -> CaseScore {
    CaseScore { exact: false, failure: f }
}

/// The score of `prediction` against a case: exact, or the kind of failure.
pub open spec fn spec_score(case: ReasoningCase, prediction: Seq<char>) -> CaseScore {
    match case.expected {
        ReasoningAnswer::Integer(expected) => match parse_integer_spec(prediction) {
            None => failed(FailureKind::InvalidFormat),
            Some(actual) => if actual == expected {
                passed()
            } else if case.kind == ReasoningKind::VariableBinding {
                failed(FailureKind::WrongBinding)
            } else {
                failed(FailureKind::WrongValue)
            },
        },
        ReasoningAnswer::IntegerSequence(expected) => match parse_sequence_spec(prediction) {
            None => failed(FailureKind::InvalidFormat),
            Some(actual) => if actual.len() != expected@.len() {
                failed(FailureKind::WrongLength)
            } else if actual == expected@ {
                passed()
            } else {
                failed(FailureKind::WrongValue)
            },
        },
        ReasoningAnswer::Plan { actions, final_state, steps } => match parse_plan_spec(prediction) {
            None => failed(FailureKind::InvalidFormat),
            Some((a, s, n)) => if a == actions@ && s == final_state && n == steps {
                passed()
            } else {
                failed(FailureKind::WrongTransition)
            },
        },
        ReasoningAnswer::DistractorInteger { correct, distractors } => match parse_integer_spec(prediction) {
            None => failed(FailureKind::InvalidFormat),
            Some(actual) => if actual == correct {
                passed()
            } else if distractors@.contains(actual) {
                failed(FailureKind::DistractorCapture)
            } else {
                failed(FailureKind::WrongValue)
            },
        },
    }
}

fn same_ints(a: &Vec<i64>, b: &Vec<i64>) -> (r: bool)
    ensures
        r == (a@ == b@),
{
    if a.len() != b.len() {
        return false;
    }
    let mut i: usize = 0;
    while i < a.len()
        invariant
            a@.len() == b@.len(),
            i <= a@.len(),
            forall|j: int| 0 <= j < i ==> a@[j] == b@[j],
        decreases a.len() - i,
    {
        if a[i] != b[i] {
            return false;
        }
        i = i + 1;
    }
    assert(a@ =~= b@);
    true
}

fn contains_int(v: &Vec<i64>, x: i64) -> (r: bool)
    ensures
        r == v@.contains(x),
{
    let mut i: usize = 0;
    while i < v.len()
        invariant
            i <= v@.len(),
            forall|j: int| 0 <= j < i ==> v@[j] != x,
        decreases v.len() - i,
    {
        if v[i] == x {
            return true;
        }
        i = i + 1;
    }
    false
}

/// Scores one prediction against a case.
pub fn score_case(case: &ReasoningCase, prediction: &str) -> (r: CaseScore)
    ensures
        r == spec_score(*case, prediction@),
{
    match &case.expected {
        ReasoningAnswer::Integer(expected) => match parse_integer(prediction) {
            None => CaseScore { exact: false, failure: FailureKind::InvalidFormat },
            Some(actual) => if actual == *expected {
                CaseScore { exact: true, failure: FailureKind::Correct }
            } else if case.kind == ReasoningKind::VariableBinding {
                CaseScore { exact: false, failure: FailureKind::WrongBinding }
            } else {
                CaseScore { exact: false, failure: FailureKind::WrongValue }
            },
        },
        ReasoningAnswer::IntegerSequence(expected) => match parse_integer_sequence(prediction) {
            None => CaseScore { exact: false, failure: FailureKind::InvalidFormat },
            Some(actual) => if actual.len() != expected.len() {
                CaseScore { exact: false, failure: FailureKind::WrongLength }
            } else if same_ints(&actual, expected) {
                CaseScore { exact: true, failure: FailureKind::Correct }
            } else {
                CaseScore { exact: false, failure: FailureKind::WrongValue }
            },
        },
        ReasoningAnswer::Plan { actions, final_state, steps } => match parse_plan(prediction) {
            None => CaseScore { exact: false, failure: FailureKind::InvalidFormat },
            Some((a, s, n)) => if crate::text::same_text(a.as_str(), actions.as_str()) && s == *final_state && n == *steps {
                CaseScore { exact: true, failure: FailureKind::Correct }
            } else {
                CaseScore { exact: false, failure: FailureKind::WrongTransition }
            },
        },
        ReasoningAnswer::DistractorInteger { correct, distractors } => match parse_integer(prediction) {
            None => CaseScore { exact: false, failure: FailureKind::InvalidFormat },
            Some(actual) => if actual == *correct {
                CaseScore { exact: true, failure: FailureKind::Correct }
            } else if contains_int(distractors, actual) {
                CaseScore { exact: false, failure: FailureKind::DistractorCapture }
            } else {
                CaseScore { exact: false, failure: FailureKind::WrongValue }
            },
        },
    }
}

} // verus!

verus! {

// ---------------------------------------------------------------------------
// Reports
// ---------------------------------------------------------------------------

/// How many of the positions `0..n` satisfy `p`.
pub open spec fn count_upto(n: nat, p: spec_fn(int) -> bool) -> nat
    decreases n,
{
    if n == 0 {
        0
    } else {
        count_upto((n - 1) as nat, p) + if p(n - 1) { 1nat } else { 0nat }
    }
}

proof fn lemma_count_upto_bound(n: nat, p: spec_fn(int) -> bool)
    ensures
        count_upto(n, p) <= n,
    decreases n,
{
    if n > 0 {
        lemma_count_upto_bound((n - 1) as nat, p);
    }
}

/// The score of the `i`-th prediction.
pub open spec fn score_at(cases: Seq<ReasoningCase>, predictions: Seq<String>, i: int) -> CaseScore {
    spec_score(cases[i], predictions[i]@)
}

pub open spec fn is_correct(cases: Seq<ReasoningCase>, predictions: Seq<String>) -> spec_fn(int) -> bool {
    |i: int| score_at(cases, predictions, i).exact
}

pub open spec fn failed_as(cases: Seq<ReasoningCase>, predictions: Seq<String>, f: int) -> spec_fn(int) -> bool {
    |i: int| !score_at(cases, predictions, i).exact && score_at(cases, predictions, i).failure.spec_index() == Some(f as usize)
}

pub open spec fn of_kind(cases: Seq<ReasoningCase>, k: int) -> spec_fn(int) -> bool {
    |i: int| cases[i].kind.spec_index() == k
}

pub open spec fn correct_of_kind(cases: Seq<ReasoningCase>, predictions: Seq<String>, k: int) -> spec_fn(int) -> bool {
    |i: int| cases[i].kind.spec_index() == k && score_at(cases, predictions, i).exact
}

pub open spec fn of_split(cases: Seq<ReasoningCase>, k: int) -> spec_fn(int) -> bool {
    |i: int| cases[i].split.spec_index() == k
}

pub open spec fn correct_of_split(cases: Seq<ReasoningCase>, predictions: Seq<String>, k: int) -> spec_fn(int) -> bool {
    |i: int| cases[i].split.spec_index() == k && score_at(cases, predictions, i).exact
}

/// The report of the first `n` predictions.
pub open spec fn report_matches(r: ReasoningReport, cases: Seq<ReasoningCase>, predictions: Seq<String>, n: nat) -> bool {
    &&& r.correct == count_upto(n, is_correct(cases, predictions))
    &&& forall|f: int| 0 <= f < 6 ==> #[trigger] r.failure_counts@[f] == count_upto(n, failed_as(cases, predictions, f))
    &&& forall|k: int| 0 <= k < 5 ==> #[trigger] r.per_kind_total@[k] == count_upto(n, of_kind(cases, k))
    &&& forall|k: int| 0 <= k < 5 ==> #[trigger] r.per_kind_correct@[k] == count_upto(n, correct_of_kind(cases, predictions, k))
    &&& forall|k: int| 0 <= k < 3 ==> #[trigger] r.per_split_total@[k] == count_upto(n, of_split(cases, k))
    &&& forall|k: int| 0 <= k < 3 ==> #[trigger] r.per_split_correct@[k] == count_upto(n, correct_of_split(cases, predictions, k))
}

fn bump(a: &mut [usize; 6], i: usize, n: usize)
    requires
        i < 6,
        old(a)@[i as int] < n,
        n <= usize::MAX,
    ensures
        final(a)@ == old(a)@.update(i as int, (old(a)@[i as int] + 1) as usize),
{
    let v = a[i];
    a.set(i, v + 1);
}

fn bump5(a: &mut [usize; 5], i: usize, n: usize)
    requires
        i < 5,
        old(a)@[i as int] < n,
    ensures
        final(a)@ == old(a)@.update(i as int, (old(a)@[i as int] + 1) as usize),
{
    let v = a[i];
    a.set(i, v + 1);
}

fn bump3(a: &mut [usize; 3], i: usize, n: usize)
    requires
        i < 3,
        old(a)@[i as int] < n,
    ensures
        final(a)@ == old(a)@.update(i as int, (old(a)@[i as int] + 1) as usize),
{
    let v = a[i];
    a.set(i, v + 1);
}

/// Scores every prediction against its case and tallies the results by
/// failure kind, task kind and split.
pub fn score_predictions(cases: &[ReasoningCase], predictions: &[String]) -> (r: Result<ReasoningReport, ReasoningError>)
    ensures
        cases@.len() != predictions@.len() ==> r == Err::<ReasoningReport, ReasoningError>(
            ReasoningError::PredictionCountMismatch { expected: cases@.len() as usize, actual: predictions@.len() as usize }),
        cases@.len() == predictions@.len() ==> (r matches Ok(rep) && rep.total == cases@.len()
            && report_matches(rep, cases@, predictions@, cases@.len())),
{
    if cases.len() != predictions.len() {
        return Err(ReasoningError::PredictionCountMismatch { expected: cases.len(), actual: predictions.len() });
    }
    let ghost cs = cases@;
    let ghost ps = predictions@;
    let mut report = ReasoningReport {
        total: cases.len(),
        correct: 0,
        failure_counts: [0; 6],
        per_kind_total: [0; 5],
        per_kind_correct: [0; 5],
        per_split_total: [0; 3],
        per_split_correct: [0; 3],
    };
    let mut i: usize = 0;
    while i < cases.len()
        invariant
            cs == cases@,
            ps == predictions@,
            cs.len() == ps.len(),
            report.total == cs.len(),
            i <= cs.len(),
            report_matches(report, cs, ps, i as nat),
        decreases cases.len() - i,
    {
        proof {
            lemma_count_upto_bound(i as nat, is_correct(cs, ps));
            assert forall|f: int| 0 <= f < 6 implies #[trigger] report.failure_counts@[f] <= i by {
                lemma_count_upto_bound(i as nat, failed_as(cs, ps, f));
            }
            assert forall|k: int| 0 <= k < 5 implies #[trigger] report.per_kind_total@[k] <= i
                && report.per_kind_correct@[k] <= i by {
                lemma_count_upto_bound(i as nat, of_kind(cs, k));
                lemma_count_upto_bound(i as nat, correct_of_kind(cs, ps, k));
            }
            assert forall|k: int| 0 <= k < 3 implies #[trigger] report.per_split_total@[k] <= i
                && report.per_split_correct@[k] <= i by {
                lemma_count_upto_bound(i as nat, of_split(cs, k));
                lemma_count_upto_bound(i as nat, correct_of_split(cs, ps, k));
            }
        }
        let score = score_case(&cases[i], predictions[i].as_str());
        assert(score == score_at(cs, ps, i as int));
        let kind_index = cases[i].kind.index();
        let split_index = cases[i].split.index();
        let ghost before = report;
        bump5(&mut report.per_kind_total, kind_index, i + 1);
        bump3(&mut report.per_split_total, split_index, i + 1);
        if score.exact {
            report.correct = report.correct + 1;
            bump5(&mut report.per_kind_correct, kind_index, i + 1);
            bump3(&mut report.per_split_correct, split_index, i + 1);
        } else {
            match score.failure.index() {
                Some(index) => bump(&mut report.failure_counts, index, i + 1),
                None => {},
            }
        }
        proof {
            let n = (i + 1) as nat;
            assert forall|f: int| 0 <= f < 6 implies #[trigger] report.failure_counts@[f]
                == count_upto(n, failed_as(cs, ps, f)) by {
                assert(before.failure_counts@[f] == count_upto(i as nat, failed_as(cs, ps, f)));
            }
            assert forall|k: int| 0 <= k < 5 implies #[trigger] report.per_kind_total@[k]
                == count_upto(n, of_kind(cs, k)) by {
                assert(before.per_kind_total@[k] == count_upto(i as nat, of_kind(cs, k)));
            }
            assert forall|k: int| 0 <= k < 5 implies #[trigger] report.per_kind_correct@[k]
                == count_upto(n, correct_of_kind(cs, ps, k)) by {
                assert(before.per_kind_correct@[k] == count_upto(i as nat, correct_of_kind(cs, ps, k)));
            }
            assert forall|k: int| 0 <= k < 3 implies #[trigger] report.per_split_total@[k]
                == count_upto(n, of_split(cs, k)) by {
                assert(before.per_split_total@[k] == count_upto(i as nat, of_split(cs, k)));
            }
            assert forall|k: int| 0 <= k < 3 implies #[trigger] report.per_split_correct@[k]
                == count_upto(n, correct_of_split(cs, ps, k)) by {
                assert(before.per_split_correct@[k] == count_upto(i as nat, correct_of_split(cs, ps, k)));
            }
        }
        i = i + 1;
    }
    Ok(report)
}

/// The exact answer of every case, as a prediction.
pub fn oracle_predictions(cases: &[ReasoningCase]) -> (r: Vec<String>)
    ensures
        r@.len() == cases@.len(),
        forall|i: int| 0 <= i < cases@.len() ==> #[trigger] r@[i]@ == cases@[i].expected.spec_canonical(),
{
    let mut out: Vec<String> = Vec::new();
    let mut i: usize = 0;
    while i < cases.len()
        invariant
            i <= cases@.len(),
            out@.len() == i,
            forall|j: int| 0 <= j < i ==> #[trigger] out@[j]@ == cases@[j].expected.spec_canonical(),
        decreases cases.len() - i,
    {
        out.push(cases[i].expected.canonical());
        i = i + 1;
    }
    out
}

/// A case on which the deliberate regression below is defined: its number
/// leaves room for the nudge (up for a binding, down otherwise), and a
/// distractor case has a distractor.
pub open spec fn regression_ready(c: ReasoningCase) -> bool {
    match c.expected {
        ReasoningAnswer::Integer(v) => if c.kind == ReasoningKind::VariableBinding { v < i64::MAX } else { i64::MIN < v },
        ReasoningAnswer::IntegerSequence(_) => true,
        ReasoningAnswer::Plan { final_state, steps, .. } => final_state < usize::MAX && steps < usize::MAX,
        ReasoningAnswer::DistractorInteger { distractors, .. } => distractors@.len() > 0,
    }
}

/// The deliberately wrong prediction for a case: off by one (up for a
/// binding, down otherwise), a sequence cut short, a plan with one more
/// step, or the first distractor.
pub open spec fn regression_text(c: ReasoningCase) -> Seq<char> {
    match c.expected {
        ReasoningAnswer::Integer(v) => if c.kind == ReasoningKind::VariableBinding {
            dec_signed(v + 1)
        } else {
            dec_signed(v - 1)
        },
        ReasoningAnswer::IntegerSequence(vs) => if vs@.len() > 1 {
            join_ints(vs@.drop_last())
        } else {
            Seq::empty()
        },
        ReasoningAnswer::Plan { actions, final_state, steps } =>
            plan_answer_text(actions@ + "B"@, (final_state + 1) as usize, (steps + 1) as usize),
        ReasoningAnswer::DistractorInteger { distractors, .. } => dec_signed(distractors@[0] as int),
    }
}

fn regression_of(c: &ReasoningCase) -> (r: String)
    requires
        regression_ready(*c),
    ensures
        r@ == regression_text(*c),
{
    let mut out = String::new();
    match &c.expected {
        ReasoningAnswer::Integer(v) => {
            if c.kind == ReasoningKind::VariableBinding {
                push_i64(&mut out, *v + 1);
            } else {
                push_i64(&mut out, *v - 1);
            }
        },
        ReasoningAnswer::IntegerSequence(vs) => {
            if vs.len() > 1 {
                push_joined_ints(&mut out, vs, vs.len() - 1);
                assert(vs@.subrange(0, vs@.len() - 1) =~= vs@.drop_last());
            }
        },
        ReasoningAnswer::Plan { actions, final_state, steps } => {
            push_str(&mut out, "plan=");
            push_str(&mut out, actions.as_str());
            push_str(&mut out, "B");
            push_str(&mut out, ";state=S");
            push_u64(&mut out, (*final_state + 1) as u64);
            push_str(&mut out, ";steps=");
            push_u64(&mut out, (*steps + 1) as u64);
        },
        ReasoningAnswer::DistractorInteger { distractors, .. } => push_i64(&mut out, distractors[0]),
    }
    assert(out@ =~= regression_text(*c));
    out
}

/// The deliberately regressed prediction of every case.
pub fn intentional_regression_predictions(cases: &[ReasoningCase]) -> (r: Vec<String>)
    requires
        forall|i: int| 0 <= i < cases@.len() ==> regression_ready(#[trigger] cases@[i]),
    ensures
        r@.len() == cases@.len(),
        forall|i: int| 0 <= i < cases@.len() ==> #[trigger] r@[i]@ == regression_text(cases@[i]),
{
    let mut out: Vec<String> = Vec::new();
    let mut i: usize = 0;
    while i < cases.len()
        invariant
            i <= cases@.len(),
            forall|j: int| 0 <= j < cases@.len() ==> regression_ready(#[trigger] cases@[j]),
            out@.len() == i,
            forall|j: int| 0 <= j < i ==> #[trigger] out@[j]@ == regression_text(cases@[j]),
        decreases cases.len() - i,
    {
        out.push(regression_of(&cases[i]));
        i = i + 1;
    }
    out
}

} // verus!

verus! {

// ---------------------------------------------------------------------------
// Generation
// ---------------------------------------------------------------------------

/// A number below `upper` drawn from (`seed`, `index`, `stream`).
pub open spec fn spec_bounded(seed: u64, index: u64, stream: u64, upper: nat) -> int {
    ((mix64(seed, index, stream) as nat) % upper) as int
}

fn bounded(seed: u64, index: u64, stream: u64, upper: usize) -> (r: usize)
    requires
        upper > 0,
    ensures
        r as int == spec_bounded(seed, index, stream, upper as nat),
        r < upper,
{
    let v = deterministic_u64(seed, index, stream);
    (v % (upper as u64)) as usize
}

/// Difficulty and length of a case: training cases are easy and short, the
/// difficulty split is hard, and the length split is long at the upper edge
/// of the training difficulty.
pub open spec fn spec_difficulty(split: ReasoningSplit, seed: u64, index: u64) -> u8 {
    match split {
        ReasoningSplit::TrainDifficulty => (1 + spec_bounded(seed, index, 0, 2)) as u8,
        ReasoningSplit::EvalDifficulty => (3 + spec_bounded(seed, index, 0, 3)) as u8,
        ReasoningSplit::EvalLength => 2,
    }
}

pub open spec fn spec_length(split: ReasoningSplit, seed: u64, index: u64) -> usize {
    match split {
        ReasoningSplit::TrainDifficulty => (2 + spec_bounded(seed, index, 1, 3)) as usize,
        ReasoningSplit::EvalDifficulty => (3 + spec_bounded(seed, index, 1, 2)) as usize,
        ReasoningSplit::EvalLength => (7 + spec_bounded(seed, index, 1, 6)) as usize,
    }
}

fn difficulty_and_length(split: ReasoningSplit, seed: u64, index: u64) -> (r: (u8, usize))
    ensures
        r.0 == spec_difficulty(split, seed, index),
        r.1 == spec_length(split, seed, index),
        1 <= r.0 <= 5,
        2 <= r.1 <= 12,
{
    match split {
        ReasoningSplit::TrainDifficulty => {
            let difficulty = 1 + bounded(seed, index, 0, 2) as u8;
            let length = 2 + bounded(seed, index, 1, 3);
            (difficulty, length)
        },
        ReasoningSplit::EvalDifficulty => {
            let difficulty = 3 + bounded(seed, index, 0, 3) as u8;
            let length = 3 + bounded(seed, index, 1, 2);
            (difficulty, length)
        },
        ReasoningSplit::EvalLength => {
            let length = 7 + bounded(seed, index, 1, 6);
            (2, length)
        },
    }
}

/// Decimal text padded with zeros to at least five digits (`{:05}`).
pub open spec fn pad5(n: nat) -> Seq<char> {
    let d = dec(n);
    if d.len() >= 5 { d } else { Seq::new((5 - d.len()) as nat, |i: int| '0') + d }
}

fn push_pad5(out: &mut String, n: u64)
    ensures
        final(out)@ == old(out)@ + pad5(n as nat),
{
    let mut d = String::new();
    push_u64(&mut d, n);
    let len = d.as_str().unicode_len();
    let ghost before = out@;
    let mut k: usize = len;
    while k < 5
        invariant
            len == dec(n as nat).len(),
            len <= k <= 5 || (k == len && len >= 5),
            out@ == before + Seq::new((k - len) as nat, |i: int| '0'),
        decreases 5 - k,
    {
        push_str(out, "0");
        proof { reveal_strlit("0"); }
        k = k + 1;
        assert(out@ =~= before + Seq::new((k - len) as nat, |i: int| '0'));
    }
    push_str(out, d.as_str());
    assert(out@ =~= before + pad5(n as nat));
}

pub open spec fn case_id(kind: ReasoningKind, split: ReasoningSplit, index: u64) -> Seq<char> {
    kind.spec_name() + ":"@ + split.spec_name() + ":"@ + pad5(index as nat)
}

// Arithmetic composition -------------------------------------------------

/// The operation at `step`: its symbol (`+`, `-` or `*`) and its operand.
/// A hard case starts by multiplying by `2 + difficulty`.
pub open spec fn arith_op(difficulty: u8, seed: u64, index: u64, step: nat) -> (char, int) {
    if difficulty >= 3 && step == 0 {
        ('*', 2 + difficulty)
    } else {
        let count: nat = if difficulty == 1 { 2 } else { 3 };
        let selector = spec_bounded(seed, index, (20 + step) as u64, count);
        if selector == 0 {
            ('+', 1 + spec_bounded(seed, index, (100 + step) as u64, 9))
        } else if selector == 1 {
            ('-', 1 + spec_bounded(seed, index, (200 + step) as u64, 5))
        } else {
            ('*', if difficulty >= 3 { 3 + spec_bounded(seed, index, (300 + step) as u64, 3) } else { 2 })
        }
    }
}

pub open spec fn apply_op(v: int, op: (char, int)) -> int {
    if op.0 == '+' { v + op.1 } else if op.0 == '-' { v - op.1 } else { v * op.1 }
}

pub open spec fn arith_start(seed: u64, index: u64) -> int {
    2 + spec_bounded(seed, index, 10, 8)
}

/// The running value after `n` operations.
pub open spec fn arith_value(difficulty: u8, seed: u64, index: u64, n: nat) -> int
    decreases n,
{
    if n == 0 {
        arith_start(seed, index)
    } else {
        apply_op(arith_value(difficulty, seed, index, (n - 1) as nat), arith_op(difficulty, seed, index, (n - 1) as nat))
    }
}

pub open spec fn op_text(op: (char, int)) -> Seq<char> {
    (if op.0 == '+' { "+"@ } else if op.0 == '-' { "-"@ } else { "*"@ }) + dec(op.1 as nat)
}

/// The first `n` operations, separated by spaces.
pub open spec fn ops_text(difficulty: u8, seed: u64, index: u64, n: nat) -> Seq<char>
    decreases n,
{
    if n == 0 {
        Seq::empty()
    } else if n == 1 {
        op_text(arith_op(difficulty, seed, index, 0))
    } else {
        ops_text(difficulty, seed, index, (n - 1) as nat) + " "@ + op_text(arith_op(difficulty, seed, index, (n - 1) as nat))
    }
}

pub open spec fn pow8(n: nat) -> int
    decreases n,
{
    if n == 0 { 1 } else { 8 * pow8((n - 1) as nat) }
}

proof fn lemma_pow8_mono(m: nat, n: nat)
    requires
        m <= n,
    ensures
        1 <= pow8(m) <= pow8(n),
    decreases n,
{
    if n > m {
        lemma_pow8_mono(m, (n - 1) as nat);
    } else if n > 0 {
        lemma_pow8_mono(0, (n - 1) as nat);
    }
}

proof fn lemma_pow8_facts(n: nat)
    ensures
        pow8(n) >= 1,
        n <= 12 ==> pow8(n) <= 68719476736,
{
    lemma_pow8_mono(0, n);
    if n <= 12 {
        lemma_pow8_mono(n, 12);
        assert(pow8(12) == 68719476736) by {
            reveal_with_fuel(pow8, 13);
        }
    }
}

/// The operand of any operation is at most 9, and at most 7 for a product.
proof fn lemma_arith_op_bound(difficulty: u8, seed: u64, index: u64, step: nat)
    requires
        difficulty <= 5,
    ensures
        0 <= arith_op(difficulty, seed, index, step).1 <= 9,
        arith_op(difficulty, seed, index, step).0 == '*' ==> arith_op(difficulty, seed, index, step).1 <= 7,
        arith_op(difficulty, seed, index, step).0 == '+' || arith_op(difficulty, seed, index, step).0 == '-'
            || arith_op(difficulty, seed, index, step).0 == '*',
{
}

proof fn lemma_arith_bound(difficulty: u8, seed: u64, index: u64, n: nat)
    requires
        difficulty <= 5,
    ensures
        -16 * pow8(n) <= arith_value(difficulty, seed, index, n) <= 16 * pow8(n),
    decreases n,
{
    lemma_pow8_facts(n);
    if n > 0 {
        let m = (n - 1) as nat;
        lemma_arith_bound(difficulty, seed, index, m);
        lemma_pow8_facts(m);
        lemma_arith_op_bound(difficulty, seed, index, m);
        let v = arith_value(difficulty, seed, index, m);
        let op = arith_op(difficulty, seed, index, m);
        let b = 16 * pow8(m);
        assert(pow8(n) == 8 * pow8(m));
        if op.0 == '*' {
            let f = op.1;
            assert(-8 * b <= v * f <= 8 * b) by (nonlinear_arith)
                requires -b <= v <= b, 0 <= f <= 8, b >= 0;
        }
    }
}

/// One operation of an arithmetic case, applied and written down.
fn arith_step(difficulty: u8, seed: u64, index: u64, step: usize, value: i64, ops: &mut String) -> (r: i64)
    requires
        1 <= difficulty <= 5,
        step < 12,
        value as int == arith_value(difficulty, seed, index, step as nat),
    ensures
        r as int == arith_value(difficulty, seed, index, (step + 1) as nat),
        final(ops)@ == old(ops)@ + op_text(arith_op(difficulty, seed, index, step as nat)),
{
    proof {
        lemma_arith_bound(difficulty, seed, index, step as nat);
        lemma_pow8_facts(step as nat);
    }
    if difficulty >= 3 && step == 0 {
        let factor = 2 + difficulty as i64;
        push_str(ops, "*");
        push_u64(ops, factor as u64);
        assert(-16 * 68719476736 * 8 <= value * factor <= 16 * 68719476736 * 8) by (nonlinear_arith)
            requires -16 * 68719476736 <= value <= 16 * 68719476736, 0 <= factor <= 8;
        value * factor
    } else {
        let operator_count: usize = if difficulty == 1 { 2 } else { 3 };
        let selector = bounded(seed, index, 20 + step as u64, operator_count);
        if selector == 0 {
            let delta = 1 + bounded(seed, index, 100 + step as u64, 9) as i64;
            push_str(ops, "+");
            push_u64(ops, delta as u64);
            value + delta
        } else if selector == 1 {
            let delta = 1 + bounded(seed, index, 200 + step as u64, 5) as i64;
            push_str(ops, "-");
            push_u64(ops, delta as u64);
            value - delta
        } else {
            let factor: i64 = if difficulty >= 3 { 3 + bounded(seed, index, 300 + step as u64, 3) as i64 } else { 2 };
            push_str(ops, "*");
            push_u64(ops, factor as u64);
            assert(-16 * 68719476736 * 8 <= value * factor <= 16 * 68719476736 * 8) by (nonlinear_arith)
                requires -16 * 68719476736 <= value <= 16 * 68719476736, 0 <= factor <= 8;
            value * factor
        }
    }
}

fn arithmetic_case(id: String, split: ReasoningSplit, difficulty: u8, length: usize, seed: u64, index: u64)
    -> (r: ReasoningCase)
    requires
        1 <= difficulty <= 5,
        length <= 12,
    ensures
        r == (ReasoningCase {
            id,
            kind: ReasoningKind::ArithmeticComposition,
            split,
            difficulty,
            length,
            prompt: r.prompt,
            expected: ReasoningAnswer::Integer(arith_value(difficulty, seed, index, length as nat) as i64),
        }),
        r.prompt@ == "Start at "@ + dec(arith_start(seed, index) as nat) + ". Apply these operations in order: "@
            + ops_text(difficulty, seed, index, length as nat) + ". Return only the final integer."@,
        arith_value(difficulty, seed, index, length as nat) == (arith_value(difficulty, seed, index, length as nat) as i64) as int,
{
    let initial = 2 + bounded(seed, index, 10, 8) as i64;
    let mut value: i64 = initial;
    let mut ops = String::new();
    let mut step: usize = 0;
    while step < length
        invariant
            1 <= difficulty <= 5,
            length <= 12,
            step <= length,
            value as int == arith_value(difficulty, seed, index, step as nat),
            ops@ == ops_text(difficulty, seed, index, step as nat),
        decreases length - step,
    {
        if step > 0 {
            push_str(&mut ops, " ");
        }
        value = arith_step(difficulty, seed, index, step, value, &mut ops);
        step = step + 1;
    }
    let mut prompt = string_from("Start at ");
    push_u64(&mut prompt, initial as u64);
    push_str(&mut prompt, ". Apply these operations in order: ");
    push_str(&mut prompt, ops.as_str());
    push_str(&mut prompt, ". Return only the final integer.");
    ReasoningCase {
        id,
        kind: ReasoningKind::ArithmeticComposition,
        split,
        difficulty,
        length,
        prompt,
        expected: ReasoningAnswer::Integer(value),
    }
}

} // verus!

verus! {

// Algorithmic sequence ----------------------------------------------------

pub open spec fn seq_start(seed: u64, index: u64) -> int {
    spec_bounded(seed, index, 400, 11) - 5
}

pub open spec fn seq_delta(seed: u64, index: u64) -> int {
    1 + spec_bounded(seed, index, 401, 7)
}

/// The growth of the step between terms: none in an easy case, 1 or 2 in a
/// hard one.
pub open spec fn spec_acceleration(difficulty: u8, seed: u64, index: u64) -> int {
    if difficulty >= 3 { 1 + spec_bounded(seed, index, 402, 2) } else { 0 }
}

/// How much the step between terms grows in a sequence case.
pub fn sequence_acceleration(difficulty: u8, seed: u64, index: u64) -> (r: i64)
    ensures
        r as int == spec_acceleration(difficulty, seed, index),
{
    if difficulty >= 3 {
        1 + bounded(seed, index, 402, 2) as i64
    } else {
        0
    }
}

/// Term `i` of the sequence.
pub open spec fn seq_value(difficulty: u8, seed: u64, index: u64, i: nat) -> int
    decreases i,
{
    if i == 0 {
        seq_start(seed, index)
    } else {
        seq_value(difficulty, seed, index, (i - 1) as nat) + seq_delta(seed, index)
            + spec_acceleration(difficulty, seed, index) * (i - 1)
    }
}

pub open spec fn seq_values(difficulty: u8, seed: u64, index: u64, n: nat) -> Seq<i64> {
    Seq::new(n, |i: int| seq_value(difficulty, seed, index, i as nat) as i64)
}

proof fn lemma_seq_bound(difficulty: u8, seed: u64, index: u64, i: nat)
    requires
        i <= 14,
    ensures
        -5 - 40 * i <= seq_value(difficulty, seed, index, i) <= 5 + 40 * i,
    decreases i,
{
    if i > 0 {
        lemma_seq_bound(difficulty, seed, index, (i - 1) as nat);
        let a = spec_acceleration(difficulty, seed, index);
        assert(0 <= a <= 2);
        assert(0 <= a * (i - 1) <= 2 * 13) by (nonlinear_arith)
            requires 0 <= a <= 2, 1 <= i <= 14;
    }
}

fn sequence_case(id: String, split: ReasoningSplit, difficulty: u8, length: usize, seed: u64, index: u64)
    -> (r: ReasoningCase)
    requires
        length <= 12,
    ensures
        ({
            let visible: nat = if length >= 3 { length as nat } else { 3 };
            let vs = seq_values(difficulty, seed, index, visible + 2);
            &&& r.id == id
            &&& r.kind == ReasoningKind::AlgorithmicSequence
            &&& r.split == split
            &&& r.difficulty == difficulty
            &&& r.length == visible
            &&& r.prompt@ == "Continue the deterministic integer sequence: "@ + join_ints(vs.subrange(0, visible as int))
                + ". Return exactly the next two integers as a comma-separated pair."@
            &&& r.expected matches ReasoningAnswer::IntegerSequence(e) && e@ == vs.subrange(visible as int, visible + 2int)
        }),
{
    let start = bounded(seed, index, 400, 11) as i64 - 5;
    let delta = 1 + bounded(seed, index, 401, 7) as i64;
    let acceleration = sequence_acceleration(difficulty, seed, index);
    let visible: usize = if length >= 3 { length } else { 3 };
    let mut values: Vec<i64> = Vec::new();
    let mut current = start;
    let mut current_delta = delta;
    let mut i: usize = 0;
    while i < visible + 2
        invariant
            visible <= 12,
            i <= visible + 2,
            delta == seq_delta(seed, index),
            acceleration == spec_acceleration(difficulty, seed, index),
            current as int == seq_value(difficulty, seed, index, i as nat),
            current_delta as int == delta + acceleration * i,
            0 <= acceleration <= 2,
            1 <= delta <= 7,
            values@ == seq_values(difficulty, seed, index, i as nat),
        decreases visible + 2 - i,
    {
        proof {
            lemma_seq_bound(difficulty, seed, index, i as nat);
            assert(0 <= acceleration * i <= 2 * 14) by (nonlinear_arith)
                requires 0 <= acceleration <= 2, 0 <= i <= 14;
        }
        values.push(current);
        current = current + current_delta;
        current_delta = current_delta + acceleration;
        proof {
            assert(acceleration * (i + 1) == acceleration * i + acceleration) by (nonlinear_arith);
        }
        i = i + 1;
        assert(values@ =~= seq_values(difficulty, seed, index, i as nat));
    }
    let mut prompt = string_from("Continue the deterministic integer sequence: ");
    push_joined_ints(&mut prompt, &values, visible);
    push_str(&mut prompt, ". Return exactly the next two integers as a comma-separated pair.");
    let mut expected: Vec<i64> = Vec::new();
    expected.push(values[visible]);
    expected.push(values[visible + 1]);
    assert(expected@ =~= values@.subrange(visible as int, visible + 2));
    ReasoningCase {
        id,
        kind: ReasoningKind::AlgorithmicSequence,
        split,
        difficulty,
        length: visible,
        prompt,
        expected: ReasoningAnswer::IntegerSequence(expected),
    }
}

// Variable binding ----------------------------------------------------------

pub open spec fn bind_a0(seed: u64, index: u64) -> int {
    1 + spec_bounded(seed, index, 500, 9)
}

pub open spec fn bind_b0(seed: u64, index: u64) -> int {
    1 + spec_bounded(seed, index, 501, 9)
}

/// The values of `a`, `b` and `c` after `n` rebinding steps. Step `s`
/// rebinds `a`, `b` or `c` as `s % 3` says; a hard case mixes in the
/// difficulty and a doubled operand.
pub open spec fn bind_state(difficulty: u8, seed: u64, index: u64, n: nat) -> (int, int, int)
    decreases n,
{
    if n == 0 {
        (bind_a0(seed, index), bind_b0(seed, index), bind_a0(seed, index) + bind_b0(seed, index))
    } else {
        let (a, b, c) = bind_state(difficulty, seed, index, (n - 1) as nat);
        let s = (n - 1) % 3;
        let d = difficulty as int;
        if difficulty >= 3 {
            if s == 0 { (c - b + d, b, c) } else if s == 1 { (a, a + 2 * c - d, c) } else { (a, b, 2 * a - b + d) }
        } else {
            if s == 0 { (b + 1, b, c) } else if s == 1 { (a, c + 1, c) } else { (a, b, a + 1) }
        }
    }
}

pub open spec fn bind_line(difficulty: u8, s: nat) -> Seq<char> {
    if difficulty >= 3 {
        if s % 3 == 0 {
            "a=c-b+"@ + dec(difficulty as nat)
        } else if s % 3 == 1 {
            "b=a+2*c-"@ + dec(difficulty as nat)
        } else {
            "c=2*a-b+"@ + dec(difficulty as nat)
        }
    } else {
        if s % 3 == 0 { "a=b+1"@ } else if s % 3 == 1 { "b=c+1"@ } else { "c=a+1"@ }
    }
}

/// The assignments of the first `n` steps, after the three opening ones.
pub open spec fn bind_lines(difficulty: u8, seed: u64, index: u64, n: nat) -> Seq<char>
    decreases n,
{
    if n == 0 {
        "a="@ + dec(bind_a0(seed, index) as nat) + "; b="@ + dec(bind_b0(seed, index) as nat) + "; c=a+b"@
    } else {
        bind_lines(difficulty, seed, index, (n - 1) as nat) + "; "@ + bind_line(difficulty, (n - 1) as nat)
    }
}

pub open spec fn pow4(n: nat) -> int
    decreases n,
{
    if n == 0 { 1 } else { 4 * pow4((n - 1) as nat) }
}

proof fn lemma_pow4_mono(m: nat, n: nat)
    requires
        m <= n,
    ensures
        1 <= pow4(m) <= pow4(n),
    decreases n,
{
    if n > m {
        lemma_pow4_mono(m, (n - 1) as nat);
    } else if n > 0 {
        lemma_pow4_mono(0, (n - 1) as nat);
    }
}

pub open spec fn within(v: int, m: int) -> bool {
    -m <= v <= m
}

proof fn lemma_bind_bound(difficulty: u8, seed: u64, index: u64, n: nat)
    requires
        difficulty <= 5,
    ensures
        within(bind_state(difficulty, seed, index, n).0, 18 * pow4(n)),
        within(bind_state(difficulty, seed, index, n).1, 18 * pow4(n)),
        within(bind_state(difficulty, seed, index, n).2, 18 * pow4(n)),
    decreases n,
{
    lemma_pow4_mono(0, n);
    if n > 0 {
        lemma_bind_bound(difficulty, seed, index, (n - 1) as nat);
        lemma_pow4_mono(0, (n - 1) as nat);
        assert(pow4(n) == 4 * pow4((n - 1) as nat));
    }
}

/// One rebinding step, applied and written down.
fn bind_step(difficulty: u8, step: usize, a: i64, b: i64, c: i64, lines: &mut String) -> (r: (i64, i64, i64))
    requires
        1 <= difficulty <= 5,
        within(a as int, 18 * 16777216int),
        within(b as int, 18 * 16777216int),
        within(c as int, 18 * 16777216int),
    ensures
        ({
            let s = step % 3;
            let d = difficulty as int;
            (r.0 as int, r.1 as int, r.2 as int) == (if difficulty >= 3 {
                if s == 0 { (c - b + d, b as int, c as int) } else if s == 1 { (a as int, a + 2 * c - d, c as int) }
                else { (a as int, b as int, 2 * a - b + d) }
            } else {
                if s == 0 { (b + 1, b as int, c as int) } else if s == 1 { (a as int, c + 1, c as int) }
                else { (a as int, b as int, a + 1) }
            })
        }),
        final(lines)@ == old(lines)@ + "; "@ + bind_line(difficulty, step as nat),
{
    push_str(lines, "; ");
    let d = difficulty as i64;
    if difficulty >= 3 {
        if step % 3 == 0 {
            push_str(lines, "a=c-b+");
            push_u64(lines, difficulty as u64);
            (c - b + d, b, c)
        } else if step % 3 == 1 {
            push_str(lines, "b=a+2*c-");
            push_u64(lines, difficulty as u64);
            (a, a + 2 * c - d, c)
        } else {
            push_str(lines, "c=2*a-b+");
            push_u64(lines, difficulty as u64);
            (a, b, 2 * a - b + d)
        }
    } else {
        if step % 3 == 0 {
            push_str(lines, "a=b+1");
            (b + 1, b, c)
        } else if step % 3 == 1 {
            push_str(lines, "b=c+1");
            (a, c + 1, c)
        } else {
            push_str(lines, "c=a+1");
            (a, b, a + 1)
        }
    }
}

pub open spec fn bind_query(seed: u64, index: u64) -> int {
    spec_bounded(seed, index, 502, 3)
}

fn binding_case(id: String, split: ReasoningSplit, difficulty: u8, length: usize, seed: u64, index: u64)
    -> (r: ReasoningCase)
    requires
        1 <= difficulty <= 5,
        length <= 12,
    ensures
        ({
            let st = bind_state(difficulty, seed, index, length as nat);
            let q = bind_query(seed, index);
            let name = if q == 0 { "a"@ } else if q == 1 { "b"@ } else { "c"@ };
            let value = if q == 0 { st.0 } else if q == 1 { st.1 } else { st.2 };
            &&& r.id == id
            &&& r.kind == ReasoningKind::VariableBinding
            &&& r.split == split
            &&& r.difficulty == difficulty
            &&& r.length == length
            &&& r.prompt@ == "Execute assignments left-to-right: "@ + bind_lines(difficulty, seed, index, length as nat)
                + ". Return only the final value of "@ + name + "."@
            &&& r.expected == ReasoningAnswer::Integer(value as i64)
            &&& value == (value as i64) as int
        }),
{
    let a0 = 1 + bounded(seed, index, 500, 9) as i64;
    let b0 = 1 + bounded(seed, index, 501, 9) as i64;
    let mut a = a0;
    let mut b = b0;
    let mut c = a0 + b0;
    let mut lines = string_from("a=");
    push_u64(&mut lines, a0 as u64);
    push_str(&mut lines, "; b=");
    push_u64(&mut lines, b0 as u64);
    push_str(&mut lines, "; c=a+b");
    let mut step: usize = 0;
    while step < length
        invariant
            1 <= difficulty <= 5,
            length <= 12,
            step <= length,
            (a as int, b as int, c as int) == bind_state(difficulty, seed, index, step as nat),
            lines@ == bind_lines(difficulty, seed, index, step as nat),
        decreases length - step,
    {
        proof {
            lemma_bind_bound(difficulty, seed, index, step as nat);
            lemma_pow4_mono(step as nat, 12);
            assert(pow4(12) == 16777216) by {
                reveal_with_fuel(pow4, 13);
            }
        }
        let t = bind_step(difficulty, step, a, b, c, &mut lines);
        a = t.0;
        b = t.1;
        c = t.2;
        step = step + 1;
    }
    proof {
        lemma_bind_bound(difficulty, seed, index, length as nat);
        lemma_pow4_mono(length as nat, 12);
        assert(pow4(12) == 16777216) by {
            reveal_with_fuel(pow4, 13);
        }
    }
    let q = bounded(seed, index, 502, 3);
    let mut prompt = string_from("Execute assignments left-to-right: ");
    push_str(&mut prompt, lines.as_str());
    push_str(&mut prompt, ". Return only the final value of ");
    let value = if q == 0 {
        push_str(&mut prompt, "a");
        a
    } else if q == 1 {
        push_str(&mut prompt, "b");
        b
    } else {
        push_str(&mut prompt, "c");
        c
    };
    push_str(&mut prompt, ".");
    ReasoningCase {
        id,
        kind: ReasoningKind::VariableBinding,
        split,
        difficulty,
        length,
        prompt,
        expected: ReasoningAnswer::Integer(value),
    }
}

// Distractor robustness -------------------------------------------------------

pub open spec fn distractor_x(seed: u64, index: u64) -> int {
    2 + spec_bounded(seed, index, 700, 20)
}

pub open spec fn distractor_y(seed: u64, index: u64) -> int {
    2 + spec_bounded(seed, index, 701, 20)
}

/// Distractor `i`: above the correct sum by a base distance, a spacing per
/// position and some jitter; close to it in a hard case, far in an easy one.
pub open spec fn distractor_value(difficulty: u8, seed: u64, index: u64, i: nat) -> int {
    let correct = distractor_x(seed, index) + distractor_y(seed, index);
    let (base, spacing, jitter) = if difficulty >= 3 { (1int, 2int, 2nat) } else { (10int, 11int, 5nat) };
    correct + base + i * spacing + spec_bounded(seed, index, (702 + i) as u64, jitter)
}

pub open spec fn distractor_values(difficulty: u8, seed: u64, index: u64, n: nat) -> Seq<i64> {
    Seq::new(n, |i: int| distractor_value(difficulty, seed, index, i as nat) as i64)
}

pub open spec fn note_text(difficulty: u8, seed: u64, index: u64, i: nat) -> Seq<char> {
    "note"@ + dec(i + 1) + "="@ + dec_signed(distractor_value(difficulty, seed, index, i))
}

pub open spec fn notes_text(difficulty: u8, seed: u64, index: u64, n: nat) -> Seq<char>
    decreases n,
{
    if n == 0 {
        Seq::empty()
    } else if n == 1 {
        note_text(difficulty, seed, index, 0)
    } else {
        notes_text(difficulty, seed, index, (n - 1) as nat) + ", "@ + note_text(difficulty, seed, index, (n - 1) as nat)
    }
}

fn distractor_case(id: String, split: ReasoningSplit, difficulty: u8, length: usize, seed: u64, index: u64)
    -> (r: ReasoningCase)
    requires
        length <= 12,
    ensures
        ({
            let x = distractor_x(seed, index);
            let y = distractor_y(seed, index);
            &&& r.id == id
            &&& r.kind == ReasoningKind::DistractorRobustness
            &&& r.split == split
            &&& r.difficulty == difficulty
            &&& r.length == length
            &&& r.prompt@ == "Relevant facts: x="@ + dec(x as nat) + ", y="@ + dec(y as nat)
                + ". Compute x+y. Unrelated previous-run notes: "@ + notes_text(difficulty, seed, index, length as nat)
                + ". Ignore every unrelated note and return only the correct integer."@
            &&& r.expected matches ReasoningAnswer::DistractorInteger { correct, distractors }
                && correct as int == x + y
                && distractors@ == distractor_values(difficulty, seed, index, length as nat)
        }),
{
    let x = 2 + bounded(seed, index, 700, 20) as i64;
    let y = 2 + bounded(seed, index, 701, 20) as i64;
    let correct = x + y;
    let hard = difficulty >= 3;
    let base: i64 = if hard { 1 } else { 10 };
    let spacing: i64 = if hard { 2 } else { 11 };
    let jitter: usize = if hard { 2 } else { 5 };
    let mut distractors: Vec<i64> = Vec::new();
    let mut notes = String::new();
    let mut i: usize = 0;
    while i < length
        invariant
            length <= 12,
            i <= length,
            x as int == distractor_x(seed, index),
            y as int == distractor_y(seed, index),
            correct == x + y,
            hard == (difficulty >= 3),
            base == (if hard { 1int } else { 10int }),
            spacing == (if hard { 2int } else { 11int }),
            jitter == (if hard { 2nat } else { 5nat }),
            distractors@ == distractor_values(difficulty, seed, index, i as nat),
            notes@ == notes_text(difficulty, seed, index, i as nat),
        decreases length - i,
    {
        let j = bounded(seed, index, 702 + i as u64, jitter) as i64;
        assert(0 <= spacing * i <= 11 * 12) by (nonlinear_arith)
            requires 0 <= spacing <= 11, 0 <= i <= 12;
        let value = correct + base + (i as i64) * spacing + j;
        if i > 0 {
            push_str(&mut notes, ", ");
        }
        push_str(&mut notes, "note");
        push_u64(&mut notes, (i + 1) as u64);
        push_str(&mut notes, "=");
        push_i64(&mut notes, value);
        distractors.push(value);
        proof {
            assert(value as int == distractor_value(difficulty, seed, index, i as nat));
        }
        i = i + 1;
        assert(distractors@ =~= distractor_values(difficulty, seed, index, i as nat));
    }
    let mut prompt = string_from("Relevant facts: x=");
    push_u64(&mut prompt, x as u64);
    push_str(&mut prompt, ", y=");
    push_u64(&mut prompt, y as u64);
    push_str(&mut prompt, ". Compute x+y. Unrelated previous-run notes: ");
    push_str(&mut prompt, notes.as_str());
    push_str(&mut prompt, ". Ignore every unrelated note and return only the correct integer.");
    ReasoningCase {
        id,
        kind: ReasoningKind::DistractorRobustness,
        split,
        difficulty,
        length,
        prompt,
        expected: ReasoningAnswer::DistractorInteger { correct, distractors },
    }
}

} // verus!

verus! {

// Finite-state planning ------------------------------------------------------

/// The ring has `max(2 * length + 3, 7)` states.
pub open spec fn plan_states(length: usize) -> nat {
    if 2 * length + 3 >= 7 { (2 * length + 3) as nat } else { 7 }
}

pub open spec fn plan_start(seed: u64, index: u64, length: usize) -> nat {
    spec_bounded(seed, index, 600, plan_states(length)) as nat
}

pub open spec fn plan_offset(length: usize) -> nat {
    let m: nat = if length < plan_states(length) - 1 { length as nat } else { (plan_states(length) - 1) as nat };
    if m >= 1 { m } else { 1 }
}

pub open spec fn plan_target(seed: u64, index: u64, length: usize) -> nat {
    (plan_start(seed, index, length) + plan_offset(length)) % plan_states(length)
}

/// One action on a ring of `n` states.
pub open spec fn action_step(state: nat, action: char, n: nat) -> nat {
    if action == 'A' {
        (state + 1) % n
    } else if action == 'B' {
        (state + 2) % n
    } else if action == 'C' {
        (state + 3) % n
    } else {
        state
    }
}

/// The state that a plan leads to from `start`.
pub open spec fn run_plan(start: nat, plan: Seq<char>, n: nat) -> nat
    decreases plan.len(),
{
    if plan.len() == 0 {
        start
    } else {
        action_step(run_plan(start, plan.drop_last(), n), plan.last(), n)
    }
}

/// The lexicographically first shortest plan that moves `distance` states
/// forward when each action moves at most `reach` (2, or 3 when `C` is
/// allowed): one short action for the remainder, first, then the longest
/// action as often as it fits.
pub open spec fn direct_plan(distance: nat, hard: bool) -> Seq<char> {
    let reach: nat = if hard { 3 } else { 2 };
    let head = if distance % reach == 0 { Seq::empty() } else if distance % reach == 1 { seq!['A'] } else { seq!['B'] };
    head + Seq::new(distance / reach, |i: int| if hard { 'C' } else { 'B' })
}

/// The plan from `start` to `target` on a ring of `state_count` states.
fn shortest_plan(start: usize, target: usize, state_count: usize, hard: bool) -> (r: String)
    requires
        start < state_count,
        target < state_count,
        state_count <= 1000,
    ensures
        r@ == direct_plan(((target + state_count - start) % (state_count as int)) as nat, hard),
{
    let distance = (target + state_count - start) % state_count;
    let reach: usize = if hard { 3 } else { 2 };
    let mut out = String::new();
    if distance % reach == 1 {
        push_char(&mut out, 'A');
    } else if distance % reach == 2 {
        push_char(&mut out, 'B');
    }
    let ghost head = out@;
    let long = if hard { 'C' } else { 'B' };
    let count = distance / reach;
    let mut i: usize = 0;
    while i < count
        invariant
            i <= count,
            out@ == head + Seq::new(i as nat, |j: int| long),
        decreases count - i,
    {
        push_char(&mut out, long);
        i = i + 1;
        assert(out@ =~= head + Seq::new(i as nat, |j: int| long));
    }
    assert(out@ =~= direct_plan(distance as nat, hard));
    out
}

/// Runs a plan from `start` (`A`, `B`, `C` move 1, 2, 3 states).
fn apply_plan(start: usize, plan: &str, state_count: usize) -> (r: usize)
    requires
        start < state_count,
        state_count <= 1000,
    ensures
        r as nat == run_plan(start as nat, plan@, state_count as nat),
        r < state_count,
{
    let cs = chars_of(plan);
    let mut state = start;
    let mut i: usize = 0;
    while i < cs.len()
        invariant
            cs@ == plan@,
            start < state_count <= 1000,
            i <= cs.len(),
            state < state_count,
            state as nat == run_plan(start as nat, cs@.subrange(0, i as int), state_count as nat),
        decreases cs.len() - i,
    {
        assert(cs@.subrange(0, i + 1).drop_last() =~= cs@.subrange(0, i as int));
        let c = cs[i];
        if c == 'A' {
            state = (state + 1) % state_count;
        } else if c == 'B' {
            state = (state + 2) % state_count;
        } else if c == 'C' {
            state = (state + 3) % state_count;
        }
        i = i + 1;
    }
    assert(cs@.subrange(0, cs.len() as int) =~= plan@);
    state
}

pub open spec fn plan_prompt(hard: bool, states: nat, start: nat, target: nat) -> Seq<char> {
    if hard {
        "States are S0..S"@ + dec((states - 1) as nat) + ". Action A moves +1 mod "@ + dec(states)
            + "; action B moves +2 mod "@ + dec(states) + "; action C moves +3 mod "@ + dec(states)
            + ". Start at S"@ + dec(start) + ", target S"@ + dec(target)
            + ". Return the lexicographically first shortest plan using A before B before C, exactly as plan=<ABC...>;state=S<n>;steps=<n>."@
    } else {
        "States are S0..S"@ + dec((states - 1) as nat) + ". Action A moves +1 mod "@ + dec(states)
            + "; action B moves +2 mod "@ + dec(states) + ". Start at S"@ + dec(start) + ", target S"@ + dec(target)
            + ". Return the lexicographically first shortest plan using A before B, exactly as plan=<AB...>;state=S<n>;steps=<n>."@
    }
}

fn planning_case(id: String, split: ReasoningSplit, difficulty: u8, length: usize, seed: u64, index: u64)
    -> (r: ReasoningCase)
    requires
        length <= 12,
    ensures
        ({
            let n = plan_states(length);
            let start = plan_start(seed, index, length);
            let target = plan_target(seed, index, length);
            let actions = direct_plan(((target + n - start) % (n as int)) as nat, difficulty >= 3);
            &&& r.id == id
            &&& r.kind == ReasoningKind::FiniteStatePlanning
            &&& r.split == split
            &&& r.difficulty == difficulty
            &&& r.length == length
            &&& r.prompt@ == plan_prompt(difficulty >= 3, n, start, target)
            &&& r.expected matches ReasoningAnswer::Plan { actions: a, final_state, steps }
                && a@ == actions && final_state as nat == run_plan(start, actions, n) && steps == actions.len()
        }),
{
    let state_count: usize = if 2 * length + 3 >= 7 { 2 * length + 3 } else { 7 };
    let start = bounded(seed, index, 600, state_count);
    let m = if length < state_count - 1 { length } else { state_count - 1 };
    let offset = if m >= 1 { m } else { 1 };
    let target = (start + offset) % state_count;
    let hard = difficulty >= 3;
    let actions = shortest_plan(start, target, state_count, hard);
    let final_state = apply_plan(start, actions.as_str(), state_count);
    let steps = actions.as_str().unicode_len();
    let mut prompt = string_from("States are S0..S");
    push_u64(&mut prompt, (state_count - 1) as u64);
    push_str(&mut prompt, ". Action A moves +1 mod ");
    push_u64(&mut prompt, state_count as u64);
    push_str(&mut prompt, "; action B moves +2 mod ");
    push_u64(&mut prompt, state_count as u64);
    if hard {
        push_str(&mut prompt, "; action C moves +3 mod ");
        push_u64(&mut prompt, state_count as u64);
    }
    push_str(&mut prompt, ". Start at S");
    push_u64(&mut prompt, start as u64);
    push_str(&mut prompt, ", target S");
    push_u64(&mut prompt, target as u64);
    if hard {
        push_str(&mut prompt, ". Return the lexicographically first shortest plan using A before B before C, exactly as plan=<ABC...>;state=S<n>;steps=<n>.");
    } else {
        push_str(&mut prompt, ". Return the lexicographically first shortest plan using A before B, exactly as plan=<AB...>;state=S<n>;steps=<n>.");
    }
    ReasoningCase {
        id,
        kind: ReasoningKind::FiniteStatePlanning,
        split,
        difficulty,
        length,
        prompt,
        expected: ReasoningAnswer::Plan { actions, final_state, steps },
    }
}

} // verus!

verus! {

// Cases and suites ------------------------------------------------------------

/// Everything a generated case holds, for its kind, split, seed and index.
pub open spec fn case_matches(c: ReasoningCase, kind: ReasoningKind, split: ReasoningSplit, seed: u64, index: u64) -> bool {
    let d = spec_difficulty(split, seed, index);
    let len = spec_length(split, seed, index);
    &&& c.id@ == case_id(kind, split, index)
    &&& c.kind == kind
    &&& c.split == split
    &&& c.difficulty == d
    &&& match kind {
        ReasoningKind::ArithmeticComposition => {
            &&& c.length == len
            &&& c.prompt@ == "Start at "@ + dec(arith_start(seed, index) as nat) + ". Apply these operations in order: "@
                + ops_text(d, seed, index, len as nat) + ". Return only the final integer."@
            &&& c.expected == ReasoningAnswer::Integer(arith_value(d, seed, index, len as nat) as i64)
            &&& arith_value(d, seed, index, len as nat) == (arith_value(d, seed, index, len as nat) as i64) as int
        },
        ReasoningKind::AlgorithmicSequence => {
            let visible: nat = if len >= 3 { len as nat } else { 3 };
            let vs = seq_values(d, seed, index, visible + 2);
            &&& c.length == visible
            &&& c.prompt@ == "Continue the deterministic integer sequence: "@ + join_ints(vs.subrange(0, visible as int))
                + ". Return exactly the next two integers as a comma-separated pair."@
            &&& c.expected matches ReasoningAnswer::IntegerSequence(e) && e@ == vs.subrange(visible as int, visible + 2int)
        },
        ReasoningKind::VariableBinding => {
            let st = bind_state(d, seed, index, len as nat);
            let q = bind_query(seed, index);
            let name = if q == 0 { "a"@ } else if q == 1 { "b"@ } else { "c"@ };
            let value = if q == 0 { st.0 } else if q == 1 { st.1 } else { st.2 };
            &&& c.length == len
            &&& c.prompt@ == "Execute assignments left-to-right: "@ + bind_lines(d, seed, index, len as nat)
                + ". Return only the final value of "@ + name + "."@
            &&& c.expected == ReasoningAnswer::Integer(value as i64)
            &&& value == (value as i64) as int
        },
        ReasoningKind::FiniteStatePlanning => {
            let n = plan_states(len);
            let start = plan_start(seed, index, len);
            let target = plan_target(seed, index, len);
            let actions = direct_plan(((target + n - start) % (n as int)) as nat, d >= 3);
            &&& c.length == len
            &&& c.prompt@ == plan_prompt(d >= 3, n, start, target)
            &&& c.expected matches ReasoningAnswer::Plan { actions: a, final_state, steps }
                && a@ == actions && final_state as nat == run_plan(start, actions, n) && steps == actions.len()
        },
        ReasoningKind::DistractorRobustness => {
            let x = distractor_x(seed, index);
            let y = distractor_y(seed, index);
            &&& c.length == len
            &&& c.prompt@ == "Relevant facts: x="@ + dec(x as nat) + ", y="@ + dec(y as nat)
                + ". Compute x+y. Unrelated previous-run notes: "@ + notes_text(d, seed, index, len as nat)
                + ". Ignore every unrelated note and return only the correct integer."@
            &&& c.expected matches ReasoningAnswer::DistractorInteger { correct, distractors }
                && correct as int == x + y
                && distractors@ == distractor_values(d, seed, index, len as nat)
        },
    }
}

fn generate_case(kind: ReasoningKind, split: ReasoningSplit, seed: u64, index: u64) -> (r: ReasoningCase)
    ensures
        case_matches(r, kind, split, seed, index),
{
    let (difficulty, length) = difficulty_and_length(split, seed, index);
    let mut id = string_from(kind.as_str());
    push_str(&mut id, ":");
    push_str(&mut id, split.as_str());
    push_str(&mut id, ":");
    push_pad5(&mut id, index);
    match kind {
        ReasoningKind::ArithmeticComposition => arithmetic_case(id, split, difficulty, length, seed, index),
        ReasoningKind::AlgorithmicSequence => sequence_case(id, split, difficulty, length, seed, index),
        ReasoningKind::VariableBinding => binding_case(id, split, difficulty, length, seed, index),
        ReasoningKind::FiniteStatePlanning => planning_case(id, split, difficulty, length, seed, index),
        ReasoningKind::DistractorRobustness => distractor_case(id, split, difficulty, length, seed, index),
    }
}

/// The kind of the case at position `i` of a suite with `per_bucket`
/// cases per (kind, split): kinds in order, each with its three splits.
pub open spec fn kind_at_position(i: int, per_bucket: nat) -> ReasoningKind {
    ReasoningKind::spec_at(i / (3 * per_bucket) as int)
}

pub open spec fn split_at_position(i: int, per_bucket: nat) -> ReasoningSplit {
    ReasoningSplit::spec_at((i / per_bucket as int) % 3)
}

/// The generation index of the case at position `i`:
/// `kind * 10000 + split * 1000 + position in its bucket`.
pub open spec fn index_at_position(i: int, per_bucket: nat) -> u64 {
    ((i / (3 * per_bucket) as int) * 10000 + ((i / per_bucket as int) % 3) * 1000 + i % per_bucket as int) as u64
}

/// The whole suite of a profile: every position holds the case generated
/// for its kind, split and index.
pub open spec fn suite_matches(cases: Seq<ReasoningCase>, profile: ReasoningProfile, seed: u64) -> bool {
    let pb = profile.spec_per_bucket() as nat;
    &&& cases.len() == 15 * pb
    &&& forall|i: int| 0 <= i < cases.len() ==> case_matches(#[trigger] cases[i], kind_at_position(i, pb),
        split_at_position(i, pb), seed, index_at_position(i, pb))
}

proof fn lemma_position(k: int, s: int, l: int, pb: int)
    requires
        0 <= k,
        0 <= s < 3,
        0 <= l < pb,
    ensures
        ((3 * k + s) * pb + l) / pb == 3 * k + s,
        ((3 * k + s) * pb + l) % pb == l,
        ((3 * k + s) * pb + l) / (3 * pb) == k,
        (((3 * k + s) * pb + l) / pb) % 3 == s,
{
    let j = (3 * k + s) * pb + l;
    vstd::arithmetic::div_mod::lemma_fundamental_div_mod_converse(j, pb, 3 * k + s, l);
    vstd::arithmetic::div_mod::lemma_fundamental_div_mod_converse(3 * k + s, 3, k, s);
    assert(0 <= j) by (nonlinear_arith)
        requires 0 <= k, 0 <= s, 0 <= l, 0 < pb, j == (3 * k + s) * pb + l;
    vstd::arithmetic::div_mod::lemma_div_denominator(j, pb, 3);
    assert(pb * 3 == 3 * pb);
}

/// Every case of a profile: each kind in turn, each split in turn, and
/// `cases_per_kind_split` cases in each.
pub fn generate_suite(profile: ReasoningProfile, seed: u64) -> (r: Vec<ReasoningCase>)
    ensures
        suite_matches(r@, profile, seed),
{
    let per_bucket = profile.cases_per_kind_split();
    let ghost pb = per_bucket as nat;
    let mut cases: Vec<ReasoningCase> = Vec::new();
    let mut kind_index: usize = 0;
    while kind_index < 5
        invariant
            per_bucket == profile.spec_per_bucket(),
            pb == per_bucket as nat,
            kind_index <= 5,
            cases@.len() == 3 * pb * kind_index,
            forall|i: int| 0 <= i < cases@.len() ==> case_matches(#[trigger] cases@[i], kind_at_position(i, pb),
                split_at_position(i, pb), seed, index_at_position(i, pb)),
        decreases 5 - kind_index,
    {
        let kind = ReasoningKind::at(kind_index);
        let mut split_index: usize = 0;
        assert((3 * kind_index + 0) * pb == 3 * pb * kind_index) by (nonlinear_arith);
        while split_index < 3
            invariant
                per_bucket == profile.spec_per_bucket(),
                pb == per_bucket as nat,
                kind_index < 5,
                kind == ReasoningKind::spec_at(kind_index as int),
                split_index <= 3,
                cases@.len() == (3 * kind_index + split_index) * pb,
                forall|i: int| 0 <= i < cases@.len() ==> case_matches(#[trigger] cases@[i], kind_at_position(i, pb),
                    split_at_position(i, pb), seed, index_at_position(i, pb)),
            decreases 3 - split_index,
        {
            let split = ReasoningSplit::at(split_index);
            let mut local_index: usize = 0;
            while local_index < per_bucket
                invariant
                    per_bucket == profile.spec_per_bucket(),
                    pb == per_bucket as nat,
                    kind_index < 5,
                    split_index < 3,
                    kind == ReasoningKind::spec_at(kind_index as int),
                    split == ReasoningSplit::spec_at(split_index as int),
                    local_index <= per_bucket,
                    cases@.len() == (3 * kind_index + split_index) * pb + local_index,
                    forall|i: int| 0 <= i < cases@.len() ==> case_matches(#[trigger] cases@[i], kind_at_position(i, pb),
                        split_at_position(i, pb), seed, index_at_position(i, pb)),
                decreases per_bucket - local_index,
            {
                let global = kind_index * 10_000 + split_index * 1_000 + local_index;
                let c = generate_case(kind, split, seed, global as u64);
                proof {
                    lemma_position(kind_index as int, split_index as int, local_index as int, pb as int);
                    let j = cases@.len() as int;
                    assert(kind_at_position(j, pb) == kind);
                    assert(split_at_position(j, pb) == split);
                    assert(index_at_position(j, pb) == global as u64);
                }
                cases.push(c);
                local_index = local_index + 1;
            }
            split_index = split_index + 1;
        }
        proof {
            assert((3 * kind_index + 3) * pb == 3 * pb * (kind_index + 1)) by (nonlinear_arith);
        }
        kind_index = kind_index + 1;
    }
    cases
}

} // verus!

verus! {

// ---------------------------------------------------------------------------
// Reading back what the suite writes
// ---------------------------------------------------------------------------

/// A decimal integer: digits, with an optional leading minus sign.
pub open spec fn number_text(s: Seq<char>) -> bool {
    &&& s.len() > 0
    &&& forall|i: int| 0 <= i < s.len() ==> crate::text::is_digit(#[trigger] s[i]) || (i == 0 && s[i] == '-')
    &&& crate::text::is_digit(s.last())
}

proof fn lemma_number_text(v: int)
    ensures
        number_text(dec_signed(v)),
{
    if v < 0 {
        crate::text::lemma_dec_digits((-v) as nat);
        let d = dec((-v) as nat);
        let s = dec_signed(v);
        assert(s == seq!['-'] + d);
        assert forall|i: int| 0 <= i < s.len() implies crate::text::is_digit(#[trigger] s[i]) || (i == 0 && s[i] == '-') by {
            if i > 0 {
                assert(s[i] == d[i - 1]);
            }
        }
        assert(s.last() == d.last());
    } else {
        crate::text::lemma_dec_digits(v as nat);
    }
}

/// Text without a given separator.
pub open spec fn free_of(s: Seq<char>, c: char) -> bool {
    forall|i: int| 0 <= i < s.len() ==> #[trigger] s[i] != c
}

proof fn lemma_parts_single(b: Seq<char>, sep: char)
    requires
        free_of(b, sep),
    ensures
        parts(b, sep) == seq![b],
    decreases b.len(),
{
    if b.len() > 0 {
        lemma_parts_single(b.drop_last(), sep);
        assert(b.drop_last().push(b.last()) =~= b);
    } else {
        assert(b =~= Seq::<char>::empty());
    }
}

pub proof fn lemma_parts_append(a: Seq<char>, b: Seq<char>, sep: char)
    requires
        free_of(b, sep),
    ensures
        parts(a + seq![sep] + b, sep) == parts(a, sep).push(b),
    decreases b.len(),
{
    lemma_parts_nonempty(a, sep);
    if b.len() == 0 {
        assert(a + seq![sep] + b =~= (a + seq![sep]));
        assert((a + seq![sep]).drop_last() =~= a);
        assert(b =~= Seq::<char>::empty());
    } else {
        let b1 = b.drop_last();
        lemma_parts_append(a, b1, sep);
        let s = a + seq![sep] + b;
        assert(s.drop_last() =~= a + seq![sep] + b1);
        assert(s.last() == b.last());
        assert(b1.push(b.last()) =~= b);
        assert(parts(a, sep).push(b1).update(parts(a, sep).len() as int, b1.push(b.last())) =~= parts(a, sep).push(b));
    }
}

proof fn lemma_trim_plain(s: Seq<char>)
    requires
        s.len() > 0,
        !is_ws(s[0]),
        !is_ws(s.last()),
    ensures
        repl_trim(s) == s,
{
    assert(crate::session::trim_start(s) == s);
    assert(crate::session::trim_end(s) == s);
}

proof fn lemma_number_plain(s: Seq<char>)
    requires
        number_text(s),
    ensures
        repl_trim(s) == s,
        !has_ws(s),
        free_of(s, ','),
        free_of(s, ';'),
{
    assert(crate::text::is_digit(s.last()) || (s.len() == 1 && s[0] == '-'));
    assert(crate::text::is_digit(s[0]) || s[0] == '-');
    lemma_trim_plain(s);
    assert forall|i: int| 0 <= i < s.len() implies !is_ws(#[trigger] s[i]) by {
        assert(crate::text::is_digit(s[i]) || s[i] == '-');
    }
    assert forall|i: int| 0 <= i < s.len() implies #[trigger] s[i] != ',' by {
        assert(crate::text::is_digit(s[i]) || s[i] == '-');
    }
    assert forall|i: int| 0 <= i < s.len() implies #[trigger] s[i] != ';' by {
        assert(crate::text::is_digit(s[i]) || s[i] == '-');
    }
}

/// An integer written by the suite reads back as itself.
pub proof fn lemma_integer_roundtrip(v: i64)
    ensures
        parse_integer_spec(dec_signed(v as int)) == Some(v),
{
    lemma_number_text(v as int);
    lemma_number_plain(dec_signed(v as int));
    crate::text::lemma_parse_dec_signed(v as int);
}

/// Integers joined by commas read back as the same integers.
pub proof fn lemma_sequence_roundtrip(vs: Seq<i64>)
    requires
        vs.len() >= 1,
    ensures
        parse_sequence_spec(join_ints(vs)) == Some(vs),
    decreases vs.len(),
{
    lemma_join_parts(vs);
    lemma_parse_all_numbers(vs);
    let j = join_ints(vs);
    lemma_join_shape(vs);
    lemma_trim_plain(j);
}

proof fn lemma_join_shape(vs: Seq<i64>)
    requires
        vs.len() >= 1,
    ensures
        join_ints(vs).len() > 0,
        !is_ws(join_ints(vs)[0]),
        !is_ws(join_ints(vs).last()),
    decreases vs.len(),
{
    lemma_number_text(vs.last() as int);
    lemma_number_plain(dec_signed(vs.last() as int));
    let d = dec_signed(vs.last() as int);
    assert(!is_ws(d.last()));
    if vs.len() == 1 {
        lemma_number_text(vs[0] as int);
        assert(!is_ws(d[0]));
    } else {
        lemma_join_shape(vs.drop_last());
        let p = join_ints(vs.drop_last());
        assert(join_ints(vs) == p + ","@ + d);
        assert((p + ","@ + d)[0] == p[0]);
        assert((p + ","@ + d).last() == d.last());
    }
}

pub open spec fn numbers_text(vs: Seq<i64>) -> Seq<Seq<char>> {
    vs.map_values(|v: i64| dec_signed(v as int))
}

proof fn lemma_join_parts(vs: Seq<i64>)
    requires
        vs.len() >= 1,
    ensures
        parts(join_ints(vs), ',') == numbers_text(vs),
    decreases vs.len(),
{
    let d = dec_signed(vs.last() as int);
    lemma_number_text(vs.last() as int);
    lemma_number_plain(d);
    if vs.len() == 1 {
        lemma_parts_single(d, ',');
        assert(vs.last() == vs[0]);
        assert(numbers_text(vs) =~= seq![d]);
    } else {
        let front = vs.drop_last();
        lemma_join_parts(front);
        reveal_strlit(",");
        assert(","@ == seq![',']);
        assert(join_ints(vs) == join_ints(front) + seq![','] + d);
        lemma_parts_append(join_ints(front), d, ',');
        assert(numbers_text(vs) =~= numbers_text(front).push(d));
    }
}

proof fn lemma_parse_all_numbers(vs: Seq<i64>)
    ensures
        parse_all(numbers_text(vs)) == Some(vs),
    decreases vs.len(),
{
    if vs.len() > 0 {
        let front = vs.drop_last();
        lemma_parse_all_numbers(front);
        assert(numbers_text(vs).drop_last() =~= numbers_text(front));
        lemma_integer_roundtrip(vs.last());
        assert(vs =~= front.push(vs.last()));
    } else {
        assert(numbers_text(vs) =~= Seq::<Seq<char>>::empty());
        assert(vs =~= Seq::<i64>::empty());
    }
}

/// A plan written by the suite reads back as the same actions, state and
/// step count.
pub proof fn lemma_plan_roundtrip(actions: Seq<char>, state: usize, steps: usize)
    requires
        only_actions(actions),
    ensures
        parse_plan_spec(plan_answer_text(actions, state, steps)) == Some((actions, state, steps)),
{
    reveal_strlit("plan=");
    reveal_strlit(";state=S");
    reveal_strlit("state=S");
    reveal_strlit(";steps=");
    reveal_strlit("steps=");
    let ds = dec(state as nat);
    let dn = dec(steps as nat);
    lemma_number_text(state as int);
    lemma_number_text(steps as int);
    lemma_number_plain(ds);
    lemma_number_plain(dn);
    let p0 = "plan="@ + actions;
    let p1 = "state=S"@ + ds;
    let p2 = "steps="@ + dn;
    assert forall|i: int| 0 <= i < p0.len() implies #[trigger] p0[i] != ';' by {
        if i >= 5 {
            assert(p0[i] == actions[i - 5]);
            assert(plan_action(actions[i - 5]));
        }
    }
    assert forall|i: int| 0 <= i < p1.len() implies #[trigger] p1[i] != ';' by {
        if i >= 7 {
            assert(p1[i] == ds[i - 7]);
        }
    }
    assert forall|i: int| 0 <= i < p2.len() implies #[trigger] p2[i] != ';' by {
        if i >= 6 {
            assert(p2[i] == dn[i - 6]);
        }
    }
    let text = plan_answer_text(actions, state, steps);
    assert(text =~= p0 + seq![';'] + p1 + seq![';'] + p2);
    lemma_parts_single(p0, ';');
    lemma_parts_append(p0, p1, ';');
    lemma_parts_append(p0 + seq![';'] + p1, p2, ';');
    assert(text[0] == 'p');
    assert(text.last() == dn.last());
    lemma_trim_plain(text);
    let ps = parts(text, ';');
    assert(ps =~= seq![p0, p1, p2]);
    assert(p0.subrange(0, 5) =~= "plan="@);
    assert(p0.subrange(5, p0.len() as int) =~= actions);
    assert(p1.subrange(0, 7) =~= "state=S"@);
    assert(p1.subrange(7, p1.len() as int) =~= ds);
    assert(p2.subrange(0, 6) =~= "steps="@);
    assert(p2.subrange(6, p2.len() as int) =~= dn);
    crate::text::lemma_parse_dec(state as nat);
    crate::text::lemma_parse_dec(steps as nat);
}

/// A well-formed answer: a sequence has a term, a plan uses only `A`, `B`, `C`.
pub open spec fn answer_well_formed(a: ReasoningAnswer) -> bool {
    match a {
        ReasoningAnswer::IntegerSequence(vs) => vs@.len() >= 1,
        ReasoningAnswer::Plan { actions, .. } => only_actions(actions@),
        _ => true,
    }
}

/// The canonical answer of a well-formed case always scores as exact.
pub proof fn lemma_canonical_answer_is_exact(c: ReasoningCase)
    requires
        answer_well_formed(c.expected),
    ensures
        spec_score(c, c.expected.spec_canonical()) == passed(),
{
    match c.expected {
        ReasoningAnswer::Integer(v) => lemma_integer_roundtrip(v),
        ReasoningAnswer::IntegerSequence(vs) => lemma_sequence_roundtrip(vs@),
        ReasoningAnswer::Plan { actions, final_state, steps } => lemma_plan_roundtrip(actions@, final_state, steps),
        ReasoningAnswer::DistractorInteger { correct, .. } => lemma_integer_roundtrip(correct),
    }
}

} // verus!

verus! {

// ---------------------------------------------------------------------------
// What every generated suite satisfies
// ---------------------------------------------------------------------------

proof fn lemma_ranges(split: ReasoningSplit, seed: u64, index: u64)
    ensures
        1 <= spec_difficulty(split, seed, index) <= 5,
        2 <= spec_length(split, seed, index) <= 12,
{
}

proof fn lemma_direct_plan_actions(distance: nat, hard: bool)
    ensures
        only_actions(direct_plan(distance, hard)),
        direct_plan(distance, hard).len() <= distance,
{
    let reach: nat = if hard { 3 } else { 2 };
    let p = direct_plan(distance, hard);
    assert forall|i: int| 0 <= i < p.len() implies plan_action(#[trigger] p[i]) by {}
    assert(distance / reach * reach <= distance) by (nonlinear_arith)
        requires reach > 0;
}

proof fn lemma_run_plan_bound(start: nat, plan: Seq<char>, n: nat)
    requires
        start < n,
    ensures
        run_plan(start, plan, n) < n,
    decreases plan.len(),
{
    if plan.len() > 0 {
        lemma_run_plan_bound(start, plan.drop_last(), n);
    }
}

/// Facts about one generated case: its answer is well formed, the
/// deliberate regression is defined on it and never scores as exact.
proof fn lemma_case_facts(c: ReasoningCase, kind: ReasoningKind, split: ReasoningSplit, seed: u64, index: u64)
    requires
        case_matches(c, kind, split, seed, index),
    ensures
        answer_well_formed(c.expected),
        regression_ready(c),
        !spec_score(c, regression_text(c)).exact,
{
    lemma_ranges(split, seed, index);
    let d = spec_difficulty(split, seed, index);
    let len = spec_length(split, seed, index);
    match kind {
        ReasoningKind::ArithmeticComposition => {
            lemma_arith_bound(d, seed, index, len as nat);
            lemma_pow8_facts(len as nat);
            let v = arith_value(d, seed, index, len as nat);
            if c.kind == ReasoningKind::VariableBinding {
                lemma_integer_roundtrip((v + 1) as i64);
            } else {
                lemma_integer_roundtrip((v - 1) as i64);
            }
        },
        ReasoningKind::VariableBinding => {
            lemma_bind_bound(d, seed, index, len as nat);
            lemma_pow4_mono(len as nat, 12);
            assert(pow4(12) == 16777216) by {
                reveal_with_fuel(pow4, 13);
            }
            if let ReasoningAnswer::Integer(v) = c.expected {
                lemma_integer_roundtrip((v + 1) as i64);
            }
        },
        ReasoningKind::AlgorithmicSequence => {
            if let ReasoningAnswer::IntegerSequence(e) = c.expected {
                let short = e@.drop_last();
                assert(short.len() == 1);
                lemma_sequence_roundtrip(short);
            }
        },
        ReasoningKind::FiniteStatePlanning => {
            let n = plan_states(len);
            let start = plan_start(seed, index, len);
            let target = plan_target(seed, index, len);
            let distance = ((target + n - start) % (n as int)) as nat;
            lemma_direct_plan_actions(distance, d >= 3);
            lemma_run_plan_bound(start, direct_plan(distance, d >= 3), n);
            if let ReasoningAnswer::Plan { actions, final_state, steps } = c.expected {
                reveal_strlit("B");
                let longer = actions@ + "B"@;
                assert(only_actions(longer)) by {
                    assert forall|i: int| 0 <= i < longer.len() implies plan_action(#[trigger] longer[i]) by {
                        if i < actions@.len() {
                            assert(longer[i] == actions@[i]);
                        }
                    }
                }
                lemma_plan_roundtrip(longer, (final_state + 1) as usize, (steps + 1) as usize);
                assert(longer.len() != actions@.len());
            }
        },
        ReasoningKind::DistractorRobustness => {
            if let ReasoningAnswer::DistractorInteger { correct, distractors } = c.expected {
                assert(distractors@.len() == len);
                let first = distractors@[0];
                assert(first as int == distractor_value(d, seed, index, 0));
                lemma_integer_roundtrip(first);
            }
        },
    }
}

/// Every case of a generated suite: its own canonical answer scores as
/// exact, and the deliberately regressed prediction never does.
pub proof fn lemma_suite_oracle_and_regression(cases: Seq<ReasoningCase>, profile: ReasoningProfile, seed: u64)
    requires
        suite_matches(cases, profile, seed),
    ensures
        forall|i: int| 0 <= i < cases.len() ==> spec_score(#[trigger] cases[i], cases[i].expected.spec_canonical()) == passed(),
        forall|i: int| 0 <= i < cases.len() ==> regression_ready(#[trigger] cases[i]),
        forall|i: int| 0 <= i < cases.len() ==> !(#[trigger] spec_score(cases[i], regression_text(cases[i]))).exact,
{
    let pb = profile.spec_per_bucket() as nat;
    assert forall|i: int| 0 <= i < cases.len() implies spec_score(#[trigger] cases[i], cases[i].expected.spec_canonical()) == passed()
        && regression_ready(cases[i]) && !spec_score(cases[i], regression_text(cases[i])).exact by {
        lemma_case_facts(cases[i], kind_at_position(i, pb), split_at_position(i, pb), seed, index_at_position(i, pb));
        lemma_canonical_answer_is_exact(cases[i]);
    }
}

/// The splits separate difficulty from length: training cases are easy
/// (difficulty at most 2) and short (length at most 4), difficulty cases are
/// hard (at least 3), and length cases are long (at least 7) at difficulty 2.
pub proof fn lemma_suite_split_bands(cases: Seq<ReasoningCase>, profile: ReasoningProfile, seed: u64)
    requires
        suite_matches(cases, profile, seed),
    ensures
        forall|i: int| 0 <= i < cases.len() && (#[trigger] cases[i]).split == ReasoningSplit::TrainDifficulty
            ==> cases[i].difficulty <= 2 && cases[i].length <= 4,
        forall|i: int| 0 <= i < cases.len() && (#[trigger] cases[i]).split == ReasoningSplit::EvalDifficulty
            ==> cases[i].difficulty >= 3,
        forall|i: int| 0 <= i < cases.len() && (#[trigger] cases[i]).split == ReasoningSplit::EvalLength
            ==> cases[i].length >= 7 && cases[i].difficulty == 2,
{
    let pb = profile.spec_per_bucket() as nat;
    assert forall|i: int| 0 <= i < cases.len() implies {
        &&& ((#[trigger] cases[i]).split == ReasoningSplit::TrainDifficulty ==> cases[i].difficulty <= 2 && cases[i].length <= 4)
        &&& (cases[i].split == ReasoningSplit::EvalDifficulty ==> cases[i].difficulty >= 3)
        &&& (cases[i].split == ReasoningSplit::EvalLength ==> cases[i].length >= 7 && cases[i].difficulty == 2)
    } by {
        lemma_ranges(split_at_position(i, pb), seed, index_at_position(i, pb));
    }
}

/// Every (kind, split) pair has a case, and each holds exactly
/// `cases_per_kind_split` of them, in kind-then-split order.
pub proof fn lemma_suite_buckets(cases: Seq<ReasoningCase>, profile: ReasoningProfile, seed: u64, k: int, s: int, l: int)
    requires
        suite_matches(cases, profile, seed),
        0 <= k < 5,
        0 <= s < 3,
        0 <= l < profile.spec_per_bucket(),
    ensures
        ({
            let i = (3 * k + s) * profile.spec_per_bucket() + l;
            &&& 0 <= i < cases.len()
            &&& cases[i].kind == ReasoningKind::spec_at(k)
            &&& cases[i].split == ReasoningSplit::spec_at(s)
        }),
{
    let pb = profile.spec_per_bucket() as int;
    lemma_position(k, s, l, pb);
    let i = (3 * k + s) * pb + l;
    assert(i < 15 * pb) by (nonlinear_arith)
        requires 0 <= k < 5, 0 <= s < 3, 0 <= l < pb, i == (3 * k + s) * pb + l;
    assert(0 <= i) by (nonlinear_arith)
        requires 0 <= k, 0 <= s, 0 <= l, 0 < pb, i == (3 * k + s) * pb + l;
}

proof fn lemma_count_all(n: nat, p: spec_fn(int) -> bool)
    requires
        forall|i: int| 0 <= i < n ==> #[trigger] p(i),
    ensures
        count_upto(n, p) == n,
    decreases n,
{
    if n > 0 {
        lemma_count_all((n - 1) as nat, p);
    }
}

proof fn lemma_count_none(n: nat, p: spec_fn(int) -> bool)
    requires
        forall|i: int| 0 <= i < n ==> !#[trigger] p(i),
    ensures
        count_upto(n, p) == 0,
    decreases n,
{
    if n > 0 {
        lemma_count_none((n - 1) as nat, p);
    }
}

/// A report in which every prediction is exact counts every case correct
/// and no failure.
pub proof fn lemma_all_exact_report(r: ReasoningReport, cases: Seq<ReasoningCase>, predictions: Seq<String>)
    requires
        cases.len() == predictions.len(),
        report_matches(r, cases, predictions, cases.len()),
        forall|i: int| 0 <= i < cases.len() ==> #[trigger] score_at(cases, predictions, i) == passed(),
    ensures
        r.correct == cases.len(),
        forall|f: int| 0 <= f < 6 ==> #[trigger] r.failure_counts@[f] == 0,
{
    let n = cases.len() as nat;
    assert forall|i: int| 0 <= i < n implies #[trigger] is_correct(cases, predictions)(i) by {
        assert(score_at(cases, predictions, i) == passed());
    }
    lemma_count_all(n, is_correct(cases, predictions));
    assert forall|f: int| 0 <= f < 6 implies #[trigger] r.failure_counts@[f] == 0 by {
        assert forall|i: int| 0 <= i < n implies !#[trigger] failed_as(cases, predictions, f)(i) by {
            assert(score_at(cases, predictions, i) == passed());
        }
        lemma_count_none(n, failed_as(cases, predictions, f));
    }
}

/// A report in which no prediction is exact counts no case correct.
pub proof fn lemma_none_exact_report(r: ReasoningReport, cases: Seq<ReasoningCase>, predictions: Seq<String>)
    requires
        cases.len() == predictions.len(),
        report_matches(r, cases, predictions, cases.len()),
        forall|i: int| 0 <= i < cases.len() ==> !(#[trigger] score_at(cases, predictions, i)).exact,
    ensures
        r.correct == 0,
{
    let n = cases.len() as nat;
    assert forall|i: int| 0 <= i < n implies !#[trigger] is_correct(cases, predictions)(i) by {
        assert(!score_at(cases, predictions, i).exact);
    }
    lemma_count_none(n, is_correct(cases, predictions));
}

} // verus!

verus! {

// ---------------------------------------------------------------------------
// Plans on the ring
// ---------------------------------------------------------------------------

pub open spec fn action_size(a: char) -> nat {
    if a == 'A' { 1 } else if a == 'B' { 2 } else if a == 'C' { 3 } else { 0 }
}

/// How far a plan moves, before wrapping around the ring.
pub open spec fn displacement(p: Seq<char>) -> nat
    decreases p.len(),
{
    if p.len() == 0 { 0 } else { displacement(p.drop_last()) + action_size(p.last()) }
}

/// The plan uses only the actions of its case (`C` only when hard).
pub open spec fn allowed_actions(p: Seq<char>, hard: bool) -> bool {
    forall|i: int| 0 <= i < p.len() ==> (#[trigger] p[i] == 'A' || p[i] == 'B' || (hard && p[i] == 'C'))
}

proof fn lemma_run_is_displacement(start: nat, p: Seq<char>, n: nat)
    requires
        start < n,
        n > 3,
    ensures
        run_plan(start, p, n) == (start + displacement(p)) % n,
    decreases p.len(),
{
    if p.len() == 0 {
        vstd::arithmetic::div_mod::lemma_small_mod(start, n);
    } else {
        let q = p.drop_last();
        lemma_run_is_displacement(start, q, n);
        let k = action_size(p.last());
        let x = start + displacement(q);
        vstd::arithmetic::div_mod::lemma_small_mod(k, n);
        vstd::arithmetic::div_mod::lemma_add_mod_noop(x as int, k as int, n as int);
        let r = run_plan(start, q, n);
        assert(r == x % n);
        vstd::arithmetic::div_mod::lemma_small_mod(r, n);
        assert(run_plan(start, p, n) == action_step(r, p.last(), n));
    }
}

proof fn lemma_displacement_append(a: Seq<char>, b: Seq<char>)
    ensures
        displacement(a + b) == displacement(a) + displacement(b),
    decreases b.len(),
{
    if b.len() == 0 {
        assert(a + b =~= a);
    } else {
        lemma_displacement_append(a, b.drop_last());
        assert((a + b).drop_last() =~= a + b.drop_last());
        assert((a + b).last() == b.last());
    }
}

proof fn lemma_displacement_repeat(m: nat, c: char)
    ensures
        displacement(Seq::new(m, |i: int| c)) == m * action_size(c),
    decreases m,
{
    if m > 0 {
        lemma_displacement_repeat((m - 1) as nat, c);
        assert(Seq::new(m, |i: int| c).drop_last() =~= Seq::new((m - 1) as nat, |i: int| c));
        assert(m * action_size(c) == (m - 1) * action_size(c) + action_size(c)) by (nonlinear_arith);
    }
}

proof fn lemma_displacement_bound(p: Seq<char>, hard: bool)
    requires
        allowed_actions(p, hard),
    ensures
        displacement(p) <= (if hard { 3nat } else { 2nat }) * p.len(),
    decreases p.len(),
{
    if p.len() > 0 {
        let q = p.drop_last();
        assert(allowed_actions(q, hard)) by {
            assert forall|i: int| 0 <= i < q.len() implies (#[trigger] q[i] == 'A' || q[i] == 'B' || (hard && q[i] == 'C')) by {
                assert(q[i] == p[i]);
            }
        }
        lemma_displacement_bound(q, hard);
        assert(p.last() == p[p.len() - 1]);
        let reach: nat = if hard { 3 } else { 2 };
        assert(reach * p.len() == reach * q.len() + reach) by (nonlinear_arith)
            requires p.len() == q.len() + 1;
    }
}

/// The plan of a case reaches its target: from `start`, the direct plan for
/// `distance` ends `distance` states further round the ring.
pub proof fn lemma_direct_plan_reaches(start: nat, distance: nat, n: nat, hard: bool)
    requires
        start < n,
        n > 3,
    ensures
        run_plan(start, direct_plan(distance, hard), n) == (start + distance) % n,
        allowed_actions(direct_plan(distance, hard), hard),
{
    let reach: nat = if hard { 3 } else { 2 };
    let head = if distance % reach == 0 { Seq::<char>::empty() } else if distance % reach == 1 { seq!['A'] } else { seq!['B'] };
    let big = if hard { 'C' } else { 'B' };
    let tail = Seq::new(distance / reach, |i: int| big);
    assert(direct_plan(distance, hard) =~= head + tail);
    lemma_displacement_append(head, tail);
    lemma_displacement_repeat(distance / reach, big);
    assert(displacement(head) == distance % reach) by {
        if distance % reach == 0 {
            assert(head.len() == 0);
        } else {
            assert(head.len() == 1);
            assert(head.drop_last() =~= Seq::<char>::empty());
            assert(displacement(head.drop_last()) == 0);
            if distance % reach == 1 {
                assert(head.last() == 'A');
            } else {
                assert(head.last() == 'B');
                assert(distance % reach == 2);
            }
        }
    }
    assert(distance == (distance / reach) * reach + distance % reach) by (nonlinear_arith)
        requires reach > 0;
    assert((distance / reach) * action_size(big) == (distance / reach) * reach);
    lemma_run_is_displacement(start, direct_plan(distance, hard), n);
    let p = direct_plan(distance, hard);
    assert forall|i: int| 0 <= i < p.len() implies (#[trigger] p[i] == 'A' || p[i] == 'B' || (hard && p[i] == 'C')) by {}
}

/// No plan of the allowed actions that reaches the target is shorter than
/// the direct plan.
pub proof fn lemma_direct_plan_is_shortest(start: nat, distance: nat, n: nat, hard: bool, other: Seq<char>)
    requires
        start < n,
        n > 3,
        distance < n,
        allowed_actions(other, hard),
        run_plan(start, other, n) == (start + distance) % n,
    ensures
        direct_plan(distance, hard).len() <= other.len(),
{
    let reach: nat = if hard { 3 } else { 2 };
    lemma_run_is_displacement(start, other, n);
    lemma_displacement_bound(other, hard);
    let d = displacement(other);
    if d < distance {
        let x = (start + distance) as int;
        let y = (start + d) as int;
        vstd::arithmetic::div_mod::lemma_mod_equivalence(x, y, n as int);
        vstd::arithmetic::div_mod::lemma_small_mod((x - y) as nat, n);
        assert(false);
    }
    assert(distance <= reach * other.len());
    let head_len: nat = if distance % reach == 0 { 0 } else { 1 };
    assert(direct_plan(distance, hard).len() == head_len + distance / reach);
    assert(head_len + distance / reach <= other.len()) by (nonlinear_arith)
        requires
            reach > 0,
            distance <= reach * other.len(),
            head_len == (if distance % reach == 0 { 0nat } else { 1nat });
}

} // verus!

verus! {

/// A generated planning case: the plan of its answer ends on the target
/// named in its prompt, and no plan of the allowed actions reaching that
/// target is shorter.
pub proof fn lemma_planning_case(c: ReasoningCase, split: ReasoningSplit, seed: u64, index: u64)
    requires
        case_matches(c, ReasoningKind::FiniteStatePlanning, split, seed, index),
    ensures
        ({
            let len = spec_length(split, seed, index);
            let n = plan_states(len);
            let start = plan_start(seed, index, len);
            let target = plan_target(seed, index, len);
            let hard = spec_difficulty(split, seed, index) >= 3;
            c.expected matches ReasoningAnswer::Plan { actions, final_state, steps } && {
                &&& final_state as nat == target
                &&& steps == actions@.len()
                &&& allowed_actions(actions@, hard)
                &&& forall|other: Seq<char>| allowed_actions(other, hard) && run_plan(start, other, n) == target
                    ==> steps <= #[trigger] other.len()
            }
        }),
{
    let len = spec_length(split, seed, index);
    let n = plan_states(len);
    let start = plan_start(seed, index, len);
    let target = plan_target(seed, index, len);
    let hard = spec_difficulty(split, seed, index) >= 3;
    let distance = ((target + n - start) % (n as int)) as nat;
    assert(start < n && target < n);
    assert((start + distance) % n == target) by {
        vstd::arithmetic::div_mod::lemma_add_mod_noop_right(start as int, (target + n - start) as int, n as int);
        assert(start + (target + n - start) == target + n);
        vstd::arithmetic::div_mod::lemma_mod_add_multiples_vanish(target as int, n as int);
        vstd::arithmetic::div_mod::lemma_small_mod(target, n);
    }
    lemma_direct_plan_reaches(start, distance, n, hard);
    assert forall|other: Seq<char>| allowed_actions(other, hard) && run_plan(start, other, n) == target
        implies direct_plan(distance, hard).len() <= #[trigger] other.len() by {
        lemma_direct_plan_is_shortest(start, distance, n, hard, other);
    }
}

/// Two generations from the same profile and seed give the same suite.
pub proof fn lemma_suite_deterministic(a: Seq<ReasoningCase>, b: Seq<ReasoningCase>, profile: ReasoningProfile, seed: u64)
    requires
        suite_matches(a, profile, seed),
        suite_matches(b, profile, seed),
    ensures
        a.len() == b.len(),
        forall|i: int| 0 <= i < a.len() ==> (#[trigger] a[i]).spec_canonical() == b[i].spec_canonical(),
        cases_text(a) == cases_text(b),
{
    let pb = profile.spec_per_bucket() as nat;
    assert forall|i: int| 0 <= i < a.len() implies (#[trigger] a[i]).spec_canonical() == b[i].spec_canonical() by {
        assert(case_matches(a[i], kind_at_position(i, pb), split_at_position(i, pb), seed, index_at_position(i, pb)));
        assert(case_matches(b[i], kind_at_position(i, pb), split_at_position(i, pb), seed, index_at_position(i, pb)));
        assert(a[i].expected.spec_canonical() == b[i].expected.spec_canonical());
    }
    lemma_cases_text_equal(a, b);
}

proof fn lemma_cases_text_equal(a: Seq<ReasoningCase>, b: Seq<ReasoningCase>)
    requires
        a.len() == b.len(),
        forall|i: int| 0 <= i < a.len() ==> (#[trigger] a[i]).spec_canonical() == b[i].spec_canonical(),
    ensures
        cases_text(a) == cases_text(b),
    decreases a.len(),
{
    if a.len() > 0 {
        let a1 = a.drop_last();
        let b1 = b.drop_last();
        assert forall|i: int| 0 <= i < a1.len() implies (#[trigger] a1[i]).spec_canonical() == b1[i].spec_canonical() by {
            assert(a1[i] == a[i]);
            assert(b1[i] == b[i]);
        }
        lemma_cases_text_equal(a1, b1);
        assert(a.last() == a[a.len() - 1]);
    }
}

/// A prediction scores as exact exactly when it reads as the expected
/// answer: the same integer, the same integers in order, or the same plan
/// (actions, final state and step count). A plan prediction that reads as a
/// plan with other actions fails as a wrong transition, whatever its end
/// state and step count.
pub proof fn lemma_exact_means_expected_answer(c: ReasoningCase, prediction: Seq<char>)
    ensures
        c.expected matches ReasoningAnswer::Integer(e) ==>
            (spec_score(c, prediction).exact <==> parse_integer_spec(prediction) == Some(e)),
        c.expected matches ReasoningAnswer::IntegerSequence(e) ==>
            (spec_score(c, prediction).exact <==> parse_sequence_spec(prediction) == Some(e@)),
        c.expected matches ReasoningAnswer::Plan { actions, final_state, steps } ==>
            (spec_score(c, prediction).exact <==> parse_plan_spec(prediction) == Some((actions@, final_state, steps))),
        c.expected matches ReasoningAnswer::DistractorInteger { correct, distractors } ==>
            (spec_score(c, prediction).exact <==> parse_integer_spec(prediction) == Some(correct)),
        (c.expected matches ReasoningAnswer::Plan { actions, final_state, steps }
            && parse_plan_spec(prediction) matches Some(parsed) && parsed.0 != actions@) ==>
            spec_score(c, prediction) == (CaseScore { exact: false, failure: FailureKind::WrongTransition }),
        spec_score(c, prediction).exact <==> spec_score(c, prediction).failure == FailureKind::Correct,
{
}

/// How a prediction that is not exact fails: one that does not read as an
/// answer of the expected shape is badly formatted; a wrong integer is a
/// wrong binding in a binding case and a wrong value elsewhere; a sequence
/// of the wrong length is a wrong length and one of the right length a wrong
/// value; a plan is a wrong transition; an integer that is one of the
/// distractors is a distractor capture.
pub proof fn lemma_failure_taxonomy(c: ReasoningCase, prediction: Seq<char>)
    ensures
        (c.expected is Integer || c.expected is DistractorInteger) && parse_integer_spec(prediction) is None
            ==> spec_score(c, prediction).failure == FailureKind::InvalidFormat,
        c.expected is IntegerSequence && parse_sequence_spec(prediction) is None
            ==> spec_score(c, prediction).failure == FailureKind::InvalidFormat,
        c.expected is Plan && parse_plan_spec(prediction) is None
            ==> spec_score(c, prediction).failure == FailureKind::InvalidFormat,
        c.expected is Integer && parse_integer_spec(prediction) is Some
            && parse_integer_spec(prediction) != Some(c.expected->Integer_0)
            ==> spec_score(c, prediction).failure == (if c.kind == ReasoningKind::VariableBinding {
                FailureKind::WrongBinding
            } else {
                FailureKind::WrongValue
            }),
        c.expected is IntegerSequence && parse_sequence_spec(prediction) is Some
            && parse_sequence_spec(prediction)->Some_0.len() != c.expected->IntegerSequence_0@.len()
            ==> spec_score(c, prediction).failure == FailureKind::WrongLength,
        c.expected is IntegerSequence && parse_sequence_spec(prediction) is Some
            && parse_sequence_spec(prediction)->Some_0.len() == c.expected->IntegerSequence_0@.len()
            && parse_sequence_spec(prediction)->Some_0 != c.expected->IntegerSequence_0@
            ==> spec_score(c, prediction).failure == FailureKind::WrongValue,
        c.expected is DistractorInteger && parse_integer_spec(prediction) is Some
            && parse_integer_spec(prediction)->Some_0 != c.expected->correct
            ==> spec_score(c, prediction).failure == (if c.expected->distractors@.contains(parse_integer_spec(prediction)->Some_0) {
                FailureKind::DistractorCapture
            } else {
                FailureKind::WrongValue
            }),
{
}

proof fn lemma_tally_partition(cases: Seq<ReasoningCase>, predictions: Seq<String>, n: nat)
    requires
        n <= cases.len(),
        cases.len() == predictions.len(),
    ensures
        count_upto(n, is_correct(cases, predictions)) + count_upto(n, failed_as(cases, predictions, 0))
            + count_upto(n, failed_as(cases, predictions, 1)) + count_upto(n, failed_as(cases, predictions, 2))
            + count_upto(n, failed_as(cases, predictions, 3)) + count_upto(n, failed_as(cases, predictions, 4))
            + count_upto(n, failed_as(cases, predictions, 5)) == n,
        count_upto(n, of_kind(cases, 0)) + count_upto(n, of_kind(cases, 1)) + count_upto(n, of_kind(cases, 2))
            + count_upto(n, of_kind(cases, 3)) + count_upto(n, of_kind(cases, 4)) == n,
        count_upto(n, of_split(cases, 0)) + count_upto(n, of_split(cases, 1)) + count_upto(n, of_split(cases, 2)) == n,
        count_upto(n, correct_of_kind(cases, predictions, 0)) + count_upto(n, correct_of_kind(cases, predictions, 1))
            + count_upto(n, correct_of_kind(cases, predictions, 2)) + count_upto(n, correct_of_kind(cases, predictions, 3))
            + count_upto(n, correct_of_kind(cases, predictions, 4)) == count_upto(n, is_correct(cases, predictions)),
        count_upto(n, correct_of_split(cases, predictions, 0)) + count_upto(n, correct_of_split(cases, predictions, 1))
            + count_upto(n, correct_of_split(cases, predictions, 2)) == count_upto(n, is_correct(cases, predictions)),
    decreases n,
{
    if n > 0 {
        let i = n - 1;
        lemma_tally_partition(cases, predictions, (n - 1) as nat);
        lemma_exact_means_expected_answer(cases[i], predictions[i]@);
    }
}

/// A report counts each case once: its correct cases and its failures of
/// each kind add up to the total, and so do its cases per task kind and per
/// split; the correct cases per task kind, and per split, add up to the
/// correct cases.
pub proof fn lemma_report_counts_each_case_once(r: ReasoningReport, cases: Seq<ReasoningCase>, predictions: Seq<String>)
    requires
        cases.len() == predictions.len(),
        report_matches(r, cases, predictions, cases.len()),
    ensures
        r.correct + r.failure_counts@[0] + r.failure_counts@[1] + r.failure_counts@[2] + r.failure_counts@[3]
            + r.failure_counts@[4] + r.failure_counts@[5] == cases.len(),
        r.per_kind_total@[0] + r.per_kind_total@[1] + r.per_kind_total@[2] + r.per_kind_total@[3]
            + r.per_kind_total@[4] == cases.len(),
        r.per_split_total@[0] + r.per_split_total@[1] + r.per_split_total@[2] == cases.len(),
        r.per_kind_correct@[0] + r.per_kind_correct@[1] + r.per_kind_correct@[2] + r.per_kind_correct@[3]
            + r.per_kind_correct@[4] == r.correct,
        r.per_split_correct@[0] + r.per_split_correct@[1] + r.per_split_correct@[2] == r.correct,
{
    lemma_tally_partition(cases, predictions, cases.len());
    assert(r.failure_counts@[0] == count_upto(cases.len(), failed_as(cases, predictions, 0)));
    assert(r.failure_counts@[1] == count_upto(cases.len(), failed_as(cases, predictions, 1)));
    assert(r.failure_counts@[2] == count_upto(cases.len(), failed_as(cases, predictions, 2)));
    assert(r.failure_counts@[3] == count_upto(cases.len(), failed_as(cases, predictions, 3)));
    assert(r.failure_counts@[4] == count_upto(cases.len(), failed_as(cases, predictions, 4)));
    assert(r.failure_counts@[5] == count_upto(cases.len(), failed_as(cases, predictions, 5)));
    assert(r.per_kind_total@[0] == count_upto(cases.len(), of_kind(cases, 0)));
    assert(r.per_kind_total@[1] == count_upto(cases.len(), of_kind(cases, 1)));
    assert(r.per_kind_total@[2] == count_upto(cases.len(), of_kind(cases, 2)));
    assert(r.per_kind_total@[3] == count_upto(cases.len(), of_kind(cases, 3)));
    assert(r.per_kind_total@[4] == count_upto(cases.len(), of_kind(cases, 4)));
    assert(r.per_split_total@[0] == count_upto(cases.len(), of_split(cases, 0)));
    assert(r.per_split_total@[1] == count_upto(cases.len(), of_split(cases, 1)));
    assert(r.per_split_total@[2] == count_upto(cases.len(), of_split(cases, 2)));
    assert(r.per_kind_correct@[0] == count_upto(cases.len(), correct_of_kind(cases, predictions, 0)));
    assert(r.per_kind_correct@[1] == count_upto(cases.len(), correct_of_kind(cases, predictions, 1)));
    assert(r.per_kind_correct@[2] == count_upto(cases.len(), correct_of_kind(cases, predictions, 2)));
    assert(r.per_kind_correct@[3] == count_upto(cases.len(), correct_of_kind(cases, predictions, 3)));
    assert(r.per_kind_correct@[4] == count_upto(cases.len(), correct_of_kind(cases, predictions, 4)));
    assert(r.per_split_correct@[0] == count_upto(cases.len(), correct_of_split(cases, predictions, 0)));
    assert(r.per_split_correct@[1] == count_upto(cases.len(), correct_of_split(cases, predictions, 1)));
    assert(r.per_split_correct@[2] == count_upto(cases.len(), correct_of_split(cases, predictions, 2)));
}

/// How much the step from term `i + 1` to term `i + 2` exceeds the step
/// from term `i` to term `i + 1`.
pub open spec fn step_growth(w: Seq<i64>, i: int) -> int {
    (w[i + 2] - w[i + 1]) - (w[i + 1] - w[i])
}

/// The step from term `i` to term `i + 1`.
pub open spec fn step_at(w: Seq<i64>, i: int) -> int {
    w[i + 1] - w[i]
}

/// The prompt of a sequence case showing `shown`.
pub open spec fn sequence_prompt(shown: Seq<i64>) -> Seq<char> {
    "Continue the deterministic integer sequence: "@ + join_ints(shown)
        + ". Return exactly the next two integers as a comma-separated pair."@
}

proof fn lemma_seq_growth(difficulty: u8, seed: u64, index: u64, i: nat)
    ensures
        seq_value(difficulty, seed, index, i + 1) - seq_value(difficulty, seed, index, i)
            == seq_delta(seed, index) + spec_acceleration(difficulty, seed, index) * i,
        (seq_value(difficulty, seed, index, i + 2) - seq_value(difficulty, seed, index, i + 1))
            - (seq_value(difficulty, seed, index, i + 1) - seq_value(difficulty, seed, index, i))
            == spec_acceleration(difficulty, seed, index),
{
    let a = spec_acceleration(difficulty, seed, index);
    assert(a * (i + 1) - a * i == a) by (nonlinear_arith);
    assert(seq_value(difficulty, seed, index, (i + 1) as nat) == seq_value(difficulty, seed, index, i)
        + seq_delta(seed, index) + a * i);
    assert(seq_value(difficulty, seed, index, (i + 2) as nat) == seq_value(difficulty, seed, index, (i + 1) as nat)
        + seq_delta(seed, index) + a * (i + 1));
}

/// A generated sequence case asks to continue the integers its prompt
/// shows, and its expected pair continues them by the same rule: the shown
/// terms (at least three) and the expected two form one sequence whose step
/// grows by the same amount every time, and, in an easy case, never grows.
pub proof fn lemma_sequence_answer_continues_prompt(c: ReasoningCase, split: ReasoningSplit, seed: u64, index: u64)
    requires
        case_matches(c, ReasoningKind::AlgorithmicSequence, split, seed, index),
    ensures
        c.expected is IntegerSequence,
        c.expected->IntegerSequence_0@.len() == 2,
        exists|shown: Seq<i64>| #[trigger] sequence_prompt(shown) == c.prompt@ && shown.len() >= 3 && {
            let w = shown + c.expected->IntegerSequence_0@;
            &&& forall|i: int| 0 <= i && i + 2 < w.len() ==> #[trigger] step_growth(w, i) == step_growth(w, 0)
            &&& c.difficulty <= 2 ==> forall|i: int| 0 <= i && i + 1 < w.len() ==> #[trigger] step_at(w, i) == step_at(w, 0)
        },
{
    let d = spec_difficulty(split, seed, index);
    let len = spec_length(split, seed, index);
    let visible: nat = if len >= 3 { len as nat } else { 3 };
    let vs = seq_values(d, seed, index, visible + 2);
    let e = c.expected->IntegerSequence_0@;
    let shown = vs.subrange(0, visible as int);
    let w = shown + e;
    assert(w =~= vs);
    assert(len <= 12);
    assert forall|j: int| 0 <= j < vs.len() implies vs[j] as int == seq_value(d, seed, index, j as nat) by {
        lemma_seq_bound(d, seed, index, j as nat);
    }
    assert forall|i: int| 0 <= i && i + 2 < w.len() implies #[trigger] step_growth(w, i) == step_growth(w, 0) by {
        lemma_seq_growth(d, seed, index, i as nat);
        lemma_seq_growth(d, seed, index, 0);
        assert(vs[i] as int == seq_value(d, seed, index, i as nat));
        assert(vs[i + 1] as int == seq_value(d, seed, index, (i + 1) as nat));
        assert(vs[i + 2] as int == seq_value(d, seed, index, (i + 2) as nat));
        assert(vs[0] as int == seq_value(d, seed, index, 0));
        assert(vs[1] as int == seq_value(d, seed, index, 1));
        assert(vs[2] as int == seq_value(d, seed, index, 2));
    }
    if c.difficulty <= 2 {
        assert forall|i: int| 0 <= i && i + 1 < w.len() implies #[trigger] step_at(w, i) == step_at(w, 0) by {
            lemma_seq_growth(d, seed, index, i as nat);
            lemma_seq_growth(d, seed, index, 0);
            assert(vs[i] as int == seq_value(d, seed, index, i as nat));
            assert(vs[i + 1] as int == seq_value(d, seed, index, (i + 1) as nat));
            assert(vs[0] as int == seq_value(d, seed, index, 0));
            assert(vs[1] as int == seq_value(d, seed, index, 1));
        }
    }
    assert(sequence_prompt(shown) == c.prompt@);
}

/// Operations as a prompt writes them: each its symbol followed by its
/// operand in decimal, separated by single spaces.
pub open spec fn written_ops(ops: Seq<(char, nat)>) -> Seq<char>
    decreases ops.len(),
{
    if ops.len() == 0 {
        Seq::empty()
    } else if ops.len() == 1 {
        seq![ops[0].0] + dec(ops[0].1)
    } else {
        written_ops(ops.drop_last()) + seq![' ', ops.last().0] + dec(ops.last().1)
    }
}

/// `start` with the operations applied in order: `+d` adds `d`, `-d`
/// subtracts `d`, `*d` multiplies by `d`.
pub open spec fn evaluate_written(start: int, ops: Seq<(char, nat)>) -> int
    decreases ops.len(),
{
    if ops.len() == 0 {
        start
    } else {
        let v = evaluate_written(start, ops.drop_last());
        let d = ops.last().1 as int;
        if ops.last().0 == '+' {
            v + d
        } else if ops.last().0 == '-' {
            v - d
        } else {
            v * d
        }
    }
}

/// The prompt of an arithmetic case starting at `start` with `ops`.
pub open spec fn arithmetic_prompt(start: nat, ops: Seq<(char, nat)>) -> Seq<char> {
    "Start at "@ + dec(start) + ". Apply these operations in order: "@ + written_ops(ops)
        + ". Return only the final integer."@
}

/// The operations of a generated arithmetic case, as symbol and operand.
spec fn case_ops(difficulty: u8, seed: u64, index: u64, n: nat) -> Seq<(char, nat)> {
    Seq::new(n, |i: int| (arith_op(difficulty, seed, index, i as nat).0, arith_op(difficulty, seed, index, i as nat).1 as nat))
}

/// Every operation has one of the three symbols and a non-negative operand.
proof fn lemma_op_shape(difficulty: u8, seed: u64, index: u64, step: nat)
    ensures
        arith_op(difficulty, seed, index, step).1 >= 0,
        arith_op(difficulty, seed, index, step).0 == '+' || arith_op(difficulty, seed, index, step).0 == '-'
            || arith_op(difficulty, seed, index, step).0 == '*',
{
}

proof fn lemma_case_ops_shape(difficulty: u8, seed: u64, index: u64, n: nat)
    ensures
        forall|i: int| 0 <= i < n ==> (#[trigger] case_ops(difficulty, seed, index, n)[i]).0 == '+'
            || case_ops(difficulty, seed, index, n)[i].0 == '-' || case_ops(difficulty, seed, index, n)[i].0 == '*',
{
    let ops = case_ops(difficulty, seed, index, n);
    assert forall|i: int| 0 <= i < n implies (#[trigger] ops[i]).0 == '+' || ops[i].0 == '-' || ops[i].0 == '*' by {
        lemma_op_shape(difficulty, seed, index, i as nat);
    }
}

/// Writing one more operation after others.
proof fn lemma_written_push(ops: Seq<(char, nat)>, op: (char, int))
    requires
        op.1 >= 0,
        op.0 == '+' || op.0 == '-' || op.0 == '*',
    ensures
        written_ops(ops.push((op.0, op.1 as nat))) == if ops.len() == 0 {
            op_text(op)
        } else {
            written_ops(ops) + " "@ + op_text(op)
        },
{
    reveal_strlit("+");
    reveal_strlit("-");
    reveal_strlit("*");
    reveal_strlit(" ");
    let next = ops.push((op.0, op.1 as nat));
    assert(next.drop_last() =~= ops);
    assert(op_text(op) =~= seq![op.0] + dec(op.1 as nat));
    if ops.len() == 0 {
        assert(next[0] == next.last());
    } else {
        assert(written_ops(next) =~= written_ops(ops) + " "@ + op_text(op));
    }
}

/// Applying one more operation after others.
proof fn lemma_evaluate_push(start: int, ops: Seq<(char, nat)>, op: (char, int))
    requires
        op.1 >= 0,
    ensures
        evaluate_written(start, ops.push((op.0, op.1 as nat))) == apply_op(evaluate_written(start, ops), op),
{
    let next = ops.push((op.0, op.1 as nat));
    assert(next.drop_last() =~= ops);
}

proof fn lemma_case_ops_text(difficulty: u8, seed: u64, index: u64, n: nat)
    ensures
        written_ops(case_ops(difficulty, seed, index, n)) == ops_text(difficulty, seed, index, n),
    decreases n,
{
    if n > 0 {
        let m = (n - 1) as nat;
        lemma_case_ops_text(difficulty, seed, index, m);
        lemma_op_shape(difficulty, seed, index, m);
        let op = arith_op(difficulty, seed, index, m);
        assert(case_ops(difficulty, seed, index, n) =~= case_ops(difficulty, seed, index, m).push((op.0, op.1 as nat)));
        lemma_written_push(case_ops(difficulty, seed, index, m), op);
    }
}

proof fn lemma_case_ops_value(difficulty: u8, seed: u64, index: u64, n: nat)
    ensures
        evaluate_written(arith_start(seed, index), case_ops(difficulty, seed, index, n)) == arith_value(difficulty, seed, index, n),
    decreases n,
{
    if n > 0 {
        let m = (n - 1) as nat;
        lemma_case_ops_value(difficulty, seed, index, m);
        lemma_op_shape(difficulty, seed, index, m);
        let op = arith_op(difficulty, seed, index, m);
        assert(case_ops(difficulty, seed, index, n) =~= case_ops(difficulty, seed, index, m).push((op.0, op.1 as nat)));
        lemma_evaluate_push(arith_start(seed, index), case_ops(difficulty, seed, index, m), op);
    }
}

/// The expected answer of a generated arithmetic case is what its prompt
/// asks for: the prompt names a start value and operations, and the answer
/// is the start with the written operations applied in order, a `-d`
/// subtracting `d`.
pub proof fn lemma_arithmetic_answer_follows_prompt(c: ReasoningCase, split: ReasoningSplit, seed: u64, index: u64)
    requires
        case_matches(c, ReasoningKind::ArithmeticComposition, split, seed, index),
    ensures
        exists|start: nat, ops: Seq<(char, nat)>| #[trigger] arithmetic_prompt(start, ops) == c.prompt@
            && (forall|i: int| 0 <= i < ops.len() ==> (#[trigger] ops[i]).0 == '+' || ops[i].0 == '-' || ops[i].0 == '*')
            && c.expected == ReasoningAnswer::Integer(evaluate_written(start as int, ops) as i64)
            && evaluate_written(start as int, ops) == (evaluate_written(start as int, ops) as i64) as int,
{
    let d = spec_difficulty(split, seed, index);
    let len = spec_length(split, seed, index);
    lemma_case_ops_text(d, seed, index, len as nat);
    lemma_case_ops_value(d, seed, index, len as nat);
    lemma_case_ops_shape(d, seed, index, len as nat);
    let ops = case_ops(d, seed, index, len as nat);
    let start = arith_start(seed, index) as nat;
    assert(arithmetic_prompt(start, ops) == c.prompt@);
}

/// In a generated suite, every arithmetic case's expected answer is what
/// its prompt asks for (see `lemma_arithmetic_answer_follows_prompt`).
pub proof fn lemma_suite_arithmetic_answers(cases: Seq<ReasoningCase>, profile: ReasoningProfile, seed: u64, i: int)
    requires
        suite_matches(cases, profile, seed),
        0 <= i < cases.len(),
        cases[i].kind == ReasoningKind::ArithmeticComposition,
    ensures
        exists|start: nat, ops: Seq<(char, nat)>| #[trigger] arithmetic_prompt(start, ops) == cases[i].prompt@
            && (forall|j: int| 0 <= j < ops.len() ==> (#[trigger] ops[j]).0 == '+' || ops[j].0 == '-' || ops[j].0 == '*')
            && cases[i].expected == ReasoningAnswer::Integer(evaluate_written(start as int, ops) as i64)
            && evaluate_written(start as int, ops) == (evaluate_written(start as int, ops) as i64) as int,
{
    let pb = profile.spec_per_bucket() as nat;
    assert(case_matches(cases[i], kind_at_position(i, pb), split_at_position(i, pb), seed, index_at_position(i, pb)));
    lemma_arithmetic_answer_follows_prompt(cases[i], split_at_position(i, pb), seed, index_at_position(i, pb));
}

} // verus!
