//! Inventory of `unsafe` in Rust sources and the untrusted-input limits.
//! The library scans texts; walking a directory tree is the caller's part.

use vstd::prelude::*;
use crate::planner::{ascii_alnum, is_ws};
use crate::protocol_text::{lines_of, split_lines, strings_view};
use crate::session::{repl_trim, trim_text};
use crate::text::{chars_of, dec, has_prefix, has_prefix_at, push_str, push_u64, starts_with, string_from};

verus! {

/// Engine and tooling code is safe Rust only.
pub const EXPECTED_UNSAFE_BLOCKS: usize = 0;
/// Checkpoint string payload cap (bytes), as the checkpoint loader has it.
pub const MAX_CHECKPOINT_STRING: u32 = 1_048_576;
/// BPE table cap, as the checkpoint loader has it.
pub const MAX_BPE_TABLE: u32 = 65_536;

#[derive(Clone, Debug, PartialEq, Eq)]
pub struct UnsafeHit {
    pub path: String,
    pub line: usize,
    pub text: String,
}

#[derive(Clone, Debug, PartialEq, Eq)]
pub struct SecReport {
    pub files_scanned: usize,
    pub hits: Vec<UnsafeHit>,
}

pub open spec fn hit_line_text(h: UnsafeHit) -> Seq<char> {
    "unsafe | "@ + h.path@ + ":"@ + dec(h.line as nat) + " "@ + h.text@ + "\n"@
}

pub open spec fn hits_text(hs: Seq<UnsafeHit>) -> Seq<char>
    decreases hs.len(),
{
    if hs.len() == 0 { Seq::empty() } else { hits_text(hs.drop_last()) + hit_line_text(hs.last()) }
}

impl SecReport {
    pub open spec fn spec_human(self) -> Seq<char> {
        "sec-audit | files="@ + dec(self.files_scanned as nat) + " unsafe_hits="@ + dec(self.hits@.len())
            + " expected=0\n"@ + hits_text(self.hits@) + "limits | MAX_CHECKPOINT_STRING=1048576 MAX_BPE_TABLE=65536\n"@
    }

    /// The report as text: a header, one line per hit, and the limits.
    pub fn human(&self) -> (r: String)
        ensures
            r@ == self.spec_human(),
    {
        let mut out = string_from("sec-audit | files=");
        push_u64(&mut out, self.files_scanned as u64);
        push_str(&mut out, " unsafe_hits=");
        push_u64(&mut out, self.hits.len() as u64);
        push_str(&mut out, " expected=0\n");
        let ghost head = out@;
        let mut i: usize = 0;
        while i < self.hits.len()
            invariant
                i <= self.hits@.len(),
                out@ == head + hits_text(self.hits@.subrange(0, i as int)),
            decreases self.hits.len() - i,
        {
            assert(self.hits@.subrange(0, i + 1).drop_last() =~= self.hits@.subrange(0, i as int));
            let hit = &self.hits[i];
            push_str(&mut out, "unsafe | ");
            push_str(&mut out, hit.path.as_str());
            push_str(&mut out, ":");
            push_u64(&mut out, hit.line as u64);
            push_str(&mut out, " ");
            push_str(&mut out, hit.text.as_str());
            push_str(&mut out, "\n");
            i = i + 1;
            assert(out@ =~= head + hits_text(self.hits@.subrange(0, i as int)));
        }
        assert(self.hits@.subrange(0, self.hits@.len() as int) =~= self.hits@);
        push_str(&mut out, "limits | MAX_CHECKPOINT_STRING=1048576 MAX_BPE_TABLE=65536\n");
        out
    }

    /// Whether the sources hold exactly the expected number of `unsafe`.
    pub fn ok(&self) -> (r: bool)
        ensures
            r == (self.hits@.len() == EXPECTED_UNSAFE_BLOCKS),
    {
        self.hits.len() == EXPECTED_UNSAFE_BLOCKS
    }
}

/// The first position at which `needle` occurs in `s`.
pub open spec fn first_at(s: Seq<char>, needle: Seq<char>, i: int) -> bool {
    &&& 0 <= i && i + needle.len() <= s.len()
    &&& s.subrange(i, i + needle.len()) == needle
    &&& forall|k: int| 0 <= k < i ==> #[trigger] s.subrange(k, k + needle.len()) != needle
}

pub open spec fn occurs(s: Seq<char>, needle: Seq<char>) -> bool {
    exists|i: int| first_at(s, needle, i)
}

/// A character that can continue an identifier.
pub open spec fn word_char(c: char) -> bool {
    ascii_alnum(c) || c == '_'
}

/// A line of code (not a comment line) in which the first `unsafe` stands
/// as a word of its own.
pub open spec fn unsafe_line(line: Seq<char>) -> bool {
    let t = repl_trim(line);
    if has_prefix(t, "//"@) || has_prefix(t, "*"@) || has_prefix(t, "///"@) {
        false
    } else if !occurs(t, "unsafe"@) {
        false
    } else {
        let i = choose|i: int| first_at(t, "unsafe"@, i);
        &&& (i == 0 || !word_char(t[i - 1]))
        &&& (i + 6 >= t.len() || !word_char(t[i + 6]))
    }
}

fn is_word_char(c: char) -> (r: bool)
    ensures
        r == word_char(c),
{
    ('a' <= c && c <= 'z') || ('A' <= c && c <= 'Z') || ('0' <= c && c <= '9') || c == '_'
}

proof fn lemma_first_at_unique(s: Seq<char>, needle: Seq<char>, i: int, j: int)
    requires
        first_at(s, needle, i),
        first_at(s, needle, j),
    ensures
        i == j,
{
    if i < j {
        assert(s.subrange(i, i + needle.len()) == needle);
    } else if j < i {
        assert(s.subrange(j, j + needle.len()) == needle);
    }
}

fn is_code_unsafe_line(line: &str) -> (r: bool)
    ensures
        r == unsafe_line(line@),
{
    proof { reveal_strlit("unsafe"); }
    let trimmed = trim_text(line);
    let t = trimmed.as_str();
    if starts_with(t, "//") || starts_with(t, "*") || starts_with(t, "///") {
        return false;
    }
    let cs = chars_of(t);
    let needle = chars_of("unsafe");
    let n = needle.len();
    assert(n == 6);
    if cs.len() < n {
        assert(!occurs(t@, "unsafe"@));
        return false;
    }
    let last = cs.len() - n;
    let mut i: usize = 0;
    while i <= last
        invariant
            cs@ == t@,
            t@ == repl_trim(line@),
            !has_prefix(t@, "//"@) && !has_prefix(t@, "*"@) && !has_prefix(t@, "///"@),
            needle@ == "unsafe"@,
            n == 6,
            "unsafe"@.len() == 6,
            last == cs.len() - n,
            i <= last + 1,
            forall|k: int| 0 <= k < i ==> #[trigger] t@.subrange(k, k + "unsafe"@.len()) != "unsafe"@,
        decreases last + 1 - i,
    {
        assert(cs@.subrange(i as int, cs.len() as int).subrange(0, 6) =~= cs@.subrange(i as int, i + 6));
        if has_prefix_at(&cs, i, &needle) {
            assert(first_at(t@, "unsafe"@, i as int));
            proof {
                assert forall|j: int| first_at(t@, "unsafe"@, j) implies j == i by {
                    lemma_first_at_unique(t@, "unsafe"@, i as int, j);
                }
                assert(occurs(t@, "unsafe"@));
                let j = choose|j: int| first_at(t@, "unsafe"@, j);
                assert(j == i);
                assert(t@ == repl_trim(line@));
            }
            let start_ok = i == 0 || !is_word_char(cs[i - 1]);
            let end_ok = i + 6 >= cs.len() || !is_word_char(cs[i + 6]);
            return start_ok && end_ok;
        }
        i = i + 1;
    }
    assert forall|j: int| !first_at(t@, "unsafe"@, j) by {
        if first_at(t@, "unsafe"@, j) {
            assert(j < i);
        }
    }
    false
}

pub open spec fn hit_matches(h: UnsafeHit, path: Seq<char>, line_no: nat, text: Seq<char>) -> bool {
    h.path@ == path && h.line == line_no && h.text@ == text
}

/// The hits among the first `n` lines: one per `unsafe` code line, with
/// its 1-based number and its trimmed text.
pub open spec fn hits_upto(lines: Seq<Seq<char>>, n: nat) -> Seq<(nat, Seq<char>)>
    decreases n,
{
    if n == 0 {
        Seq::empty()
    } else {
        let rest = hits_upto(lines, (n - 1) as nat);
        if unsafe_line(lines[n - 1]) { rest.push((n, repl_trim(lines[n - 1]))) } else { rest }
    }
}

pub open spec fn hits_of(hs: Seq<UnsafeHit>, path: Seq<char>, want: Seq<(nat, Seq<char>)>) -> bool {
    &&& hs.len() == want.len()
    &&& forall|k: int| 0 <= k < hs.len() ==> hit_matches(#[trigger] hs[k], path, want[k].0, want[k].1)
}

/// Every line of code in `text` that uses `unsafe`.
pub fn scan_source(text: &str, path: &str) -> (r: Vec<UnsafeHit>)
    ensures
        hits_of(r@, path@, hits_upto(lines_of(text@), lines_of(text@).len())),
{
    let lines = split_lines(text);
    let ghost ls = lines_of(text@);
    let mut hits: Vec<UnsafeHit> = Vec::new();
    let mut i: usize = 0;
    while i < lines.len()
        invariant
            strings_view(lines@) == ls,
            lines@.len() == ls.len(),
            i <= lines@.len(),
            hits_of(hits@, path@, hits_upto(ls, i as nat)),
        decreases lines.len() - i,
    {
        assert(lines@[i as int]@ == ls[i as int]);
        if is_code_unsafe_line(lines[i].as_str()) {
            let ghost before = hits@;
            hits.push(UnsafeHit { path: string_from(path), line: i + 1, text: trim_text(lines[i].as_str()) });
            assert forall|k: int| 0 <= k < hits@.len() implies hit_matches(#[trigger] hits@[k], path@,
                hits_upto(ls, (i + 1) as nat)[k].0, hits_upto(ls, (i + 1) as nat)[k].1) by {
                if k < before.len() {
                    assert(hits@[k] == before[k]);
                }
            }
        }
        i = i + 1;
    }
    hits
}

pub open spec fn scanned(hs: Seq<UnsafeHit>, files: Seq<(String, String)>, n: nat) -> bool
    decreases n,
{
    if n == 0 {
        hs.len() == 0
    } else {
        exists|k: int| 0 <= k <= hs.len() && scanned(hs.subrange(0, k), files, (n - 1) as nat)
            && hits_of(hs.subrange(k, hs.len() as int), files[n - 1].0@,
                hits_upto(lines_of(files[n - 1].1@), lines_of(files[n - 1].1@).len()))
    }
}

/// The report over source files given as (relative path, text) pairs: the
/// hits of each file in turn.
pub fn scan_sources(files: &Vec<(String, String)>) -> (r: SecReport)
    ensures
        r.files_scanned == files@.len(),
        scanned(r.hits@, files@, files@.len() as nat),
{
    let mut hits: Vec<UnsafeHit> = Vec::new();
    let mut i: usize = 0;
    while i < files.len()
        invariant
            i <= files@.len(),
            scanned(hits@, files@, i as nat),
        decreases files.len() - i,
    {
        let ghost before = hits@;
        let mut found = scan_source(files[i].1.as_str(), files[i].0.as_str());
        let ghost fv = found@;
        hits.append(&mut found);
        proof {
            assert(hits@.subrange(0, before.len() as int) =~= before);
            assert(hits@.subrange(before.len() as int, hits@.len() as int) =~= fv);
            assert(scanned(hits@, files@, (i + 1) as nat));
        }
        i = i + 1;
    }
    SecReport { files_scanned: files.len(), hits }
}

} // verus!
