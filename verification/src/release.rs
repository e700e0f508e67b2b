//! Local release-candidate checklist and artifact provenance. The checklist
//! reports verifiable gates only: it never creates tags and never records a
//! human approval. Reading files is the caller's part; this module decides
//! from what was read.

use vstd::prelude::*;
use crate::fingerprint::{fingerprint_bytes, fnv};
use crate::optim::{hex16, push_hex16};
use crate::order::{text_less, text_lt};
use crate::planner::is_ws;
use crate::protocol_text::{bool_text, bool_word, clean_line, joined_lines, lemma_joined_append, lemma_lines_of_joined};
use crate::text::{
    chars_of, contains, contains_seq, copy_string, dec, has_prefix, push_char, push_str, push_u64, same_text,
    starts_with, string_from,
};

verus! {

pub const RELEASE_MANIFEST_VERSION: u32 = 1;

#[derive(Clone, Copy, Debug, PartialEq, Eq, Structural)]
pub enum GateStatus {
    Pass,
    Pending,
    Fail,
}

impl GateStatus {
    pub open spec fn spec_name(self) -> Seq<char> {
        match self {
            GateStatus::Pass => "pass"@,
            GateStatus::Pending => "pending"@,
            GateStatus::Fail => "fail"@,
        }
    }

    pub fn as_str(self) -> (r: &'static str)
        ensures
            r@ == self.spec_name(),
    {
        match self {
            GateStatus::Pass => "pass",
            GateStatus::Pending => "pending",
            GateStatus::Fail => "fail",
        }
    }
}

#[derive(Clone, Debug, PartialEq, Eq)]
pub struct Gate {
    pub id: &'static str,
    pub status: GateStatus,
    pub kind: &'static str,
    pub detail: String,
}

#[derive(Clone, Debug, PartialEq, Eq)]
pub struct ReleaseReport {
    pub root: String,
    pub automated_pass: bool,
    pub human_approval: GateStatus,
    pub gates: Vec<Gate>,
}

/// JSON string escaping of backslash and double quote.
pub open spec fn json_esc(s: Seq<char>) -> Seq<char>
    decreases s.len(),
{
    if s.len() == 0 {
        Seq::empty()
    } else {
        json_esc(s.drop_last()) + (if s.last() == '\\' { seq!['\\', '\\'] } else if s.last() == '"' { seq!['\\', '"'] } else { seq![s.last()] })
    }
}

fn push_json_escaped(out: &mut String, s: &str)
    ensures
        final(out)@ == old(out)@ + json_esc(s@),
{
    let cs = chars_of(s);
    let ghost before = out@;
    let mut i: usize = 0;
    while i < cs.len()
        invariant
            cs@ == s@,
            i <= cs.len(),
            out@ == before + json_esc(cs@.subrange(0, i as int)),
        decreases cs.len() - i,
    {
        assert(cs@.subrange(0, i + 1).drop_last() =~= cs@.subrange(0, i as int));
        let c = cs[i];
        if c == '\\' {
            push_char(out, '\\');
            push_char(out, '\\');
        } else if c == '"' {
            push_char(out, '\\');
            push_char(out, '"');
        } else {
            push_char(out, c);
        }
        i = i + 1;
        assert(out@ =~= before + json_esc(cs@.subrange(0, i as int)));
    }
    assert(cs@.subrange(0, cs.len() as int) =~= s@);
}

pub open spec fn gate_line(g: Gate) -> Seq<char> {
    "gate | id="@ + g.id@ + " status="@ + g.status.spec_name() + " kind="@ + g.kind@ + " detail="@ + g.detail@ + "\n"@
}

pub open spec fn gate_lines(gs: Seq<Gate>) -> Seq<char>
    decreases gs.len(),
{
    if gs.len() == 0 { Seq::empty() } else { gate_lines(gs.drop_last()) + gate_line(gs.last()) }
}

pub open spec fn gate_json(g: Gate) -> Seq<char> {
    "{\"id\":\""@ + g.id@ + "\",\"status\":\""@ + g.status.spec_name() + "\",\"kind\":\""@ + g.kind@
        + "\",\"detail\":\""@ + json_esc(g.detail@) + "\"}"@
}

pub open spec fn gates_json(gs: Seq<Gate>) -> Seq<char>
    decreases gs.len(),
{
    if gs.len() == 0 {
        Seq::empty()
    } else if gs.len() == 1 {
        gate_json(gs[0])
    } else {
        gates_json(gs.drop_last()) + ","@ + gate_json(gs.last())
    }
}

impl ReleaseReport {
    pub open spec fn spec_human(self) -> Seq<char> {
        "release-check | root="@ + self.root@ + " automated_pass="@ + bool_word(self.automated_pass) + " human_approval="@
            + self.human_approval.spec_name() + "\n"@ + gate_lines(self.gates@)
            + "note | this tool never creates tags or approves a release\n"@
    }

    /// The checklist as text, one line per gate.
    pub fn human(&self) -> (r: String)
        ensures
            r@ == self.spec_human(),
    {
        let mut out = string_from("release-check | root=");
        push_str(&mut out, self.root.as_str());
        push_str(&mut out, " automated_pass=");
        push_str(&mut out, bool_text(self.automated_pass));
        push_str(&mut out, " human_approval=");
        push_str(&mut out, self.human_approval.as_str());
        push_str(&mut out, "\n");
        let ghost head = out@;
        let mut i: usize = 0;
        while i < self.gates.len()
            invariant
                i <= self.gates@.len(),
                out@ == head + gate_lines(self.gates@.subrange(0, i as int)),
            decreases self.gates.len() - i,
        {
            assert(self.gates@.subrange(0, i + 1).drop_last() =~= self.gates@.subrange(0, i as int));
            let g = &self.gates[i];
            push_str(&mut out, "gate | id=");
            push_str(&mut out, g.id);
            push_str(&mut out, " status=");
            push_str(&mut out, g.status.as_str());
            push_str(&mut out, " kind=");
            push_str(&mut out, g.kind);
            push_str(&mut out, " detail=");
            push_str(&mut out, g.detail.as_str());
            push_str(&mut out, "\n");
            i = i + 1;
            assert(out@ =~= head + gate_lines(self.gates@.subrange(0, i as int)));
        }
        assert(self.gates@.subrange(0, self.gates@.len() as int) =~= self.gates@);
        push_str(&mut out, "note | this tool never creates tags or approves a release\n");
        out
    }

    pub open spec fn spec_json(self) -> Seq<char> {
        "{\"root\":\""@ + json_esc(self.root@) + "\",\"automated_pass\":"@ + bool_word(self.automated_pass)
            + ",\"human_approval\":\""@ + self.human_approval.spec_name() + "\",\"creates_tags\":false,\"gates\":["@
            + gates_json(self.gates@) + "]}"@
    }

    /// The checklist as one JSON object.
    pub fn json(&self) -> (r: String)
        ensures
            r@ == self.spec_json(),
    {
        let mut out = string_from("{\"root\":\"");
        push_json_escaped(&mut out, self.root.as_str());
        push_str(&mut out, "\",\"automated_pass\":");
        push_str(&mut out, bool_text(self.automated_pass));
        push_str(&mut out, ",\"human_approval\":\"");
        push_str(&mut out, self.human_approval.as_str());
        push_str(&mut out, "\",\"creates_tags\":false,\"gates\":[");
        let ghost head = out@;
        let mut i: usize = 0;
        while i < self.gates.len()
            invariant
                i <= self.gates@.len(),
                out@ == head + gates_json(self.gates@.subrange(0, i as int)),
            decreases self.gates.len() - i,
        {
            let ghost s = self.gates@.subrange(0, i + 1);
            assert(s.drop_last() =~= self.gates@.subrange(0, i as int));
            assert(s.last() == self.gates@[i as int]);
            if i > 0 {
                push_str(&mut out, ",");
            } else {
                assert(s[0] == self.gates@[0]);
            }
            let g = &self.gates[i];
            push_str(&mut out, "{\"id\":\"");
            push_str(&mut out, g.id);
            push_str(&mut out, "\",\"status\":\"");
            push_str(&mut out, g.status.as_str());
            push_str(&mut out, "\",\"kind\":\"");
            push_str(&mut out, g.kind);
            push_str(&mut out, "\",\"detail\":\"");
            push_json_escaped(&mut out, g.detail.as_str());
            push_str(&mut out, "\"}");
            i = i + 1;
            assert(out@ =~= head + gates_json(s));
        }
        assert(self.gates@.subrange(0, self.gates@.len() as int) =~= self.gates@);
        push_str(&mut out, "]}");
        out
    }
}

/// The files the checklist looks for, relative to the tree's root.
pub fn checklist_paths() -> (r: Vec<&'static str>)
    ensures
        r@.len() == 8,
        r@[0]@ == "Cargo.toml"@,
        r@[1]@ == "README.md"@,
        r@[2]@ == "VISION.md"@,
        r@[3]@ == "ROADMAP.md"@,
        r@[4]@ == ".github/workflows/genesis.yml"@,
        r@[5]@ == ".github/workflows/pruebas.yml"@,
        r@[6]@ == "docs/ci-pruebas.md"@,
        r@[7]@ == "docs/model-card.md"@,
{
    vec![
        "Cargo.toml",
        "README.md",
        "VISION.md",
        "ROADMAP.md",
        ".github/workflows/genesis.yml",
        ".github/workflows/pruebas.yml",
        "docs/ci-pruebas.md",
        "docs/model-card.md",
    ]
}

/// Whether `rel` is among the files found.
pub open spec fn listed(present: Seq<String>, rel: Seq<char>) -> bool {
    exists|i: int| 0 <= i < present.len() && #[trigger] present[i]@ == rel
}

fn is_listed(present: &Vec<String>, rel: &str) -> (r: bool)
    ensures
        r == listed(present@, rel@),
{
    let mut i: usize = 0;
    while i < present.len()
        invariant
            i <= present@.len(),
            forall|k: int| 0 <= k < i ==> #[trigger] present@[k]@ != rel@,
        decreases present.len() - i,
    {
        if same_text(present[i].as_str(), rel) {
            return true;
        }
        i = i + 1;
    }
    false
}

/// A required file's checklist entry: it passes when the file is there.
pub open spec fn file_gate_is(g: Gate, id: Seq<char>, rel: Seq<char>, present: Seq<String>) -> bool {
    &&& g.id@ == id
    &&& g.kind@ == "automated"@
    &&& if listed(present, rel) {
        g.status == GateStatus::Pass && g.detail@ == rel + " present"@
    } else {
        g.status == GateStatus::Fail && g.detail@ == rel + " missing"@
    }
}

/// A gate that this tool cannot decide.
pub open spec fn pending_is(g: Gate, id: Seq<char>, detail: Seq<char>) -> bool {
    g.id@ == id && g.status == GateStatus::Pending && g.kind@ == "pending-external"@ && g.detail@ == detail
}

fn file_gate(id: &'static str, rel: &'static str, present: &Vec<String>) -> (g: Gate)
    ensures
        file_gate_is(g, id@, rel@, present@),
{
    if is_listed(present, rel) {
        let mut detail = string_from(rel);
        push_str(&mut detail, " present");
        Gate { id, status: GateStatus::Pass, kind: "automated", detail }
    } else {
        let mut detail = string_from(rel);
        push_str(&mut detail, " missing");
        Gate { id, status: GateStatus::Fail, kind: "automated", detail }
    }
}

fn pending(id: &'static str, detail: &str) -> (g: Gate)
    ensures
        pending_is(g, id@, detail@),
{
    Gate { id, status: GateStatus::Pending, kind: "pending-external", detail: string_from(detail) }
}

/// The gates of the checklist, given which of its files are present.
pub open spec fn checklist_is(r: ReleaseReport, root: Seq<char>, present: Seq<String>) -> bool {
    let gs = r.gates@;
    &&& r.root@ == root
    &&& r.human_approval == GateStatus::Pending
    &&& gs.len() == 12
    &&& file_gate_is(gs[0], "cargo_toml"@, "Cargo.toml"@, present)
    &&& file_gate_is(gs[1], "readme"@, "README.md"@, present)
    &&& file_gate_is(gs[2], "vision"@, "VISION.md"@, present)
    &&& file_gate_is(gs[3], "roadmap"@, "ROADMAP.md"@, present)
    &&& file_gate_is(gs[4], "ci_genesis"@, ".github/workflows/genesis.yml"@, present)
    &&& file_gate_is(gs[5], "ci_pruebas"@, ".github/workflows/pruebas.yml"@, present)
    &&& file_gate_is(gs[6], "docs_ci"@, "docs/ci-pruebas.md"@, present)
    &&& if listed(present, "docs/model-card.md"@) {
        file_gate_is(gs[7], "model_card"@, "docs/model-card.md"@, present)
    } else {
        pending_is(gs[7], "model_card"@, "docs/model-card.md not required for local automated pass yet"@)
    }
    &&& pending_is(gs[8], "rc_tag"@, "git tag/RC identity is not created or validated by this tool"@)
    &&& pending_is(gs[9], "live_ci"@, "live GitHub check-run status is not queried locally"@)
    &&& pending_is(gs[10], "artifacts_checksums"@, "use auralis release-manifest to emit/verify checksums"@)
    &&& gs[11].id@ == "human_approval"@ && gs[11].status == GateStatus::Pending && gs[11].kind@ == "human"@
        && gs[11].detail@ == "human review required; tool cannot approve"@
}

/// Every automated gate passed.
pub open spec fn automated_all_pass(gs: Seq<Gate>) -> bool {
    forall|i: int| 0 <= i < gs.len() && (#[trigger] gs[i]).kind@ == "automated"@ ==> gs[i].status == GateStatus::Pass
}

/// The release checklist of the tree at `root`, given the relative paths of
/// the files that are present there. The automated pass holds exactly when
/// every automated gate passed; human approval is always pending.
pub fn check_release(root: &str, present: &Vec<String>) -> (r: ReleaseReport)
    ensures
        checklist_is(r, root@, present@),
        r.automated_pass == automated_all_pass(r.gates@),
{
    let mut gates: Vec<Gate> = Vec::new();
    gates.push(file_gate("cargo_toml", "Cargo.toml", present));
    gates.push(file_gate("readme", "README.md", present));
    gates.push(file_gate("vision", "VISION.md", present));
    gates.push(file_gate("roadmap", "ROADMAP.md", present));
    gates.push(file_gate("ci_genesis", ".github/workflows/genesis.yml", present));
    gates.push(file_gate("ci_pruebas", ".github/workflows/pruebas.yml", present));
    gates.push(file_gate("docs_ci", "docs/ci-pruebas.md", present));
    if is_listed(present, "docs/model-card.md") {
        gates.push(file_gate("model_card", "docs/model-card.md", present));
    } else {
        gates.push(pending("model_card", "docs/model-card.md not required for local automated pass yet"));
    }
    gates.push(pending("rc_tag", "git tag/RC identity is not created or validated by this tool"));
    gates.push(pending("live_ci", "live GitHub check-run status is not queried locally"));
    gates.push(pending("artifacts_checksums", "use auralis release-manifest to emit/verify checksums"));
    gates.push(Gate {
        id: "human_approval",
        status: GateStatus::Pending,
        kind: "human",
        detail: string_from("human review required; tool cannot approve"),
    });
    let mut automated_pass = true;
    let mut i: usize = 0;
    while i < gates.len()
        invariant
            i <= gates@.len(),
            automated_pass == (forall|k: int| 0 <= k < i && (#[trigger] gates@[k]).kind@ == "automated"@
                ==> gates@[k].status == GateStatus::Pass),
        decreases gates.len() - i,
    {
        if same_text(gates[i].kind, "automated") && gates[i].status != GateStatus::Pass {
            automated_pass = false;
        }
        i = i + 1;
    }
    ReleaseReport { root: string_from(root), automated_pass, human_approval: GateStatus::Pending, gates }
}

/// The automated pass holds exactly when the seven required files are there.
pub proof fn lemma_automated_pass_needs_required_files(r: ReleaseReport, root: Seq<char>, present: Seq<String>)
    requires
        checklist_is(r, root, present),
    ensures
        automated_all_pass(r.gates@) <==> (listed(present, "Cargo.toml"@) && listed(present, "README.md"@)
            && listed(present, "VISION.md"@) && listed(present, "ROADMAP.md"@)
            && listed(present, ".github/workflows/genesis.yml"@) && listed(present, ".github/workflows/pruebas.yml"@)
            && listed(present, "docs/ci-pruebas.md"@)),
        r.human_approval == GateStatus::Pending,
{
    reveal_strlit("automated");
    reveal_strlit("pending-external");
    reveal_strlit("human");
    let gs = r.gates@;
    if automated_all_pass(gs) {
        assert(gs[0].kind@ == "automated"@);
        assert(gs[1].kind@ == "automated"@);
        assert(gs[2].kind@ == "automated"@);
        assert(gs[3].kind@ == "automated"@);
        assert(gs[4].kind@ == "automated"@);
        assert(gs[5].kind@ == "automated"@);
        assert(gs[6].kind@ == "automated"@);
    }
    assert("pending-external"@.len() != "automated"@.len());
    assert("human"@.len() != "automated"@.len());
}

} // verus!

verus! {

#[derive(Clone, Debug, PartialEq, Eq)]
pub struct ReleaseArtifact {
    pub path: String,
    pub bytes: u64,
    pub checksum: u64,
}

#[derive(Clone, Debug, PartialEq, Eq)]
pub struct ReleaseManifest {
    pub version: u32,
    pub code_revision: String,
    pub rustc: String,
    pub artifacts: Vec<ReleaseArtifact>,
}

/// An artifact as plain values: path, size, checksum.
pub type ArtifactView = (Seq<char>, u64, u64);

pub open spec fn artifact_view(a: ReleaseArtifact) -> ArtifactView {
    (a.path@, a.bytes, a.checksum)
}

pub open spec fn artifacts_view(s: Seq<ReleaseArtifact>) -> Seq<ArtifactView> {
    s.map_values(|a: ReleaseArtifact| artifact_view(a))
}

pub open spec fn artifact_line(a: ArtifactView) -> Seq<char> {
    "artifact="@ + a.0 + " bytes="@ + dec(a.1 as nat) + " checksum="@ + hex16(a.2 as nat, 16) + "\n"@
}

pub open spec fn artifact_lines(s: Seq<ArtifactView>) -> Seq<char>
    decreases s.len(),
{
    if s.len() == 0 { Seq::empty() } else { artifact_lines(s.drop_last()) + artifact_line(s.last()) }
}

pub open spec fn manifest_text(version: u32, code_revision: Seq<char>, rustc: Seq<char>, arts: Seq<ArtifactView>) -> Seq<char> {
    "auralis_release="@ + dec(version as nat) + "\ncode_revision="@ + code_revision + "\nrustc="@ + rustc
        + "\nartifact_count="@ + dec(arts.len()) + "\n"@ + artifact_lines(arts)
}

// Sorting by path ---------------------------------------------------------

/// Where a stable insertion puts `x`: after every element whose path does
/// not sort after its own.
pub open spec fn insert_pos(s: Seq<ArtifactView>, x: ArtifactView) -> nat
    decreases s.len(),
{
    if s.len() == 0 {
        0
    } else if text_lt(x.0, s.last().0) {
        insert_pos(s.drop_last(), x)
    } else {
        s.len()
    }
}

/// The artifacts in path order, equal paths kept in their given order
/// (`sort_by` on the path, which is stable).
pub open spec fn sort_by_path(s: Seq<ArtifactView>) -> Seq<ArtifactView>
    decreases s.len(),
{
    if s.len() == 0 {
        Seq::empty()
    } else {
        let sorted = sort_by_path(s.drop_last());
        sorted.insert(insert_pos(sorted, s.last()) as int, s.last())
    }
}

proof fn lemma_insert_pos_bound(s: Seq<ArtifactView>, x: ArtifactView)
    ensures
        insert_pos(s, x) <= s.len(),
    decreases s.len(),
{
    if s.len() > 0 {
        lemma_insert_pos_bound(s.drop_last(), x);
    }
}

proof fn lemma_sort_len(s: Seq<ArtifactView>)
    ensures
        sort_by_path(s).len() == s.len(),
    decreases s.len(),
{
    if s.len() > 0 {
        lemma_sort_len(s.drop_last());
        lemma_insert_pos_bound(sort_by_path(s.drop_last()), s.last());
    }
}

fn sort_artifacts(arts: Vec<ReleaseArtifact>) -> (r: Vec<ReleaseArtifact>)
    ensures
        artifacts_view(r@) == sort_by_path(artifacts_view(arts@)),
{
    let ghost input = artifacts_view(arts@);
    let mut rest = arts;
    let mut sorted: Vec<ReleaseArtifact> = Vec::new();
    let mut taken: usize = 0;
    let n = rest.len();
    assert(input.subrange(0, 0) =~= Seq::<ArtifactView>::empty());
    assert(artifacts_view(rest@) =~= input.subrange(0, n as int));
    assert(artifacts_view(sorted@) =~= Seq::<ArtifactView>::empty());
    while rest.len() > 0
        invariant
            taken + rest@.len() == n,
            input.len() == n,
            artifacts_view(rest@) == input.subrange(taken as int, n as int),
            artifacts_view(sorted@) == sort_by_path(input.subrange(0, taken as int)),
        decreases rest.len(),
    {
        let ghost before_rest = rest@;
        let a = rest.remove(0);
        proof {
            assert(artifact_view(a) == artifacts_view(before_rest)[0]);
            assert(artifact_view(a) == input[taken as int]);
            assert forall|k: int| 0 <= k < rest@.len() implies #[trigger] artifacts_view(rest@)[k] == input.subrange(taken + 1, n as int)[k] by {
                assert(rest@[k] == before_rest[k + 1]);
                assert(artifacts_view(before_rest)[k + 1] == input.subrange(taken as int, n as int)[k + 1]);
            }
            assert(artifacts_view(rest@) =~= input.subrange(taken + 1, n as int));
            lemma_sort_len(input.subrange(0, taken as int));
        }
        let ghost x = artifact_view(a);
        let ghost s = artifacts_view(sorted@);
        // Find the insertion point from the back.
        let mut j = sorted.len();
        assert(s.subrange(0, s.len() as int) =~= s);
        while j > 0 && text_less(a.path.as_str(), sorted[j - 1].path.as_str())
            invariant
                j <= sorted@.len(),
                s == artifacts_view(sorted@),
                x == artifact_view(a),
                insert_pos(s, x) == insert_pos(s.subrange(0, j as int), x),
            decreases j,
        {
            proof {
                let t = s.subrange(0, j as int);
                assert(t.drop_last() =~= s.subrange(0, j - 1));
                assert(t.last() == s[j - 1]);
            }
            j = j - 1;
        }
        proof {
            let t = s.subrange(0, j as int);
            if j > 0 {
                assert(t.last() == s[j - 1]);
            }
            assert(insert_pos(t, x) == j);
            let pre = input.subrange(0, taken as int);
            let post = input.subrange(0, taken + 1);
            assert(post.drop_last() =~= pre);
            assert(post.last() == x);
        }
        sorted.insert(j, a);
        proof {
            assert(artifacts_view(sorted@) =~= s.insert(j as int, x));
        }
        taken = taken + 1;
    }
    assert(input.subrange(0, n as int) =~= input);
    sorted
}

// Capture and verification ------------------------------------------------

/// A path an artifact may have: relative, non-empty, and without `..`.
pub open spec fn safe_artifact_path(rel: Seq<char>) -> bool {
    rel.len() > 0 && !has_prefix(rel, "/"@) && !contains_seq(rel, ".."@)
}

pub open spec fn slash_path(s: Seq<char>) -> Seq<char> {
    s.map_values(|c: char| if c == '\\' { '/' } else { c })
}

fn to_slashes(s: &str) -> (r: String)
    ensures
        r@ == slash_path(s@),
{
    let cs = chars_of(s);
    let mut out = String::new();
    let mut i: usize = 0;
    while i < cs.len()
        invariant
            cs@ == s@,
            i <= cs.len(),
            out@ == slash_path(cs@.subrange(0, i as int)),
        decreases cs.len() - i,
    {
        let c = cs[i];
        push_char(&mut out, if c == '\\' { '/' } else { c });
        i = i + 1;
        assert(out@ =~= slash_path(cs@.subrange(0, i as int)));
    }
    assert(cs@.subrange(0, cs.len() as int) =~= s@);
    out
}

/// The artifact for `rel`: refused when its path is unsafe; otherwise the
/// read's error, or its size and FNV-1a checksum.
pub open spec fn artifact_of(rel: Seq<char>, read: Result<Seq<u8>, Seq<char>>) -> Result<ArtifactView, Seq<char>> {
    if !safe_artifact_path(rel) {
        Err("refusing unsafe artifact path "@ + rel)
    } else {
        match read {
            Err(m) => Err(m),
            Ok(bytes) => Ok((slash_path(rel), bytes.len() as u64, fnv(bytes))),
        }
    }
}

pub open spec fn read_view(r: Result<Vec<u8>, String>) -> Result<Seq<u8>, Seq<char>> {
    match r {
        Ok(b) => Ok(b@),
        Err(m) => Err(m@),
    }
}

/// The artifacts of the first `n` paths, or the first refusal.
pub open spec fn capture_upto(paths: Seq<String>, reads: Seq<Result<Vec<u8>, String>>, n: nat) -> Result<Seq<ArtifactView>, Seq<char>>
    decreases n,
{
    if n == 0 {
        Ok(Seq::empty())
    } else {
        match capture_upto(paths, reads, (n - 1) as nat) {
            Err(e) => Err(e),
            Ok(arts) => match artifact_of(paths[n - 1]@, read_view(reads[n - 1])) {
                Err(e) => Err(e),
                Ok(a) => Ok(arts.push(a)),
            },
        }
    }
}

proof fn lemma_capture_stays_failed(paths: Seq<String>, reads: Seq<Result<Vec<u8>, String>>, k: nat, n: nat)
    requires
        k <= n,
        capture_upto(paths, reads, k) is Err,
    ensures
        capture_upto(paths, reads, n) == capture_upto(paths, reads, k),
    decreases n - k,
{
    if k < n {
        lemma_capture_stays_failed(paths, reads, k + 1, n);
    }
}

impl ReleaseManifest {
    pub open spec fn spec_text(self) -> Seq<char> {
        manifest_text(self.version, self.code_revision@, self.rustc@, artifacts_view(self.artifacts@))
    }

    /// The manifest as text: a header and one line per artifact.
    pub fn encode(&self) -> (r: String)
        ensures
            r@ == self.spec_text(),
    {
        let mut out = string_from("auralis_release=");
        push_u64(&mut out, self.version as u64);
        push_str(&mut out, "\ncode_revision=");
        push_str(&mut out, self.code_revision.as_str());
        push_str(&mut out, "\nrustc=");
        push_str(&mut out, self.rustc.as_str());
        push_str(&mut out, "\nartifact_count=");
        push_u64(&mut out, self.artifacts.len() as u64);
        push_str(&mut out, "\n");
        let ghost head = out@;
        let ghost arts = artifacts_view(self.artifacts@);
        let mut i: usize = 0;
        while i < self.artifacts.len()
            invariant
                arts == artifacts_view(self.artifacts@),
                i <= self.artifacts@.len(),
                out@ == head + artifact_lines(arts.subrange(0, i as int)),
            decreases self.artifacts.len() - i,
        {
            assert(arts.subrange(0, i + 1).drop_last() =~= arts.subrange(0, i as int));
            let a = &self.artifacts[i];
            push_str(&mut out, "artifact=");
            push_str(&mut out, a.path.as_str());
            push_str(&mut out, " bytes=");
            push_u64(&mut out, a.bytes);
            push_str(&mut out, " checksum=");
            push_hex16(&mut out, a.checksum);
            push_str(&mut out, "\n");
            i = i + 1;
            assert(out@ =~= head + artifact_lines(arts.subrange(0, i as int)));
        }
        assert(arts.subrange(0, arts.len() as int) =~= arts);
        out
    }

    /// The manifest of the files `paths`, whose contents the caller read
    /// (`reads[i]` for `paths[i]`), stamped with the code revision and the
    /// compiler. Artifacts come sorted by path; the first unsafe path or
    /// failed read stops the capture.
    pub fn capture(paths: &Vec<String>, reads: &Vec<Result<Vec<u8>, String>>, code_revision: &str, rustc: &str)
        -> (r: Result<ReleaseManifest, String>)
        requires
            paths@.len() == reads@.len(),
        ensures
            match capture_upto(paths@, reads@, paths@.len() as nat) {
                Err(e) => r matches Err(m) && m@ == e,
                Ok(arts) => r matches Ok(m) && m.version == RELEASE_MANIFEST_VERSION && m.code_revision@ == code_revision@
                    && m.rustc@ == rustc@ && artifacts_view(m.artifacts@) == sort_by_path(arts),
            },
    {
        let mut artifacts: Vec<ReleaseArtifact> = Vec::new();
        let mut i: usize = 0;
        assert(artifacts_view(artifacts@) =~= Seq::<ArtifactView>::empty());
        while i < paths.len()
            invariant
                paths@.len() == reads@.len(),
                i <= paths@.len(),
                capture_upto(paths@, reads@, i as nat) == Ok::<Seq<ArtifactView>, Seq<char>>(artifacts_view(artifacts@)),
            decreases paths.len() - i,
        {
            let rel = paths[i].as_str();
            if rel.unicode_len() == 0 || starts_with(rel, "/") || contains(rel, "..") {
                let mut m = string_from("refusing unsafe artifact path ");
                push_str(&mut m, rel);
                proof {
                    lemma_capture_stays_failed(paths@, reads@, (i + 1) as nat, paths@.len() as nat);
                }
                return Err(m);
            }
            match &reads[i] {
                Err(e) => {
                    proof {
                        lemma_capture_stays_failed(paths@, reads@, (i + 1) as nat, paths@.len() as nat);
                    }
                    return Err(copy_string(e));
                },
                Ok(bytes) => {
                    let a = ReleaseArtifact {
                        path: to_slashes(rel),
                        bytes: bytes.len() as u64,
                        checksum: fingerprint_bytes(bytes.as_slice()),
                    };
                    let ghost before = artifacts@;
                    artifacts.push(a);
                    assert(artifacts_view(artifacts@) =~= artifacts_view(before).push(artifact_view(a)));
                },
            }
            i = i + 1;
        }
        let artifacts = sort_artifacts(artifacts);
        Ok(ReleaseManifest {
            version: RELEASE_MANIFEST_VERSION,
            code_revision: string_from(code_revision),
            rustc: string_from(rustc),
            artifacts,
        })
    }

    /// Compares the manifest with one captured from the tree now: equal
    /// artifacts (paths, sizes and checksums, in order) or a mismatch.
    pub fn verify(&self, live: &ReleaseManifest) -> (r: Result<(), String>)
        ensures
            r is Ok <==> artifacts_view(live.artifacts@) == artifacts_view(self.artifacts@),
            r matches Err(m) ==> m@ == "release artifact checksum or size mismatch"@,
    {
        let a = &self.artifacts;
        let b = &live.artifacts;
        let mut same = a.len() == b.len();
        let mut i: usize = 0;
        if same {
            while i < a.len()
                invariant
                    a@.len() == b@.len(),
                    i <= a@.len(),
                    same ==> forall|k: int| 0 <= k < i ==> artifact_view(#[trigger] a@[k]) == artifact_view(b@[k]),
                    !same ==> artifacts_view(a@) != artifacts_view(b@),
                decreases a.len() - i,
            {
                if same && !(same_text(a[i].path.as_str(), b[i].path.as_str()) && a[i].bytes == b[i].bytes
                    && a[i].checksum == b[i].checksum) {
                    same = false;
                    assert(artifacts_view(a@)[i as int] != artifacts_view(b@)[i as int]);
                }
                i = i + 1;
            }
            if same {
                assert(artifacts_view(a@) =~= artifacts_view(b@));
            }
        } else {
            assert(artifacts_view(a@).len() != artifacts_view(b@).len());
        }
        if !same {
            return Err(string_from("release artifact checksum or size mismatch"));
        }
        Ok(())
    }
}

} // verus!

verus! {

// Reading a manifest back -----------------------------------------------------

/// The pieces of `s` between runs of white space (`str::split_whitespace`).
pub open spec fn ws_tokens(s: Seq<char>) -> Seq<Seq<char>>
    decreases s.len(),
{
    if s.len() == 0 {
        Seq::empty()
    } else {
        let front = s.drop_last();
        let ts = ws_tokens(front);
        if is_ws(s.last()) {
            ts
        } else if front.len() > 0 && !is_ws(front.last()) {
            ts.update(ts.len() - 1, ts.last().push(s.last()))
        } else {
            ts.push(seq![s.last()])
        }
    }
}

proof fn lemma_ws_tokens_nonempty_when_continuing(s: Seq<char>)
    requires
        s.len() > 0,
        !is_ws(s.last()),
    ensures
        ws_tokens(s).len() > 0,
    decreases s.len(),
{
    let front = s.drop_last();
    if front.len() > 0 && !is_ws(front.last()) {
        lemma_ws_tokens_nonempty_when_continuing(front);
    }
}

fn split_ws(s: &str) -> (r: Vec<String>)
    ensures
        r@.map_values(|t: String| t@) == ws_tokens(s@),
{
    let cs = chars_of(s);
    let mut out: Vec<String> = Vec::new();
    let mut cur = String::new();
    let mut in_token = false;
    let mut i: usize = 0;
    while i < cs.len()
        invariant
            cs@ == s@,
            i <= cs.len(),
            in_token == (i > 0 && !is_ws(cs@[i - 1])),
            in_token ==> out@.map_values(|t: String| t@).push(cur@) == ws_tokens(cs@.subrange(0, i as int)),
            !in_token ==> out@.map_values(|t: String| t@) == ws_tokens(cs@.subrange(0, i as int)),
        decreases cs.len() - i,
    {
        let ghost prefix = cs@.subrange(0, i + 1);
        assert(prefix.drop_last() =~= cs@.subrange(0, i as int));
        assert(prefix.last() == cs@[i as int]);
        let c = cs[i];
        if crate::planner::is_ws_char(c) {
            if in_token {
                let ghost ov = out@;
                let token = cur;
                cur = String::new();
                out.push(token);
                assert(out@.map_values(|t: String| t@) =~= ov.map_values(|t: String| t@).push(token@));
            }
            in_token = false;
        } else {
            if in_token {
                let ghost ts = ws_tokens(cs@.subrange(0, i as int));
                let ghost old_cur = cur@;
                push_char(&mut cur, c);
                proof {
                    assert(prefix.drop_last().last() == cs@[i - 1]);
                    assert(out@.map_values(|t: String| t@).push(cur@) =~= ts.update(ts.len() - 1, ts.last().push(c)));
                }
            } else {
                cur = String::new();
                push_char(&mut cur, c);
                proof {
                    if i > 0 {
                        assert(prefix.drop_last().last() == cs@[i - 1]);
                    }
                    assert(cur@ =~= seq![c]);
                }
                in_token = true;
            }
        }
        i = i + 1;
    }
    assert(cs@.subrange(0, cs.len() as int) =~= s@);
    if in_token {
        let ghost ov = out@;
        out.push(cur);
        assert(out@.map_values(|t: String| t@) =~= ov.map_values(|t: String| t@).push(cur@));
    }
    out
}

pub open spec fn hex_digit_value(c: char) -> Option<nat> {
    if '0' <= c && c <= '9' {
        Some((c as nat - '0' as nat) as nat)
    } else if 'a' <= c && c <= 'f' {
        Some((c as nat - 'a' as nat + 10) as nat)
    } else if 'A' <= c && c <= 'F' {
        Some((c as nat - 'A' as nat + 10) as nat)
    } else {
        None
    }
}

pub open spec fn all_hex(s: Seq<char>) -> bool {
    forall|i: int| 0 <= i < s.len() ==> (#[trigger] hex_digit_value(s[i])) is Some
}

pub open spec fn hex_value_of(s: Seq<char>) -> nat
    decreases s.len(),
{
    if s.len() == 0 {
        0
    } else {
        hex_value_of(s.drop_last()) * 16 + hex_digit_value(s.last())->0
    }
}

/// `u64::from_str_radix(s, 16)`: an optional `+`, then one or more hex
/// digits of either case, within `u64`.
pub open spec fn parse_hex_spec(s: Seq<char>) -> Option<u64> {
    let body = if s.len() > 0 && s[0] == '+' { s.drop_first() } else { s };
    if body.len() == 0 || !all_hex(body) || hex_value_of(body) > u64::MAX {
        None
    } else {
        Some(hex_value_of(body) as u64)
    }
}

fn parse_hex(s: &str) -> (r: Option<u64>)
    ensures
        r == parse_hex_spec(s@),
{
    let cs = chars_of(s);
    let mut start: usize = 0;
    if cs.len() > 0 && cs[0] == '+' {
        start = 1;
    }
    let ghost body = cs@.subrange(start as int, cs.len() as int);
    assert(body == (if s@.len() > 0 && s@[0] == '+' { s@.drop_first() } else { s@ }));
    if start == cs.len() {
        return None;
    }
    let mut v: u64 = 0;
    let mut i: usize = start;
    while i < cs.len()
        invariant
            cs@ == s@,
            start <= i <= cs.len(),
            start < cs.len(),
            body == cs@.subrange(start as int, cs.len() as int),
            body == (if s@.len() > 0 && s@[0] == '+' { s@.drop_first() } else { s@ }),
            all_hex(cs@.subrange(start as int, i as int)),
            v as nat == hex_value_of(cs@.subrange(start as int, i as int)),
        decreases cs.len() - i,
    {
        let c = cs[i];
        let d: u64 = if '0' <= c && c <= '9' {
            (c as u32 - '0' as u32) as u64
        } else if 'a' <= c && c <= 'f' {
            (c as u32 - 'a' as u32 + 10) as u64
        } else if 'A' <= c && c <= 'F' {
            (c as u32 - 'A' as u32 + 10) as u64
        } else {
            assert(body[i - start] == c);
            assert(hex_digit_value(body[i - start]) is None);
            return None;
        };
        assert(hex_digit_value(c) == Some(d as nat));
        let ghost next = cs@.subrange(start as int, i + 1);
        assert(next.drop_last() =~= cs@.subrange(start as int, i as int));
        assert(next.last() == c);
        if v > (u64::MAX - d) / 16 {
            proof {
                let m = (u64::MAX - d) / 16;
                assert(v * 16 + d > u64::MAX) by (nonlinear_arith)
                    requires v > m, m == (u64::MAX - d) / 16, d < 16;
                assert(hex_value_of(next) == v * 16 + d);
                if all_hex(body) {
                    lemma_hex_value_grows(body, (i - start + 1) as nat);
                    assert(next =~= body.subrange(0, i - start + 1));
                }
            }
            return None;
        }
        assert(v * 16 + d <= u64::MAX) by (nonlinear_arith)
            requires v <= (u64::MAX - d) / 16, d < 16;
        v = v * 16 + d;
        i = i + 1;
        assert forall|k: int| 0 <= k < next.len() implies (#[trigger] hex_digit_value(next[k])) is Some by {
            if k < next.len() - 1 {
                assert(next[k] == cs@.subrange(start as int, i - 1)[k]);
            }
        }
    }
    Some(v)
}

/// The value of a prefix never exceeds the value of the whole.
proof fn lemma_hex_value_grows(s: Seq<char>, k: nat)
    requires
        k <= s.len(),
        all_hex(s),
    ensures
        hex_value_of(s.subrange(0, k as int)) <= hex_value_of(s),
    decreases s.len() - k,
{
    if k < s.len() {
        lemma_hex_value_grows(s, k + 1);
        let a = s.subrange(0, k as int);
        let b = s.subrange(0, k as int + 1);
        assert(b.drop_last() =~= a);
        assert(hex_digit_value(s[k as int]) is Some);
        assert(hex_value_of(a) <= hex_value_of(a) * 16) by (nonlinear_arith);
    } else {
        assert(s.subrange(0, k as int) =~= s);
    }
}

} // verus!

verus! {

/// Key and value of a line: the text before and after its first `=`.
pub open spec fn split_eq(l: Seq<char>) -> Option<(Seq<char>, Seq<char>)> {
    if exists|i: int| crate::protocol_text::first_eq(l, i) {
        let i = choose|i: int| crate::protocol_text::first_eq(l, i);
        Some((l.subrange(0, i), l.subrange(i + 1, l.len() as int)))
    } else {
        None
    }
}

pub open spec fn parse_u64_spec(s: Seq<char>) -> Option<u64> {
    match crate::text::parse_bounded(s, u64::MAX as nat) {
        Some(v) => Some(v as u64),
        None => None,
    }
}

/// The `artifact=` value: a path, `bytes=<decimal>` and `checksum=<hex>`,
/// separated by white space; anything after them is ignored.
pub open spec fn artifact_value(value: Seq<char>) -> Result<ArtifactView, Seq<char>> {
    let t = ws_tokens(value);
    if t.len() < 1 {
        Err("artifact missing path"@)
    } else if t.len() < 2 {
        Err("artifact missing bytes"@)
    } else {
        match crate::reasoning_suite::after(t[1], "bytes="@) {
            None => Err("artifact missing bytes"@),
            Some(b) => match parse_u64_spec(b) {
                None => Err("invalid artifact bytes"@),
                Some(bytes) => if t.len() < 3 {
                    Err("artifact missing checksum"@)
                } else {
                    match crate::reasoning_suite::after(t[2], "checksum="@) {
                        None => Err("artifact missing checksum"@),
                        Some(c) => match parse_hex_spec(c) {
                            None => Err("invalid artifact checksum"@),
                            Some(checksum) => Ok((t[0], bytes, checksum)),
                        },
                    }
                },
            },
        }
    }
}

/// What has been read so far: version, code revision, compiler, declared
/// artifact count, artifacts.
pub type ManifestFields = (Option<u32>, Option<Seq<char>>, Option<Seq<char>>, Option<usize>, Seq<ArtifactView>);

/// Reading line `i` (0-based) into the fields: blank and `#` lines are
/// skipped; a header field may appear once; an unknown field is refused.
pub open spec fn read_line(st: ManifestFields, i: nat, raw: Seq<char>) -> Result<ManifestFields, Seq<char>> {
    let line = crate::session::repl_trim(raw);
    if line.len() == 0 || has_prefix(line, "#"@) {
        Ok(st)
    } else {
        match split_eq(line) {
            None => Err("invalid release manifest line "@ + dec(i + 1)),
            Some((key, value)) => if key == "auralis_release"@ {
                if st.0 is Some {
                    Err("duplicate auralis_release"@)
                } else {
                    match crate::text::parse_bounded(value, u32::MAX as nat) {
                        None => Err("invalid auralis_release"@),
                        Some(v) => Ok((Some(v as u32), st.1, st.2, st.3, st.4)),
                    }
                }
            } else if key == "code_revision"@ {
                if st.1 is Some { Err("duplicate code_revision"@) } else { Ok((st.0, Some(value), st.2, st.3, st.4)) }
            } else if key == "rustc"@ {
                if st.2 is Some { Err("duplicate rustc"@) } else { Ok((st.0, st.1, Some(value), st.3, st.4)) }
            } else if key == "artifact_count"@ {
                if st.3 is Some {
                    Err("duplicate artifact_count"@)
                } else {
                    match crate::text::parse_bounded(value, usize::MAX as nat) {
                        None => Err("invalid artifact_count"@),
                        Some(c) => Ok((st.0, st.1, st.2, Some(c as usize), st.4)),
                    }
                }
            } else if key == "artifact"@ {
                match artifact_value(value) {
                    Err(e) => Err(e),
                    Ok(a) => Ok((st.0, st.1, st.2, st.3, st.4.push(a))),
                }
            } else {
                Err("unknown release manifest field "@ + key)
            },
        }
    }
}

pub open spec fn read_lines(ls: Seq<Seq<char>>, n: nat) -> Result<ManifestFields, Seq<char>>
    decreases n,
{
    if n == 0 {
        Ok((None, None, None, None, Seq::empty()))
    } else {
        match read_lines(ls, (n - 1) as nat) {
            Err(e) => Err(e),
            Ok(st) => read_line(st, (n - 1) as nat, ls[n - 1]),
        }
    }
}

/// What reading a manifest text gives: its version, code revision,
/// compiler and artifacts (sorted by path), or the first problem found.
pub open spec fn manifest_of(text: Seq<char>) -> Result<(u32, Seq<char>, Seq<char>, Seq<ArtifactView>), Seq<char>> {
    let ls = crate::protocol_text::lines_of(text);
    match read_lines(ls, ls.len()) {
        Err(e) => Err(e),
        Ok((version, code_revision, rustc, count, arts)) => match version {
            None => Err("release manifest missing auralis_release"@),
            Some(v) => if v != RELEASE_MANIFEST_VERSION {
                Err("release manifest version "@ + dec(v as nat) + " is unsupported (expected 1); explicit migration required"@)
            } else {
                match count {
                    None => Err("release manifest missing artifact_count"@),
                    Some(c) => if c != arts.len() {
                        Err("artifact_count mismatch: declared="@ + dec(c as nat) + " listed="@ + dec(arts.len()))
                    } else {
                        match (code_revision, rustc) {
                            (None, _) => Err("release manifest missing code_revision"@),
                            (Some(_), None) => Err("release manifest missing rustc"@),
                            (Some(rev), Some(rc)) => Ok((v, rev, rc, sort_by_path(arts))),
                        }
                    }
                }
            },
        },
    }
}

fn split_at_eq(line: &str) -> (r: Option<(String, String)>)
    ensures
        match split_eq(line@) {
            None => r is None,
            Some((k, v)) => r matches Some(p) && p.0@ == k && p.1@ == v,
        },
{
    let cs = chars_of(line);
    let mut i: usize = 0;
    while i < cs.len()
        invariant
            cs@ == line@,
            i <= cs.len(),
            forall|j: int| 0 <= j < i ==> cs@[j] != '=',
        decreases cs.len() - i,
    {
        if cs[i] == '=' {
            assert(crate::protocol_text::first_eq(line@, i as int));
            assert forall|j: int| crate::protocol_text::first_eq(line@, j) implies j == i by {
                if j < i {
                    assert(cs@[j] != '=');
                } else if j > i {
                    assert(line@[i as int] == '=');
                }
            }
            return Some((crate::text::string_of(&cs, 0, i), crate::text::string_of(&cs, i + 1, cs.len())));
        }
        i = i + 1;
    }
    assert forall|j: int| !crate::protocol_text::first_eq(line@, j) by {}
    None
}

fn read_artifact(value: &str) -> (r: Result<ReleaseArtifact, String>)
    ensures
        match artifact_value(value@) {
            Err(e) => r matches Err(m) && m@ == e,
            Ok(a) => r matches Ok(x) && artifact_view(x) == a,
        },
{
    let tokens = split_ws(value);
    let ghost tv = tokens@.map_values(|t: String| t@);
    assert(tv.len() == tokens@.len());
    if tokens.len() < 1 {
        return Err(string_from("artifact missing path"));
    }
    if tokens.len() < 2 {
        return Err(string_from("artifact missing bytes"));
    }
    assert(tv[1] == tokens@[1]@);
    let bytes = match strip_prefix_text(tokens[1].as_str(), "bytes=") {
        None => {
            return Err(string_from("artifact missing bytes"));
        },
        Some(b) => match crate::text::parse_unsigned(b.as_str(), u64::MAX) {
            None => {
                return Err(string_from("invalid artifact bytes"));
            },
            Some(n) => n,
        },
    };
    if tokens.len() < 3 {
        return Err(string_from("artifact missing checksum"));
    }
    assert(tv[2] == tokens@[2]@);
    let checksum = match strip_prefix_text(tokens[2].as_str(), "checksum=") {
        None => {
            return Err(string_from("artifact missing checksum"));
        },
        Some(c) => match parse_hex(c.as_str()) {
            None => {
                return Err(string_from("invalid artifact checksum"));
            },
            Some(n) => n,
        },
    };
    assert(tv[0] == tokens@[0]@);
    Ok(ReleaseArtifact { path: copy_string(&tokens[0]), bytes, checksum })
}

fn strip_prefix_text(s: &str, prefix: &str) -> (r: Option<String>)
    ensures
        match crate::reasoning_suite::after(s@, prefix@) {
            None => r is None,
            Some(x) => r matches Some(t) && t@ == x,
        },
{
    if starts_with(s, prefix) {
        let cs = chars_of(s);
        let n = prefix.unicode_len();
        Some(crate::text::string_of(&cs, n, cs.len()))
    } else {
        None
    }
}

pub open spec fn fields_now(version: Option<u32>, code_revision: Option<String>, rustc: Option<String>,
    count: Option<usize>, artifacts: Seq<ReleaseArtifact>) -> ManifestFields
{
    (version, match code_revision { Some(s) => Some(s@), None => None }, match rustc { Some(s) => Some(s@), None => None },
        count, artifacts_view(artifacts))
}

impl ReleaseManifest {
    /// Reads a manifest from its text: header fields once each, artifact
    /// lines, comments and blank lines; the version must be the current one
    /// and the declared count must match. Artifacts come sorted by path.
    pub fn decode(text: &str) -> (r: Result<ReleaseManifest, String>)
        ensures
            match manifest_of(text@) {
                Err(e) => r matches Err(m) && m@ == e,
                Ok((v, rev, rc, arts)) => r matches Ok(m) && m.version == v && m.code_revision@ == rev
                    && m.rustc@ == rc && artifacts_view(m.artifacts@) == arts,
            },
    {
        let lines = crate::protocol_text::split_lines(text);
        let ghost ls = crate::protocol_text::lines_of(text@);
        let mut version: Option<u32> = None;
        let mut code_revision: Option<String> = None;
        let mut rustc: Option<String> = None;
        let mut count: Option<usize> = None;
        let mut artifacts: Vec<ReleaseArtifact> = Vec::new();
        let mut i: usize = 0;
        assert(artifacts_view(artifacts@) =~= Seq::<ArtifactView>::empty());
        while i < lines.len()
            invariant
                crate::protocol_text::strings_view(lines@) == ls,
                ls == crate::protocol_text::lines_of(text@),
                lines@.len() == ls.len(),
                i <= lines@.len(),
                read_lines(ls, i as nat) == Ok::<ManifestFields, Seq<char>>(fields_now(version, code_revision, rustc, count, artifacts@)),
            decreases lines.len() - i,
        {
            assert(lines@[i as int]@ == ls[i as int]);
            let ghost st = fields_now(version, code_revision, rustc, count, artifacts@);
            assert(read_lines(ls, (i + 1) as nat) == read_line(st, i as nat, ls[i as int]));
            match read_manifest_line(&mut version, &mut code_revision, &mut rustc, &mut count, &mut artifacts, i, lines[i].as_str()) {
                Ok(()) => {},
                Err(e) => {
                    proof {
                        assert(read_lines(ls, (i + 1) as nat) is Err);
                        lemma_read_lines_stays_failed(ls, (i + 1) as nat, ls.len());
                        assert(read_lines(ls, ls.len()) == Err::<ManifestFields, Seq<char>>(e@));
                        assert(manifest_of(text@) == Err::<(u32, Seq<char>, Seq<char>, Seq<ArtifactView>), Seq<char>>(e@));
                    }
                    return Err(e);
                },
            }
            i = i + 1;
        }
        let v = match version {
            None => {
                return Err(string_from("release manifest missing auralis_release"));
            },
            Some(v) => v,
        };
        if v != RELEASE_MANIFEST_VERSION {
            let mut m = string_from("release manifest version ");
            push_u64(&mut m, v as u64);
            push_str(&mut m, " is unsupported (expected 1); explicit migration required");
            return Err(m);
        }
        let c = match count {
            None => {
                return Err(string_from("release manifest missing artifact_count"));
            },
            Some(c) => c,
        };
        if c != artifacts.len() {
            let mut m = string_from("artifact_count mismatch: declared=");
            push_u64(&mut m, c as u64);
            push_str(&mut m, " listed=");
            push_u64(&mut m, artifacts.len() as u64);
            return Err(m);
        }
        let artifacts = sort_artifacts(artifacts);
        let code_revision = match code_revision {
            None => {
                return Err(string_from("release manifest missing code_revision"));
            },
            Some(s) => s,
        };
        let rustc = match rustc {
            None => {
                return Err(string_from("release manifest missing rustc"));
            },
            Some(s) => s,
        };
        Ok(ReleaseManifest { version: v, code_revision, rustc, artifacts })
    }
}

proof fn lemma_read_lines_stays_failed(ls: Seq<Seq<char>>, k: nat, n: nat)
    requires
        k <= n,
        read_lines(ls, k) is Err,
    ensures
        read_lines(ls, n) == read_lines(ls, k),
    decreases n - k,
{
    if k < n {
        lemma_read_lines_stays_failed(ls, k + 1, n);
    }
}

/// Reads one line into the fields read so far.
fn read_manifest_line(
    version: &mut Option<u32>,
    code_revision: &mut Option<String>,
    rustc: &mut Option<String>,
    count: &mut Option<usize>,
    artifacts: &mut Vec<ReleaseArtifact>,
    i: usize,
    raw: &str,
) -> (r: Result<(), String>)
    requires
        i < usize::MAX,
    ensures
        match read_line(fields_now(*old(version), *old(code_revision), *old(rustc), *old(count), old(artifacts)@), i as nat, raw@) {
            Err(e) => r matches Err(m) && m@ == e,
            Ok(st) => r is Ok && fields_now(*final(version), *final(code_revision), *final(rustc), *final(count), final(artifacts)@) == st,
        },
{
    let trimmed = crate::session::trim_text(raw);
    let line = trimmed.as_str();
    if line.unicode_len() == 0 || starts_with(line, "#") {
        return Ok(());
    }
    let (key, value) = match split_at_eq(line) {
        None => {
            let mut m = string_from("invalid release manifest line ");
            push_u64(&mut m, (i + 1) as u64);
            return Err(m);
        },
        Some(p) => p,
    };
    let k = key.as_str();
    if same_text(k, "auralis_release") {
        if version.is_some() {
            return Err(string_from("duplicate auralis_release"));
        }
        match crate::text::parse_unsigned(value.as_str(), 4294967295u64) {
            None => Err(string_from("invalid auralis_release")),
            Some(v) => {
                *version = Some(v as u32);
                Ok(())
            },
        }
    } else if same_text(k, "code_revision") {
        if code_revision.is_some() {
            return Err(string_from("duplicate code_revision"));
        }
        *code_revision = Some(value);
        Ok(())
    } else if same_text(k, "rustc") {
        if rustc.is_some() {
            return Err(string_from("duplicate rustc"));
        }
        *rustc = Some(value);
        Ok(())
    } else if same_text(k, "artifact_count") {
        if count.is_some() {
            return Err(string_from("duplicate artifact_count"));
        }
        match crate::text::parse_unsigned(value.as_str(), usize::MAX as u64) {
            None => Err(string_from("invalid artifact_count")),
            Some(c) => {
                *count = Some(c as usize);
                Ok(())
            },
        }
    } else if same_text(k, "artifact") {
        match read_artifact(value.as_str()) {
            Err(e) => Err(e),
            Ok(a) => {
                let ghost before = artifacts@;
                artifacts.push(a);
                assert(artifacts_view(artifacts@) =~= artifacts_view(before).push(artifact_view(a)));
                Ok(())
            },
        }
    } else {
        let mut m = string_from("unknown release manifest field ");
        push_str(&mut m, k);
        Err(m)
    }
}

} // verus!

verus! {

// ---------------------------------------------------------------------------
// Reading back what `encode` writes
// ---------------------------------------------------------------------------

/// Tokens separated by single spaces.
pub open spec fn spaced(ts: Seq<Seq<char>>) -> Seq<char>
    decreases ts.len(),
{
    if ts.len() == 0 {
        Seq::empty()
    } else if ts.len() == 1 {
        ts[0]
    } else {
        spaced(ts.drop_last()) + seq![' '] + ts.last()
    }
}

/// A word: non-empty, without white space.
pub open spec fn word(t: Seq<char>) -> bool {
    t.len() > 0 && forall|i: int| 0 <= i < t.len() ==> !is_ws(#[trigger] t[i])
}

proof fn lemma_ws_tokens_word_extend(a: Seq<char>, w: Seq<char>, k: nat)
    requires
        a.len() > 0,
        !is_ws(a.last()),
        word(w),
        k <= w.len(),
    ensures
        ws_tokens(a + w.subrange(0, k as int)) == ({
            let t = ws_tokens(a);
            t.update(t.len() - 1, t.last() + w.subrange(0, k as int))
        }),
    decreases k,
{
    lemma_ws_tokens_nonempty_when_continuing(a);
    let t = ws_tokens(a);
    if k == 0 {
        assert(a + w.subrange(0, 0) =~= a);
        assert(t.update(t.len() - 1, t.last() + w.subrange(0, 0)) =~= t);
    } else {
        lemma_ws_tokens_word_extend(a, w, (k - 1) as nat);
        let s = a + w.subrange(0, k as int);
        assert(s.drop_last() =~= a + w.subrange(0, k - 1));
        assert(s.last() == w[k - 1]);
        let front = s.drop_last();
        assert(front.len() > 0);
        if k >= 2 {
            assert(front.last() == w[k - 2]);
        } else {
            assert(front.last() == a.last());
        }
        assert((t.last() + w.subrange(0, k - 1)).push(w[k - 1]) =~= t.last() + w.subrange(0, k as int));
        assert(t.update(t.len() - 1, t.last() + w.subrange(0, k - 1)).update(t.len() - 1, (t.last() + w.subrange(0, k - 1)).push(w[k - 1]))
            =~= t.update(t.len() - 1, t.last() + w.subrange(0, k as int)));
    }
}

/// A word after a white-space character starts a new token.
proof fn lemma_ws_tokens_after_space(a: Seq<char>, w: Seq<char>)
    requires
        a.len() > 0,
        is_ws(a.last()),
        word(w),
    ensures
        ws_tokens(a + w) == ws_tokens(a).push(w),
{
    let first = a + w.subrange(0, 1);
    assert(first.drop_last() =~= a);
    assert(first.last() == w[0]);
    assert(ws_tokens(first) == ws_tokens(a).push(seq![w[0]]));
    if w.len() > 1 {
        let rest = w.subrange(1, w.len() as int);
        assert(word(rest)) by {
            assert forall|i: int| 0 <= i < rest.len() implies !is_ws(#[trigger] rest[i]) by {
                assert(rest[i] == w[i + 1]);
            }
        }
        lemma_ws_tokens_word_extend(first, rest, rest.len());
        assert(rest.subrange(0, rest.len() as int) =~= rest);
        assert(first + rest =~= a + w);
        let t = ws_tokens(a).push(seq![w[0]]);
        assert(t.update(t.len() - 1, t.last() + rest) =~= ws_tokens(a).push(w)) by {
            assert(seq![w[0]] + rest =~= w);
        }
    } else {
        assert(first =~= a + w);
        assert(seq![w[0]] =~= w);
    }
}

proof fn lemma_ws_tokens_spaced(ts: Seq<Seq<char>>)
    requires
        ts.len() >= 1,
        forall|i: int| 0 <= i < ts.len() ==> word(#[trigger] ts[i]),
    ensures
        ws_tokens(spaced(ts)) == ts,
        spaced(ts).len() > 0,
        !is_ws(spaced(ts).last()),
    decreases ts.len(),
{
    if ts.len() == 1 {
        let w = ts[0];
        assert(word(ts[0]));
        assert(ws_tokens(Seq::<char>::empty()) =~= Seq::<Seq<char>>::empty());
        lemma_ws_tokens_word_extend_from_empty(w, w.len());
        assert(w.subrange(0, w.len() as int) =~= w);
        assert(ts =~= seq![w]);
        assert(!is_ws(w[w.len() - 1]));
    } else {
        let front = ts.drop_last();
        assert forall|i: int| 0 <= i < front.len() implies word(#[trigger] front[i]) by {
            assert(front[i] == ts[i]);
        }
        lemma_ws_tokens_spaced(front);
        let w = ts.last();
        assert(word(ts[ts.len() - 1]));
        let a = spaced(front) + seq![' '];
        assert(a.drop_last() =~= spaced(front));
        assert(is_ws(a.last()));
        assert(ws_tokens(a) == ws_tokens(spaced(front)));
        lemma_ws_tokens_after_space(a, w);
        assert(ts =~= front.push(w));
        assert(!is_ws(w[w.len() - 1]));
        assert((a + w).last() == w[w.len() - 1]);
    }
}

proof fn lemma_ws_tokens_word_extend_from_empty(w: Seq<char>, k: nat)
    requires
        word(w),
        1 <= k <= w.len(),
    ensures
        ws_tokens(w.subrange(0, k as int)) == seq![w.subrange(0, k as int)],
    decreases k,
{
    let s = w.subrange(0, k as int);
    assert(s.drop_last() =~= w.subrange(0, k - 1));
    assert(s.last() == w[k - 1]);
    assert(!is_ws(w[k - 1]));
    if k == 1 {
        assert(w.subrange(0, 0) =~= Seq::<char>::empty());
        assert(s =~= seq![w[0]]);
        assert(ws_tokens(s.drop_last()) =~= Seq::<Seq<char>>::empty());
        assert(ws_tokens(s) == ws_tokens(s.drop_last()).push(seq![s.last()]));
        assert(Seq::<Seq<char>>::empty().push(seq![w[0]]) =~= seq![s]);
    } else {
        lemma_ws_tokens_word_extend_from_empty(w, (k - 1) as nat);
        assert(s.drop_last().last() == w[k - 2]);
        assert(!is_ws(w[k - 2]));
        assert(w.subrange(0, k - 1).push(w[k - 1]) =~= s);
        let t = ws_tokens(s.drop_last());
        assert(ws_tokens(s) == t.update(t.len() - 1, t.last().push(s.last())));
        assert(t.update(t.len() - 1, t.last().push(s.last())) =~= seq![s]);
    }
}

} // verus!

verus! {

proof fn lemma_hex_char(d: nat)
    requires
        d < 16,
    ensures
        hex_digit_value(crate::optim::hex_char(d)) == Some(d),
        !is_ws(crate::optim::hex_char(d)),
        crate::optim::hex_char(d) != '+',
{
}

proof fn lemma_pow16_positive(k: nat)
    ensures
        crate::optim::pow16(k) > 0,
    decreases k,
{
    if k > 0 {
        lemma_pow16_positive((k - 1) as nat);
    }
}

proof fn lemma_hex16_value(n: nat, k: nat)
    ensures
        crate::optim::hex16(n, k).len() == k,
        all_hex(crate::optim::hex16(n, k)),
        hex_value_of(crate::optim::hex16(n, k)) == n % crate::optim::pow16(k),
        forall|i: int| 0 <= i < k ==> !is_ws(#[trigger] crate::optim::hex16(n, k)[i]) && crate::optim::hex16(n, k)[i] != '+',
    decreases k,
{
    let h = crate::optim::hex16(n, k);
    if k == 0 {
        assert(n % 1 == 0);
    } else {
        let m = (k - 1) as nat;
        lemma_hex16_value(n / 16, m);
        let front = crate::optim::hex16(n / 16, m);
        assert(h == front.push(crate::optim::hex_char(n % 16)));
        assert(h.drop_last() =~= front);
        lemma_hex_char(n % 16);
        lemma_pow16_positive(m);
        assert forall|i: int| 0 <= i < h.len() implies (#[trigger] hex_digit_value(h[i])) is Some by {
            if i < m {
                assert(h[i] == front[i]);
            }
        }
        assert forall|i: int| 0 <= i < k implies !is_ws(#[trigger] h[i]) && h[i] != '+' by {
            if i < m {
                assert(h[i] == front[i]);
            }
        }
        vstd::arithmetic::div_mod::lemma_mod_breakdown(n as int, 16, crate::optim::pow16(m) as int);
        assert(crate::optim::pow16(k) == 16 * crate::optim::pow16(m));
    }
}

/// Sixteen hex digits read back as the number.
proof fn lemma_parse_hex16(c: u64)
    ensures
        parse_hex_spec(crate::optim::hex16(c as nat, 16)) == Some(c),
        word(crate::optim::hex16(c as nat, 16)),
{
    lemma_hex16_value(c as nat, 16);
    assert(crate::optim::pow16(16) == 18446744073709551616) by {
        reveal_with_fuel(crate::optim::pow16, 17);
    }
    let h = crate::optim::hex16(c as nat, 16);
    assert(h[0] != '+');
}

/// Artifacts in path order.
pub open spec fn sorted_by_path(s: Seq<ArtifactView>) -> bool {
    forall|i: int, j: int| 0 <= i < j < s.len() ==> !text_lt(#[trigger] s[j].0, #[trigger] s[i].0)
}

proof fn lemma_sort_sorted(s: Seq<ArtifactView>)
    requires
        sorted_by_path(s),
    ensures
        sort_by_path(s) == s,
    decreases s.len(),
{
    if s.len() > 0 {
        let front = s.drop_last();
        assert(sorted_by_path(front)) by {
            assert forall|i: int, j: int| 0 <= i < j < front.len() implies !text_lt(#[trigger] front[j].0, #[trigger] front[i].0) by {
                assert(front[i] == s[i] && front[j] == s[j]);
            }
        }
        lemma_sort_sorted(front);
        if front.len() > 0 {
            assert(!text_lt(s[s.len() - 1].0, s[s.len() - 2].0));
            assert(front.last() == s[s.len() - 2]);
        }
        assert(insert_pos(front, s.last()) == front.len());
        assert(front.insert(front.len() as int, s.last()) =~= s);
    }
}

proof fn lemma_split_eq(key: Seq<char>, value: Seq<char>)
    requires
        crate::reasoning_suite::free_of(key, '='),
    ensures
        split_eq(key + seq!['='] + value) == Some((key, value)),
{
    let l = key + seq!['='] + value;
    let i = key.len() as int;
    assert(l[i] == '=');
    assert forall|j: int| 0 <= j < i implies l[j] != '=' by {
        assert(l[j] == key[j]);
    }
    assert(crate::protocol_text::first_eq(l, i));
    assert forall|j: int| crate::protocol_text::first_eq(l, j) implies j == i by {
        if j > i {
            assert(l[i] == '=');
        } else if j < i {
            assert(l[j] == key[j]);
        }
    }
    assert(l.subrange(0, i) =~= key);
    assert(l.subrange(i + 1, l.len() as int) =~= value);
}

} // verus!

verus! {

pub open spec fn header_line(key: Seq<char>, value: Seq<char>) -> Seq<char> {
    key + seq!['='] + value
}

pub open spec fn artifact_fields(a: ArtifactView) -> Seq<Seq<char>> {
    seq![a.0, "bytes="@ + dec(a.1 as nat), "checksum="@ + crate::optim::hex16(a.2 as nat, 16)]
}

pub open spec fn art_text(a: ArtifactView) -> Seq<char> {
    header_line("artifact"@, spaced(artifact_fields(a)))
}

pub open spec fn manifest_lines(version: u32, rev: Seq<char>, rc: Seq<char>, arts: Seq<ArtifactView>) -> Seq<Seq<char>> {
    seq![
        header_line("auralis_release"@, dec(version as nat)),
        header_line("code_revision"@, rev),
        header_line("rustc"@, rc),
        header_line("artifact_count"@, dec(arts.len())),
    ] + arts.map_values(|a: ArtifactView| art_text(a))
}

proof fn lemma_artifact_lines_joined(arts: Seq<ArtifactView>)
    ensures
        artifact_lines(arts) == joined_lines(arts.map_values(|a: ArtifactView| art_text(a))),
    decreases arts.len(),
{
    reveal_strlit("artifact=");
    reveal_strlit("artifact");
    reveal_strlit(" bytes=");
    reveal_strlit("bytes=");
    reveal_strlit(" checksum=");
    reveal_strlit("checksum=");
    reveal_strlit("\n");
    if arts.len() > 0 {
        lemma_artifact_lines_joined(arts.drop_last());
        let ls = arts.map_values(|a: ArtifactView| art_text(a));
        assert(ls.drop_last() =~= arts.drop_last().map_values(|a: ArtifactView| art_text(a)));
        let a = arts.last();
        let f = artifact_fields(a);
        let g = f.drop_last();
        assert(g.drop_last() =~= seq![a.0]);
        assert(spaced(g.drop_last()) == a.0);
        assert(g.last() == "bytes="@ + dec(a.1 as nat));
        assert(spaced(g) == spaced(g.drop_last()) + seq![' '] + g.last());
        assert(spaced(f) == spaced(g) + seq![' '] + f.last());
        assert(artifact_line(a) =~= art_text(a) + seq!['\n']);
    } else {
        assert(arts.map_values(|a: ArtifactView| art_text(a)) =~= Seq::<Seq<char>>::empty());
    }
}

proof fn lemma_manifest_text_lines(version: u32, rev: Seq<char>, rc: Seq<char>, arts: Seq<ArtifactView>)
    ensures
        manifest_text(version, rev, rc, arts) == joined_lines(manifest_lines(version, rev, rc, arts)),
{
    reveal_strlit("auralis_release=");
    reveal_strlit("auralis_release");
    reveal_strlit("\ncode_revision=");
    reveal_strlit("code_revision");
    reveal_strlit("\nrustc=");
    reveal_strlit("rustc");
    reveal_strlit("\nartifact_count=");
    reveal_strlit("artifact_count");
    reveal_strlit("\n");
    let head = seq![
        header_line("auralis_release"@, dec(version as nat)),
        header_line("code_revision"@, rev),
        header_line("rustc"@, rc),
        header_line("artifact_count"@, dec(arts.len())),
    ];
    let tail = arts.map_values(|a: ArtifactView| art_text(a));
    lemma_joined_append(head, tail);
    lemma_artifact_lines_joined(arts);
    let h3 = head.drop_last();
    let h2 = h3.drop_last();
    let h1 = h2.drop_last();
    let h0 = h1.drop_last();
    assert(h0 =~= Seq::<Seq<char>>::empty());
    assert(joined_lines(h0) =~= Seq::<char>::empty());
    assert(joined_lines(h1) == joined_lines(h0) + head[0] + seq!['\n']);
    assert(joined_lines(h2) == joined_lines(h1) + head[1] + seq!['\n']);
    assert(joined_lines(h3) == joined_lines(h2) + head[2] + seq!['\n']);
    assert(joined_lines(head) == joined_lines(h3) + head[3] + seq!['\n']);
    assert(joined_lines(head) =~= header_line("auralis_release"@, dec(version as nat)) + seq!['\n']
        + header_line("code_revision"@, rev) + seq!['\n'] + header_line("rustc"@, rc) + seq!['\n']
        + header_line("artifact_count"@, dec(arts.len())) + seq!['\n']);
    assert(manifest_text(version, rev, rc, arts) =~= joined_lines(head) + artifact_lines(arts));
}

/// A header value that reads back as itself: one line, and no white space
/// at its end.
pub open spec fn plain_value(v: Seq<char>) -> bool {
    crate::reasoning_suite::free_of(v, '\n') && (v.len() == 0 || !is_ws(v.last()))
}

/// An artifact that reads back as itself: its path is a word.
pub open spec fn plain_artifact(a: ArtifactView) -> bool {
    word(a.0)
}

proof fn lemma_header_trim(key: Seq<char>, value: Seq<char>)
    requires
        key.len() > 0,
        !is_ws(key[0]),
        key[0] != '#',
        crate::reasoning_suite::free_of(key, '='),
        crate::reasoning_suite::free_of(key, '\n'),
        plain_value(value),
    ensures
        crate::session::repl_trim(header_line(key, value)) == header_line(key, value),
        !has_prefix(header_line(key, value), "#"@),
        split_eq(header_line(key, value)) == Some((key, value)),
        clean_line(header_line(key, value)),
{
    reveal_strlit("#");
    let l = header_line(key, value);
    assert(l[0] == key[0]);
    if value.len() > 0 {
        assert(l.last() == value.last());
    } else {
        assert(l.last() == '=');
    }
    lemma_trim_line(l);
    assert(l.subrange(0, 1)[0] == key[0]);
    lemma_split_eq(key, value);
    assert forall|i: int| 0 <= i < l.len() implies #[trigger] l[i] != '\n' by {
        if i < key.len() {
            assert(l[i] == key[i]);
        } else if i > key.len() {
            assert(l[i] == value[i - key.len() - 1]);
        }
    }
}

proof fn lemma_trim_line(s: Seq<char>)
    requires
        s.len() > 0,
        !is_ws(s[0]),
        !is_ws(s.last()),
    ensures
        crate::session::repl_trim(s) == s,
{
    assert(crate::session::trim_start(s) == s);
    assert(crate::session::trim_end(s) == s);
}

pub open spec fn fields_after(version: u32, rev: Seq<char>, rc: Seq<char>, arts: Seq<ArtifactView>, j: nat) -> ManifestFields {
    (Some(version), Some(rev), Some(rc), Some(arts.len() as usize), arts.subrange(0, j as int))
}

proof fn lemma_read_artifact_line(a: ArtifactView)
    requires
        plain_artifact(a),
    ensures
        artifact_value(spaced(artifact_fields(a))) == Ok::<ArtifactView, Seq<char>>(a),
        plain_value(spaced(artifact_fields(a))),
{
    reveal_strlit("bytes=");
    reveal_strlit("checksum=");
    let f = artifact_fields(a);
    let db = dec(a.1 as nat);
    let h = crate::optim::hex16(a.2 as nat, 16);
    crate::text::lemma_dec_digits(a.1 as nat);
    lemma_parse_hex16(a.2);
    let t1 = "bytes="@ + db;
    let t2 = "checksum="@ + h;
    assert(word(t1)) by {
        assert forall|i: int| 0 <= i < t1.len() implies !is_ws(#[trigger] t1[i]) by {
            if i >= 6 {
                assert(t1[i] == db[i - 6]);
                assert(crate::text::is_digit(db[i - 6]));
            }
        }
    }
    assert(word(t2)) by {
        assert forall|i: int| 0 <= i < t2.len() implies !is_ws(#[trigger] t2[i]) by {
            if i >= 9 {
                assert(t2[i] == h[i - 9]);
            }
        }
    }
    assert forall|i: int| 0 <= i < f.len() implies word(#[trigger] f[i]) by {}
    lemma_ws_tokens_spaced(f);
    assert(t1.subrange(0, 6) =~= "bytes="@);
    assert(t1.subrange(6, t1.len() as int) =~= db);
    assert(t2.subrange(0, 9) =~= "checksum="@);
    assert(t2.subrange(9, t2.len() as int) =~= h);
    crate::text::lemma_parse_dec(a.1 as nat);
    let v = spaced(f);
    assert forall|i: int| 0 <= i < v.len() implies #[trigger] v[i] != '\n' by {
        lemma_spaced_no_newline(f, i);
    }
}

proof fn lemma_spaced_no_newline(ts: Seq<Seq<char>>, i: int)
    requires
        forall|k: int| 0 <= k < ts.len() ==> word(#[trigger] ts[k]),
        0 <= i < spaced(ts).len(),
    ensures
        spaced(ts)[i] != '\n',
    decreases ts.len(),
{
    if ts.len() == 1 {
        assert(word(ts[0]));
        assert(!is_ws(ts[0][i]));
    } else if ts.len() > 1 {
        let front = ts.drop_last();
        let w = ts.last();
        assert(word(ts[ts.len() - 1]));
        let p = spaced(front);
        if i < p.len() {
            assert forall|k: int| 0 <= k < front.len() implies word(#[trigger] front[k]) by {
                assert(front[k] == ts[k]);
            }
            lemma_spaced_no_newline(front, i);
            assert(spaced(ts)[i] == p[i]);
        } else if i > p.len() {
            assert(spaced(ts)[i] == w[i - p.len() - 1]);
            assert(!is_ws(w[i - p.len() - 1]));
        }
    }
}

} // verus!

verus! {

proof fn lemma_key_facts()
    ensures
        "auralis_release"@.len() == 15,
        "code_revision"@.len() == 13,
        "rustc"@.len() == 5,
        "artifact_count"@.len() == 14,
        "artifact"@.len() == 8,
        "auralis_release"@[0] == 'a' && "code_revision"@[0] == 'c' && "rustc"@[0] == 'r'
            && "artifact_count"@[0] == 'a' && "artifact"@[0] == 'a',
        crate::reasoning_suite::free_of("auralis_release"@, '=') && crate::reasoning_suite::free_of("auralis_release"@, '\n'),
        crate::reasoning_suite::free_of("code_revision"@, '=') && crate::reasoning_suite::free_of("code_revision"@, '\n'),
        crate::reasoning_suite::free_of("rustc"@, '=') && crate::reasoning_suite::free_of("rustc"@, '\n'),
        crate::reasoning_suite::free_of("artifact_count"@, '=') && crate::reasoning_suite::free_of("artifact_count"@, '\n'),
        crate::reasoning_suite::free_of("artifact"@, '=') && crate::reasoning_suite::free_of("artifact"@, '\n'),
{
    reveal_strlit("auralis_release");
    reveal_strlit("code_revision");
    reveal_strlit("rustc");
    reveal_strlit("artifact_count");
    reveal_strlit("artifact");
}

proof fn lemma_dec_plain(n: nat)
    ensures
        plain_value(dec(n)),
        crate::text::parse_bounded(dec(n), n) == Some(n),
{
    crate::text::lemma_dec_digits(n);
    crate::text::lemma_parse_dec(n);
    let d = dec(n);
    assert(crate::text::is_digit(d[d.len() - 1]));
    assert forall|i: int| 0 <= i < d.len() implies #[trigger] d[i] != '\n' by {
        assert(crate::text::is_digit(d[i]));
    }
}

proof fn lemma_read_headers(version: u32, rev: Seq<char>, rc: Seq<char>, arts: Seq<ArtifactView>)
    requires
        plain_value(rev),
        plain_value(rc),
        arts.len() <= usize::MAX,
    ensures
        ({
            let ls = manifest_lines(version, rev, rc, arts);
            read_lines(ls, 4) == Ok::<ManifestFields, Seq<char>>(fields_after(version, rev, rc, arts, 0))
        }),
{
    lemma_key_facts();
    let ls = manifest_lines(version, rev, rc, arts);
    lemma_dec_plain(version as nat);
    lemma_dec_plain(arts.len());
    crate::text::lemma_parse_dec(version as nat);
    crate::text::lemma_parse_dec(arts.len());
    lemma_header_trim("auralis_release"@, dec(version as nat));
    lemma_header_trim("code_revision"@, rev);
    lemma_header_trim("rustc"@, rc);
    lemma_header_trim("artifact_count"@, dec(arts.len()));
    assert(ls[0] == header_line("auralis_release"@, dec(version as nat)));
    assert(ls[1] == header_line("code_revision"@, rev));
    assert(ls[2] == header_line("rustc"@, rc));
    assert(ls[3] == header_line("artifact_count"@, dec(arts.len())));
    let s0: ManifestFields = (None, None, None, None, Seq::empty());
    let s1: ManifestFields = (Some(version), None, None, None, Seq::empty());
    let s2: ManifestFields = (Some(version), Some(rev), None, None, Seq::empty());
    let s3: ManifestFields = (Some(version), Some(rev), Some(rc), None, Seq::empty());
    assert(read_lines(ls, 0) == Ok::<ManifestFields, Seq<char>>(s0));
    assert(read_line(s0, 0, ls[0]) == Ok::<ManifestFields, Seq<char>>(s1));
    assert(read_lines(ls, 1) == Ok::<ManifestFields, Seq<char>>(s1));
    assert("code_revision"@ != "auralis_release"@);
    assert(read_line(s1, 1, ls[1]) == Ok::<ManifestFields, Seq<char>>(s2));
    assert(read_lines(ls, 2) == Ok::<ManifestFields, Seq<char>>(s2));
    assert("rustc"@ != "auralis_release"@ && "rustc"@ != "code_revision"@);
    assert(read_line(s2, 2, ls[2]) == Ok::<ManifestFields, Seq<char>>(s3));
    assert(read_lines(ls, 3) == Ok::<ManifestFields, Seq<char>>(s3));
    assert("artifact_count"@ != "auralis_release"@ && "artifact_count"@ != "code_revision"@ && "artifact_count"@ != "rustc"@);
    assert(arts.subrange(0, 0) =~= Seq::<ArtifactView>::empty());
    assert(read_line(s3, 3, ls[3]) == Ok::<ManifestFields, Seq<char>>(fields_after(version, rev, rc, arts, 0)));
}

proof fn lemma_read_artifacts(version: u32, rev: Seq<char>, rc: Seq<char>, arts: Seq<ArtifactView>, j: nat)
    requires
        plain_value(rev),
        plain_value(rc),
        arts.len() <= usize::MAX,
        forall|i: int| 0 <= i < arts.len() ==> plain_artifact(#[trigger] arts[i]),
        j <= arts.len(),
    ensures
        ({
            let ls = manifest_lines(version, rev, rc, arts);
            read_lines(ls, 4 + j) == Ok::<ManifestFields, Seq<char>>(fields_after(version, rev, rc, arts, j))
        }),
    decreases j,
{
    let ls = manifest_lines(version, rev, rc, arts);
    if j == 0 {
        lemma_read_headers(version, rev, rc, arts);
    } else {
        lemma_read_artifacts(version, rev, rc, arts, (j - 1) as nat);
        lemma_key_facts();
        let a = arts[j - 1];
        assert(plain_artifact(a));
        lemma_read_artifact_line(a);
        lemma_header_trim("artifact"@, spaced(artifact_fields(a)));
        assert(ls[4 + j - 1] == art_text(a));
        assert("artifact"@ != "auralis_release"@ && "artifact"@ != "code_revision"@ && "artifact"@ != "rustc"@
            && "artifact"@ != "artifact_count"@);
        assert(arts.subrange(0, j - 1).push(a) =~= arts.subrange(0, j as int));
        assert(read_line(fields_after(version, rev, rc, arts, (j - 1) as nat), (4 + j - 1) as nat, ls[4 + j - 1])
            == Ok::<ManifestFields, Seq<char>>(fields_after(version, rev, rc, arts, j)));
    }
}

/// Reading back an encoded manifest gives its version, code revision,
/// compiler and artifacts, provided the header values are single lines
/// without trailing white space, artifact paths are words, and the
/// artifacts are in path order (as `capture` leaves them).
pub proof fn lemma_manifest_roundtrip(m: ReleaseManifest)
    requires
        m.version == RELEASE_MANIFEST_VERSION,
        m.artifacts@.len() <= usize::MAX,
        plain_value(m.code_revision@),
        plain_value(m.rustc@),
        forall|i: int| 0 <= i < m.artifacts@.len() ==> plain_artifact(#[trigger] artifacts_view(m.artifacts@)[i]),
        sorted_by_path(artifacts_view(m.artifacts@)),
    ensures
        manifest_of(m.spec_text()) == Ok::<(u32, Seq<char>, Seq<char>, Seq<ArtifactView>), Seq<char>>(
            (m.version, m.code_revision@, m.rustc@, artifacts_view(m.artifacts@))),
{
    let arts = artifacts_view(m.artifacts@);
    let rev = m.code_revision@;
    let rc = m.rustc@;
    let ls = manifest_lines(m.version, rev, rc, arts);
    assert forall|i: int| 0 <= i < arts.len() implies plain_artifact(#[trigger] arts[i]) by {}
    lemma_manifest_text_lines(m.version, rev, rc, arts);
    lemma_key_facts();
    lemma_dec_plain(m.version as nat);
    lemma_dec_plain(arts.len());
    lemma_header_trim("auralis_release"@, dec(m.version as nat));
    lemma_header_trim("code_revision"@, rev);
    lemma_header_trim("rustc"@, rc);
    lemma_header_trim("artifact_count"@, dec(arts.len()));
    assert forall|i: int| 0 <= i < ls.len() implies clean_line(#[trigger] ls[i]) by {
        if i >= 4 {
            let a = arts[i - 4];
            lemma_read_artifact_line(a);
            lemma_header_trim("artifact"@, spaced(artifact_fields(a)));
            assert(ls[i] == art_text(a));
        }
    }
    lemma_lines_of_joined(ls);
    let all = ls.push(Seq::<char>::empty());
    lemma_read_artifacts(m.version, rev, rc, arts, arts.len());
    assert forall|k: nat| k <= ls.len() implies read_lines(all, k) == read_lines(ls, k) by {
        lemma_read_lines_prefix(ls, Seq::<char>::empty(), k);
    }
    assert(arts.subrange(0, arts.len() as int) =~= arts);
    assert(read_lines(all, all.len()) == Ok::<ManifestFields, Seq<char>>(fields_after(m.version, rev, rc, arts, arts.len())));
    lemma_sort_sorted(arts);
}

proof fn lemma_read_lines_prefix(ls: Seq<Seq<char>>, extra: Seq<char>, k: nat)
    requires
        k <= ls.len(),
    ensures
        read_lines(ls.push(extra), k) == read_lines(ls, k),
    decreases k,
{
    if k > 0 {
        lemma_read_lines_prefix(ls, extra, (k - 1) as nat);
        assert(ls.push(extra)[k - 1] == ls[k - 1]);
    }
}

} // verus!

verus! {

proof fn lemma_not_lt_transitive(a: Seq<char>, b: Seq<char>, c: Seq<char>)
    requires
        !text_lt(a, b),
        !text_lt(b, c),
    ensures
        !text_lt(a, c),
{
    crate::order::lemma_text_lt_total(a, b);
    crate::order::lemma_text_lt_transitive(b, a, c);
}

proof fn lemma_insert_sorted(s: Seq<ArtifactView>, x: ArtifactView)
    requires
        sorted_by_path(s),
    ensures
        sorted_by_path(s.insert(insert_pos(s, x) as int, x)),
    decreases s.len(),
{
    lemma_insert_pos_bound(s, x);
    let r = s.insert(insert_pos(s, x) as int, x);
    if s.len() == 0 {
        assert(r =~= seq![x]);
    } else {
        let front = s.drop_last();
        let last = s.last();
        assert(sorted_by_path(front)) by {
            assert forall|i: int, j: int| 0 <= i < j < front.len() implies !text_lt(#[trigger] front[j].0, #[trigger] front[i].0) by {
                assert(front[i] == s[i] && front[j] == s[j]);
            }
        }
        if text_lt(x.0, last.0) {
            let p = insert_pos(front, x);
            lemma_insert_sorted(front, x);
            lemma_insert_pos_bound(front, x);
            let f2 = front.insert(p as int, x);
            assert(r =~= f2.push(last));
            crate::order::lemma_text_lt_asymmetric(x.0, last.0);
            assert forall|i: int, j: int| 0 <= i < j < r.len() implies !text_lt(#[trigger] r[j].0, #[trigger] r[i].0) by {
                if j == r.len() - 1 {
                    assert(r[j] == last);
                    if i < p {
                        assert(r[i] == s[i]);
                    } else if i == p {
                        assert(r[i] == x);
                    } else {
                        assert(r[i] == s[i - 1]);
                    }
                } else {
                    assert(r[i] == f2[i] && r[j] == f2[j]);
                }
            }
        } else {
            assert(insert_pos(s, x) == s.len());
            assert(r =~= s.push(x));
            assert forall|i: int, j: int| 0 <= i < j < r.len() implies !text_lt(#[trigger] r[j].0, #[trigger] r[i].0) by {
                if j == r.len() - 1 {
                    assert(r[j] == x);
                    assert(r[i] == s[i]);
                    if i < s.len() - 1 {
                        assert(!text_lt(s[s.len() - 1].0, s[i].0));
                        lemma_not_lt_transitive(x.0, last.0, s[i].0);
                    }
                } else {
                    assert(r[i] == s[i] && r[j] == s[j]);
                }
            }
        }
    }
}

/// Sorting by path leaves the artifacts in path order.
pub proof fn lemma_sort_by_path_sorted(s: Seq<ArtifactView>)
    ensures
        sorted_by_path(sort_by_path(s)),
    decreases s.len(),
{
    if s.len() > 0 {
        lemma_sort_by_path_sorted(s.drop_last());
        lemma_insert_sorted(sort_by_path(s.drop_last()), s.last());
    }
}

} // verus!
