use vstd::prelude::*;

use crate::conflict::{
    Conflict, ConflictModel, ConflictRegion, RegionModel, conflict_wf, lemma_seq_models_push,
    seq_models, spec_name_model,
};

verus! {

// ---------------------------------------------------------------------------
// Splitting a document into lines.
// ---------------------------------------------------------------------------

/// Index of the first newline byte in `s`, or -1 if there is none.
pub open spec fn first_nl(s: Seq<u8>) -> int
    decreases s.len(),
{
    if s.len() == 0 {
        -1
    } else if s[0] == 10u8 {
        0
    } else {
        let r: int = first_nl(s.skip(1));
        if r < 0 {
            -1
        } else {
            r + 1
        }
    }
}

/// The lines of a document: the segments between newline bytes. The segment
/// after the last newline is a line too, so every document has at least one
/// line and a document ending in a newline ends with an empty one.
pub open spec fn lines_of(s: Seq<u8>) -> Seq<Seq<u8>>
    decreases s.len(),
{
    let i: int = first_nl(s);
    if 0 <= i < s.len() {
        seq![s.take(i)] + lines_of(s.skip(i + 1))
    } else {
        seq![s]
    }
}

/// `first_nl` answers -1 exactly on newline-free sequences, and otherwise
/// names the unique first newline.
pub proof fn lemma_first_nl_char(s: Seq<u8>, q: int)
    requires
        0 <= q <= s.len(),
        forall|k: int| 0 <= k < q ==> s[k] != 10u8,
        q == s.len() || s[q] == 10u8,
    ensures
        first_nl(s) == if q == s.len() {
            -1int
        } else {
            q
        },
    decreases q,
{
    if q == 0 {
    } else {
        let t = s.skip(1);
        assert forall|k: int| 0 <= k < q - 1 implies t[k] != 10u8 by {
            assert(t[k] == s[k + 1]);
        }
        if q < s.len() {
            assert(t[q - 1] == s[q]);
        }
        lemma_first_nl_char(t, q - 1);
    }
}

pub proof fn lemma_lines_len_bound(s: Seq<u8>)
    ensures
        lines_of(s).len() <= s.len() + 1,
    decreases s.len(),
{
    let i: int = first_nl(s);
    if 0 <= i < s.len() {
        lemma_lines_len_bound(s.skip(i + 1));
    }
}

/// How one line is peeled off the front of a document: if the first `q`
/// bytes are newline-free and byte `q` is a newline (or the document ends
/// there), the first line is those `q` bytes.
pub proof fn lemma_lines_step(s: Seq<u8>, q: int)
    requires
        0 <= q <= s.len(),
        forall|k: int| 0 <= k < q ==> s[k] != 10u8,
        q == s.len() || s[q] == 10u8,
    ensures
        q == s.len() ==> lines_of(s) == seq![s],
        q < s.len() ==> lines_of(s) == seq![s.take(q)] + lines_of(s.skip(q + 1)),
{
    lemma_first_nl_char(s, q);
}

// ---------------------------------------------------------------------------
// Marker lines and their labels.
// ---------------------------------------------------------------------------

/// Whether a line is a marker line: it begins with seven copies of the
/// marker byte.
pub open spec fn is_marker(line: Seq<u8>, m: u8) -> bool {
    line.len() >= 7 && forall|k: int| 0 <= k < 7 ==> line[k] == m
}

/// Horizontal whitespace stripped from both ends of a marker label.
pub open spec fn is_blank(b: u8) -> bool {
    b == 32u8 || b == 9u8 || b == 13u8
}

pub open spec fn trim_start(s: Seq<u8>) -> Seq<u8>
    decreases s.len(),
{
    if s.len() > 0 && is_blank(s[0]) {
        trim_start(s.skip(1))
    } else {
        s
    }
}

pub open spec fn trim_end(s: Seq<u8>) -> Seq<u8>
    decreases s.len(),
{
    if s.len() > 0 && is_blank(s[s.len() - 1]) {
        trim_end(s.take(s.len() - 1))
    } else {
        s
    }
}

/// `s` with blanks stripped from both ends.
pub open spec fn trimmed(s: Seq<u8>) -> Seq<u8> {
    trim_end(trim_start(s))
}

/// The label trailing a marker line: the text after the seven marker bytes,
/// trimmed; an empty remainder means no label.
pub open spec fn name_of(line: Seq<u8>) -> Option<Seq<u8>> {
    let t = trimmed(line.skip(7));
    if t.len() == 0 {
        None
    } else {
        Some(t)
    }
}

// ---------------------------------------------------------------------------
// The scanning state machine.
// ---------------------------------------------------------------------------

/// The mode of the scanner between lines: outside any conflict, or inside
/// one, remembering the markers seen so far of the conflict being built.
pub ghost enum ModeModel {
    Scanning,
    Opened { ours_start: int, ours_name: Option<Seq<u8>> },
    AncestorOpened {
        ours_start: int,
        ours_name: Option<Seq<u8>>,
        ancestor_start: int,
        ancestor_name: Option<Seq<u8>>,
    },
    Separated {
        ours_start: int,
        ours_name: Option<Seq<u8>>,
        ancestor_start: Option<int>,
        ancestor_name: Option<Seq<u8>>,
        theirs_start: int,
    },
}

pub ghost struct ScanState {
    pub found: Seq<ConflictModel>,
    pub mode: ModeModel,
}

pub open spec fn scan_init() -> ScanState {
    ScanState { found: Seq::empty(), mode: ModeModel::Scanning }
}

/// The conflict assembled when the closing marker of a conflict is reached.
pub open spec fn finish_conflict(
    ours_start: int,
    ours_name: Option<Seq<u8>>,
    ancestor_start: Option<int>,
    ancestor_name: Option<Seq<u8>>,
    theirs_start: int,
    end_line: int,
    theirs_name: Option<Seq<u8>>,
    last_len: int,
) -> ConflictModel {
    ConflictModel {
        ours: RegionModel {
            start: ours_start,
            end: match ancestor_start {
                Some(a) => a,
                None => theirs_start,
            },
            name: ours_name,
        },
        theirs: RegionModel { start: theirs_start, end: end_line, name: theirs_name },
        ancestor: match ancestor_start {
            Some(a) => Some(RegionModel { start: a, end: theirs_start, name: ancestor_name }),
            None => None,
        },
        last_len: last_len,
    }
}

/// One step of the scanner: how the line at index `lineno` moves the state.
/// A line opening a conflict enters `Opened`; an ancestor marker may then
/// open the diff3 middle region; the separator enters `Separated`; the end
/// marker emits the finished conflict. Any other line leaves the state
/// alone, so stray or repeated markers never disturb conflicts already
/// collected.
pub open spec fn scan_step(st: ScanState, line: Seq<u8>, lineno: int) -> ScanState {
    match st.mode {
        ModeModel::Scanning => if is_marker(line, 60u8) {
            ScanState {
                found: st.found,
                mode: ModeModel::Opened { ours_start: lineno, ours_name: name_of(line) },
            }
        } else {
            st
        },
        ModeModel::Opened { ours_start, ours_name } => if is_marker(line, 124u8) {
            ScanState {
                found: st.found,
                mode: ModeModel::AncestorOpened {
                    ours_start,
                    ours_name,
                    ancestor_start: lineno,
                    ancestor_name: name_of(line),
                },
            }
        } else if is_marker(line, 61u8) {
            ScanState {
                found: st.found,
                mode: ModeModel::Separated {
                    ours_start,
                    ours_name,
                    ancestor_start: None,
                    ancestor_name: None,
                    theirs_start: lineno,
                },
            }
        } else {
            st
        },
        ModeModel::AncestorOpened { ours_start, ours_name, ancestor_start, ancestor_name } => if is_marker(
            line,
            61u8,
        ) {
            ScanState {
                found: st.found,
                mode: ModeModel::Separated {
                    ours_start,
                    ours_name,
                    ancestor_start: Some(ancestor_start),
                    ancestor_name,
                    theirs_start: lineno,
                },
            }
        } else {
            st
        },
        ModeModel::Separated { ours_start, ours_name, ancestor_start, ancestor_name, theirs_start } => if is_marker(
            line,
            62u8,
        ) {
            ScanState {
                found: st.found.push(
                    finish_conflict(
                        ours_start,
                        ours_name,
                        ancestor_start,
                        ancestor_name,
                        theirs_start,
                        lineno,
                        name_of(line),
                        line.len() as int,
                    ),
                ),
                mode: ModeModel::Scanning,
            }
        } else {
            st
        },
    }
}

/// The scanner's state after the first `n` lines.
pub open spec fn scan_upto(lines: Seq<Seq<u8>>, n: int) -> ScanState
    decreases n,
{
    if n <= 0 {
        scan_init()
    } else {
        scan_step(scan_upto(lines, n - 1), lines[n - 1], n - 1)
    }
}

/// All conflicts the scanner finds in `lines`.
pub open spec fn scan_spec(lines: Seq<Seq<u8>>) -> Seq<ConflictModel> {
    scan_upto(lines, lines.len() as int).found
}

/// Whether the scanner ends outside any conflict; when it does not, the
/// trailing lines opened a conflict that never closed.
pub open spec fn scan_complete(lines: Seq<Seq<u8>>) -> bool {
    scan_upto(lines, lines.len() as int).mode is Scanning
}

// ---------------------------------------------------------------------------
// Shape of the scanner's output.
// ---------------------------------------------------------------------------

/// A conflict whose marker lines are strictly ordered, adjacent region by
/// region, and all below `n`.
pub open spec fn conflict_shape(c: ConflictModel, n: int) -> bool {
    &&& 0 <= c.ours.start < c.ours.end <= c.theirs.start < c.theirs.end < n
    &&& match c.ancestor {
        Some(a) => c.ours.end == a.start && a.end == c.theirs.start,
        None => c.ours.end == c.theirs.start,
    }
    &&& 0 <= c.last_len
}

/// The line where the conflict being built started, or `n` when the scanner
/// is outside any conflict.
pub open spec fn mode_start(m: ModeModel, n: int) -> int {
    match m {
        ModeModel::Scanning => n,
        ModeModel::Opened { ours_start, .. } => ours_start,
        ModeModel::AncestorOpened { ours_start, .. } => ours_start,
        ModeModel::Separated { ours_start, .. } => ours_start,
    }
}

pub open spec fn mode_wf(m: ModeModel, n: int) -> bool {
    match m {
        ModeModel::Scanning => true,
        ModeModel::Opened { ours_start, .. } => 0 <= ours_start < n,
        ModeModel::AncestorOpened { ours_start, ancestor_start, .. } => 0 <= ours_start
            < ancestor_start < n,
        ModeModel::Separated { ours_start, ancestor_start, theirs_start, .. } => {
            &&& 0 <= ours_start < theirs_start < n
            &&& match ancestor_start {
                Some(a) => ours_start < a < theirs_start,
                None => true,
            }
        },
    }
}

/// Invariant of the scan after `n` lines: every collected conflict is
/// well-shaped and lies before the conflict being built, and consecutive
/// conflicts do not overlap.
pub open spec fn state_inv(st: ScanState, n: int) -> bool {
    &&& forall|i: int|
        0 <= i < st.found.len() ==> conflict_shape(#[trigger] st.found[i], mode_start(st.mode, n))
    &&& forall|i: int|
        0 <= i && i + 1 < st.found.len() ==> #[trigger] st.found[i].theirs.end < st.found[i
            + 1].ours.start
    &&& mode_wf(st.mode, n)
}

pub proof fn lemma_scan_upto_inv(lines: Seq<Seq<u8>>, n: int)
    requires
        0 <= n <= lines.len(),
    ensures
        state_inv(scan_upto(lines, n), n),
    decreases n,
{
    if n <= 0 {
    } else {
        lemma_scan_upto_inv(lines, n - 1);
        let prev = scan_upto(lines, n - 1);
        let cur = scan_upto(lines, n);
        let line = lines[n - 1];
        assert(cur == scan_step(prev, line, n - 1));
        let m0 = mode_start(prev.mode, n - 1);
        let m1 = mode_start(cur.mode, n);
        assert(m0 <= m1);
        if cur.found.len() == prev.found.len() {
            assert(cur.found == prev.found);
            assert forall|i: int| 0 <= i < cur.found.len() implies conflict_shape(
                #[trigger] cur.found[i],
                m1,
            ) by {
                assert(conflict_shape(prev.found[i], m0));
            }
        } else {
            match prev.mode {
                ModeModel::Separated {
                    ours_start,
                    ours_name,
                    ancestor_start,
                    ancestor_name,
                    theirs_start,
                } => {
                    let c = finish_conflict(
                        ours_start,
                        ours_name,
                        ancestor_start,
                        ancestor_name,
                        theirs_start,
                        n - 1,
                        name_of(line),
                        line.len() as int,
                    );
                    assert(cur.found == prev.found.push(c));
                    assert(mode_wf(prev.mode, n - 1));
                    assert(conflict_shape(c, m1));
                    assert forall|i: int| 0 <= i < cur.found.len() implies conflict_shape(
                        #[trigger] cur.found[i],
                        m1,
                    ) by {
                        if i < prev.found.len() {
                            assert(cur.found[i] == prev.found[i]);
                            assert(conflict_shape(prev.found[i], m0));
                        } else {
                            assert(cur.found[i] == c);
                        }
                    }
                    assert forall|i: int|
                        0 <= i && i + 1 < cur.found.len() implies #[trigger] cur.found[i].theirs.end
                        < cur.found[i + 1].ours.start by {
                        if i + 1 < prev.found.len() {
                            assert(cur.found[i] == prev.found[i] && cur.found[i + 1]
                                == prev.found[i + 1]);
                        } else {
                            assert(cur.found[i] == prev.found[i]);
                            assert(conflict_shape(prev.found[i], m0));
                            assert(cur.found[i + 1] == c);
                            assert(c.ours.start == m0);
                        }
                    }
                },
                _ => {
                    assert(false);
                },
            }
        }
    }
}

/// Every conflict the scanner reports is well-shaped — in particular, for a
/// classic conflict the upper region ends exactly where the lower one
/// starts, and for a diff3 conflict the ancestor region fills the gap — and
/// the conflicts come in ascending document order without overlap.
pub proof fn lemma_scan_spec_wf(lines: Seq<Seq<u8>>)
    ensures
        forall|i: int|
            0 <= i < scan_spec(lines).len() ==> conflict_shape(
                #[trigger] scan_spec(lines)[i],
                lines.len() as int,
            ),
        forall|i: int|
            0 <= i && i + 1 < scan_spec(lines).len() ==> #[trigger] scan_spec(lines)[i].theirs.end
                < scan_spec(lines)[i + 1].ours.start,
{
    lemma_scan_upto_inv(lines, lines.len() as int);
    let st = scan_upto(lines, lines.len() as int);
    assert(mode_start(st.mode, lines.len() as int) <= lines.len() as int);
}

// ---------------------------------------------------------------------------
// The executable scanner.
// ---------------------------------------------------------------------------

/// Whether the line `text[ls..le]` begins with seven copies of `m`.
fn line_is_marker(text: &Vec<u8>, ls: usize, le: usize, m: u8) -> (r: bool)
    requires
        ls <= le <= text@.len(),
    ensures
        r == is_marker(text@.subrange(ls as int, le as int), m),
{
    let ghost line = text@.subrange(ls as int, le as int);
    if le - ls < 7 {
        return false;
    }
    let mut k: usize = 0;
    while k < 7
        invariant
            ls + 7 <= le <= text@.len(),
            0 <= k <= 7,
            line == text@.subrange(ls as int, le as int),
            forall|j: int| 0 <= j < k ==> #[trigger] text@[ls + j] == m,
        decreases 7 - k,
    {
        if text[ls + k] != m {
            proof {
                assert(line[k as int] == text@[ls + k as int]);
            }
            return false;
        }
        k = k + 1;
    }
    proof {
        assert forall|j: int| 0 <= j < 7 implies line[j] == m by {
            assert(line[j] == text@[ls + j]);
        }
    }
    true
}

/// The label of the marker line `text[ls..le]`: the text after the seven
/// marker bytes with surrounding blanks stripped, or nothing when that text
/// is empty.
fn line_name(text: &Vec<u8>, ls: usize, le: usize) -> (r: Option<Vec<u8>>)
    requires
        ls <= le <= text@.len(),
        le - ls >= 7,
    ensures
        spec_name_model(r) == name_of(text@.subrange(ls as int, le as int)),
{
    let ghost line = text@.subrange(ls as int, le as int);
    let ghost tail = line.skip(7);
    proof {
        assert(tail =~= text@.subrange(ls as int + 7, le as int));
    }
    let mut a: usize = ls + 7;
    let mut b: usize = le;
    while a < b && (text[a] == 32u8 || text[a] == 9u8 || text[a] == 13u8)
        invariant
            ls + 7 <= a <= b,
            b == le,
            le <= text@.len(),
            trim_start(text@.subrange(ls as int + 7, le as int)) == trim_start(
                text@.subrange(a as int, le as int),
            ),
        decreases b - a,
    {
        proof {
            let cur = text@.subrange(a as int, le as int);
            assert(cur[0] == text@[a as int]);
            assert(cur.skip(1) =~= text@.subrange(a as int + 1, le as int));
        }
        a = a + 1;
    }
    proof {
        let cur = text@.subrange(a as int, le as int);
        if a < le {
            assert(cur[0] == text@[a as int]);
        }
        assert(trim_start(cur) == cur);
    }
    while b > a && (text[b - 1] == 32u8 || text[b - 1] == 9u8 || text[b - 1] == 13u8)
        invariant
            ls + 7 <= a <= b <= le,
            le <= text@.len(),
            trim_end(text@.subrange(a as int, le as int)) == trim_end(
                text@.subrange(a as int, b as int),
            ),
        decreases b,
    {
        proof {
            let cur = text@.subrange(a as int, b as int);
            assert(cur[cur.len() - 1] == text@[b as int - 1]);
            assert(cur.take(cur.len() - 1) =~= text@.subrange(a as int, b as int - 1));
        }
        b = b - 1;
    }
    proof {
        let cur = text@.subrange(a as int, b as int);
        if a < b {
            assert(cur[cur.len() - 1] == text@[b as int - 1]);
        }
        assert(trim_end(cur) == cur);
        assert(trimmed(tail) == text@.subrange(a as int, b as int));
    }
    if a == b {
        None
    } else {
        let mut out: Vec<u8> = Vec::new();
        let mut i: usize = a;
        while i < b
            invariant
                a <= i <= b <= text@.len(),
                out@ == text@.subrange(a as int, i as int),
            decreases b - i,
        {
            out.push(text[i]);
            proof {
                assert(out@ =~= text@.subrange(a as int, i as int + 1));
            }
            i = i + 1;
        }
        proof {
            assert(out@ == trimmed(tail));
        }
        Some(out)
    }
}

/// The scanner's mode between lines, carrying the markers of the conflict
/// being built.
enum Mode {
    Scanning,
    Opened { ours_start: u32, ours_name: Option<Vec<u8>> },
    AncestorOpened {
        ours_start: u32,
        ours_name: Option<Vec<u8>>,
        ancestor_start: u32,
        ancestor_name: Option<Vec<u8>>,
    },
    Separated {
        ours_start: u32,
        ours_name: Option<Vec<u8>>,
        ancestor_start: Option<u32>,
        ancestor_name: Option<Vec<u8>>,
        theirs_start: u32,
    },
}

spec fn mode_model(m: Mode) -> ModeModel {
    match m {
        Mode::Scanning => ModeModel::Scanning,
        Mode::Opened { ours_start, ours_name } => ModeModel::Opened {
            ours_start: ours_start as int,
            ours_name: spec_name_model(ours_name),
        },
        Mode::AncestorOpened { ours_start, ours_name, ancestor_start, ancestor_name } => ModeModel::AncestorOpened {
            ours_start: ours_start as int,
            ours_name: spec_name_model(ours_name),
            ancestor_start: ancestor_start as int,
            ancestor_name: spec_name_model(ancestor_name),
        },
        Mode::Separated {
            ours_start,
            ours_name,
            ancestor_start,
            ancestor_name,
            theirs_start,
        } => ModeModel::Separated {
            ours_start: ours_start as int,
            ours_name: spec_name_model(ours_name),
            ancestor_start: match ancestor_start {
                Some(a) => Some(a as int),
                None => None,
            },
            ancestor_name: spec_name_model(ancestor_name),
            theirs_start: theirs_start as int,
        },
    }
}

/// Scans a document for conflict markers.
///
/// Returns the conflicts in ascending document order, and whether the
/// scanner ended outside any conflict; `false` means the document's tail
/// opened a conflict that never closed, which is dropped while every
/// conflict already collected stays valid.
pub fn scan(text: &Vec<u8>) -> (r: (Vec<Conflict>, bool))
    requires
        text@.len() < u32::MAX,
    ensures
        seq_models(r.0@) == scan_spec(lines_of(text@)),
        r.1 == scan_complete(lines_of(text@)),
        forall|i: int| 0 <= i < r.0@.len() ==> conflict_wf(#[trigger] r.0@[i]@),
        forall|i: int|
            0 <= i && i + 1 < r.0@.len() ==> #[trigger] r.0@[i]@.theirs.end < r.0@[i
                + 1]@.ours.start,
{
    let ghost doc = text@;
    let ghost lines = lines_of(doc);
    proof {
        lemma_lines_len_bound(doc);
        assert(doc.skip(0) =~= doc);
    }
    let n = text.len();
    let mut found: Vec<Conflict> = Vec::new();
    let mut mode: Mode = Mode::Scanning;
    let mut pos: usize = 0;
    let mut lineno: usize = 0;
    let mut more: bool = true;
    while more
        invariant
            doc == text@,
            doc.len() < u32::MAX,
            n == doc.len(),
            lines == lines_of(doc),
            lines.len() <= doc.len() + 1,
            0 <= lineno <= lines.len(),
            more <==> (lineno as int) < lines.len(),
            more ==> pos <= n,
            more ==> lines_of(doc.skip(pos as int)) == lines.skip(lineno as int),
            seq_models(found@) == scan_upto(lines, lineno as int).found,
            mode_model(mode) == scan_upto(lines, lineno as int).mode,
        decreases lines.len() - lineno,
    {
        let mut j: usize = pos;
        while j < n && text[j] != 10u8
            invariant
                pos <= j <= n,
                n == doc.len(),
                doc == text@,
                forall|k: int| pos <= k < j ==> doc[k] != 10u8,
            decreases n - j,
        {
            j = j + 1;
        }
        let ghost suf = doc.skip(pos as int);
        let ghost q = j as int - pos as int;
        let ghost line = doc.subrange(pos as int, j as int);
        proof {
            assert forall|k: int| 0 <= k < q implies suf[k] != 10u8 by {
                assert(suf[k] == doc[pos + k]);
            }
            if j < n {
                assert(suf[q] == doc[j as int]);
            }
            lemma_lines_step(suf, q);
            if j == n {
                assert(suf =~= line);
                assert(lines.skip(lineno as int) =~= seq![line]);
                assert(lines[lineno as int] == lines.skip(lineno as int)[0]);
                assert(lines.len() - lineno == 1);
            } else {
                assert(suf.take(q) =~= line);
                assert(suf.skip(q + 1) =~= doc.skip(j as int + 1));
                let rest = lines_of(doc.skip(j as int + 1));
                assert(lines.skip(lineno as int) == seq![line] + rest);
                assert(lines[lineno as int] == lines.skip(lineno as int)[0]);
                assert(lines.skip(lineno as int).len() == 1 + rest.len());
                assert forall|k: int| 0 <= k < rest.len() implies lines.skip(
                    lineno as int + 1,
                )[k] == rest[k] by {
                    assert(lines.skip(lineno as int + 1)[k] == lines[lineno as int + 1 + k]);
                    assert(lines.skip(lineno as int)[k + 1] == lines[lineno as int + k + 1]);
                    assert((seq![line] + rest)[k + 1] == rest[k]);
                }
                assert(lines.skip(lineno as int + 1) =~= rest);
                assert(lines.len() - lineno >= 2);
            }
            assert(lines[lineno as int] == line);
            assert(scan_upto(lines, lineno as int + 1) == scan_step(
                scan_upto(lines, lineno as int),
                line,
                lineno as int,
            ));
        }
        let ghost st1 = scan_upto(lines, lineno as int + 1);
        mode = match mode {
            Mode::Scanning => {
                if line_is_marker(text, pos, j, 60u8) {
                    let new_mode = Mode::Opened {
                        ours_start: lineno as u32,
                        ours_name: line_name(text, pos, j),
                    };
                    proof {
                        assert(mode_model(new_mode) == st1.mode);
                    }
                    new_mode
                } else {
                    Mode::Scanning
                }
            },
            Mode::Opened { ours_start, ours_name } => {
                if line_is_marker(text, pos, j, 124u8) {
                    let new_mode = Mode::AncestorOpened {
                        ours_start,
                        ours_name,
                        ancestor_start: lineno as u32,
                        ancestor_name: line_name(text, pos, j),
                    };
                    proof {
                        assert(mode_model(new_mode) == st1.mode);
                    }
                    new_mode
                } else if line_is_marker(text, pos, j, 61u8) {
                    let new_mode = Mode::Separated {
                        ours_start,
                        ours_name,
                        ancestor_start: None,
                        ancestor_name: None,
                        theirs_start: lineno as u32,
                    };
                    proof {
                        assert(mode_model(new_mode) == st1.mode);
                    }
                    new_mode
                } else {
                    Mode::Opened { ours_start, ours_name }
                }
            },
            Mode::AncestorOpened { ours_start, ours_name, ancestor_start, ancestor_name } => {
                if line_is_marker(text, pos, j, 61u8) {
                    let new_mode = Mode::Separated {
                        ours_start,
                        ours_name,
                        ancestor_start: Some(ancestor_start),
                        ancestor_name,
                        theirs_start: lineno as u32,
                    };
                    proof {
                        assert(mode_model(new_mode) == st1.mode);
                    }
                    new_mode
                } else {
                    Mode::AncestorOpened { ours_start, ours_name, ancestor_start, ancestor_name }
                }
            },
            Mode::Separated { ours_start, ours_name, ancestor_start, ancestor_name, theirs_start } => {
                if line_is_marker(text, pos, j, 62u8) {
                    let theirs_name = line_name(text, pos, j);
                    let ours_end = match ancestor_start {
                        Some(a) => a,
                        None => theirs_start,
                    };
                    let ancestor = match ancestor_start {
                        Some(a) => Some(
                            ConflictRegion { start: a, end: theirs_start, name: ancestor_name },
                        ),
                        None => None,
                    };
                    let c = Conflict {
                        ours: ConflictRegion { start: ours_start, end: ours_end, name: ours_name },
                        theirs: ConflictRegion {
                            start: theirs_start,
                            end: lineno as u32,
                            name: theirs_name,
                        },
                        ancestor,
                        last_char: (j - pos) as u32,
                    };
                    let ghost prev_found = found@;
                    found.push(c);
                    proof {
                        lemma_seq_models_push(prev_found, c);
                        assert(seq_models(found@) == st1.found);
                    }
                    Mode::Scanning
                } else {
                    Mode::Separated {
                        ours_start,
                        ours_name,
                        ancestor_start,
                        ancestor_name,
                        theirs_start,
                    }
                }
            },
        };
        proof {
            assert(seq_models(found@) == st1.found);
            assert(mode_model(mode) == st1.mode);
        }
        lineno = lineno + 1;
        if j < n {
            pos = j + 1;
        } else {
            more = false;
        }
    }
    let complete = match &mode {
        Mode::Scanning => true,
        _ => false,
    };
    proof {
        assert(complete == (scan_upto(lines, lines.len() as int).mode is Scanning));
        lemma_scan_spec_wf(lines);
        assert forall|i: int| 0 <= i < found@.len() implies conflict_wf(#[trigger] found@[i]@) by {
            assert(found@[i]@ == seq_models(found@)[i]);
            assert(conflict_shape(scan_spec(lines)[i], lines.len() as int));
        }
        assert forall|i: int|
            0 <= i && i + 1 < found@.len() implies #[trigger] found@[i]@.theirs.end < found@[i
            + 1]@.ours.start by {
            assert(found@[i]@ == seq_models(found@)[i]);
            assert(found@[i + 1]@ == seq_models(found@)[i + 1]);
        }
    }
    (found, complete)
}

/// The conflict-marker parser over a whole document.
#[derive(Debug, Default)]
pub struct Parser {}

impl Parser {
    /// Scans `text` and returns every complete conflict, in ascending
    /// document order. A trailing conflict whose markers never close is
    /// dropped; it never disturbs the conflicts collected before it.
    pub fn parse(text: &Vec<u8>) -> (r: Vec<Conflict>)
        requires
            text@.len() < u32::MAX,
        ensures
            seq_models(r@) == scan_spec(lines_of(text@)),
            forall|i: int| 0 <= i < r@.len() ==> conflict_wf(#[trigger] r@[i]@),
            forall|i: int|
                0 <= i && i + 1 < r@.len() ==> #[trigger] r@[i]@.theirs.end < r@[i
                    + 1]@.ours.start,
    {
        let (found, _complete) = scan(text);
        found
    }
}

} // verus!
