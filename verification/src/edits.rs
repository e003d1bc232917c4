use vstd::prelude::*;

use crate::position::{Position, Span};

verus! {

// ---------------------------------------------------------------------------
// Positions to byte offsets.
// ---------------------------------------------------------------------------

/// Count of newline bytes in `s`.
pub open spec fn count_nl(s: Seq<u8>) -> int
    decreases s.len(),
{
    if s.len() == 0 {
        0
    } else {
        count_nl(s.drop_last()) + if s.last() == 10u8 {
            1int
        } else {
            0int
        }
    }
}

/// `p` is the position of the `k`-th newline byte of `s`, counting from 0.
pub open spec fn is_nth_nl(s: Seq<u8>, k: int, p: int) -> bool {
    0 <= p < s.len() && s[p] == 10u8 && count_nl(s.take(p)) == k
}

/// The byte offset a line/character position denotes: `character` bytes past
/// the start of the line, where line 0 starts at offset 0 and line `k > 0`
/// starts one past the `(k-1)`-th newline. A position whose line does not
/// exist, or whose offset would fall past the end of the document, denotes
/// nothing.
pub open spec fn spec_index_for_position(s: Seq<u8>, line: int, character: int) -> Option<int> {
    if line == 0 {
        if character <= s.len() {
            Some(character)
        } else {
            None
        }
    } else if exists|p: int| #[trigger] is_nth_nl(s, line - 1, p) {
        let p = choose|p: int| #[trigger] is_nth_nl(s, line - 1, p);
        if p + 1 + character <= s.len() {
            Some(p + 1 + character)
        } else {
            None
        }
    } else {
        None
    }
}

pub proof fn lemma_count_take_step(s: Seq<u8>, i: int)
    requires
        0 <= i < s.len(),
    ensures
        count_nl(s.take(i + 1)) == count_nl(s.take(i)) + if s[i] == 10u8 {
            1int
        } else {
            0int
        },
{
    assert(s.take(i + 1).drop_last() =~= s.take(i));
    assert(s.take(i + 1).last() == s[i]);
}

pub proof fn lemma_count_mono(s: Seq<u8>, i: int, j: int)
    requires
        0 <= i <= j <= s.len(),
    ensures
        count_nl(s.take(i)) <= count_nl(s.take(j)),
    decreases j - i,
{
    if i < j {
        lemma_count_mono(s, i, j - 1);
        lemma_count_take_step(s, j - 1);
    }
}

/// Two positions of the same newline index coincide.
pub proof fn lemma_nth_nl_unique(s: Seq<u8>, k: int, p1: int, p2: int)
    requires
        is_nth_nl(s, k, p1),
        is_nth_nl(s, k, p2),
    ensures
        p1 == p2,
{
    if p1 < p2 {
        lemma_count_take_step(s, p1);
        lemma_count_mono(s, p1 + 1, p2);
    }
    if p2 < p1 {
        lemma_count_take_step(s, p2);
        lemma_count_mono(s, p2 + 1, p1);
    }
}

/// The byte offset of `position` in `value`, or nothing when the position
/// lies beyond the document.
pub fn index_for_position(position: &Position, value: &Vec<u8>) -> (r: Option<usize>)
    ensures
        match r {
            Some(o) => spec_index_for_position(
                value@,
                position.line as int,
                position.character as int,
            ) == Some(o as int),
            None => spec_index_for_position(
                value@,
                position.line as int,
                position.character as int,
            ) is None,
        },
{
    let n = value.len();
    let line = position.line;
    let character = position.character;
    let base: usize;
    if line == 0 {
        base = 0;
    } else {
        let mut i: usize = 0;
        let mut count: u32 = 0;
        while i < n && count < line
            invariant
                0 <= i <= n,
                n == value@.len(),
                0 <= count <= line,
                count as int == count_nl(value@.take(i as int)),
                count == line ==> i > 0 && is_nth_nl(value@, line as int - 1, i as int - 1),
            decreases n - i,
        {
            proof {
                lemma_count_take_step(value@, i as int);
            }
            if value[i] == 10u8 {
                count = count + 1;
                proof {
                    assert(value@.take(i as int + 1).take(i as int) =~= value@.take(i as int));
                }
            }
            i = i + 1;
        }
        if count < line {
            proof {
                assert(value@.take(n as int) =~= value@);
                assert forall|p: int| !(#[trigger] is_nth_nl(value@, line as int - 1, p)) by {
                    if is_nth_nl(value@, line as int - 1, p) {
                        lemma_count_take_step(value@, p);
                        lemma_count_mono(value@, p + 1, n as int);
                    }
                }
            }
            return None;
        }
        base = i;
        proof {
            let pc = choose|p: int| #[trigger] is_nth_nl(value@, line as int - 1, p);
            lemma_nth_nl_unique(value@, line as int - 1, pc, i as int - 1);
        }
    }
    if (base as u128) + (character as u128) <= (n as u128) {
        Some(base + character as usize)
    } else {
        None
    }
}

// ---------------------------------------------------------------------------
// Applying batches of changes.
// ---------------------------------------------------------------------------

/// One incremental document change: replace the text in `range` with
/// `text`, or the whole document when `range` is absent.
#[derive(Clone, Debug, PartialEq, Eq)]
pub struct TextChange {
    pub range: Option<Span>,
    pub text: Vec<u8>,
}

/// Mathematical model of a change.
pub ghost struct ChangeModel {
    pub range: Option<Span>,
    pub text: Seq<u8>,
}

impl View for TextChange {
    type V = ChangeModel;

    open spec fn view(&self) -> ChangeModel {
        ChangeModel { range: self.range, text: self.text@ }
    }
}

pub open spec fn change_models(s: Seq<TextChange>) -> Seq<ChangeModel> {
    s.map_values(|c: TextChange| c@)
}

/// The document after one change: the spanned bytes replaced by the new
/// text. A change whose positions do not resolve, or whose span is
/// reversed, leaves the document untouched.
pub open spec fn spec_apply_change(s: Seq<u8>, c: ChangeModel) -> Seq<u8> {
    match c.range {
        None => c.text,
        Some(r) => match (
            spec_index_for_position(s, r.start.line as int, r.start.character as int),
            spec_index_for_position(s, r.end.line as int, r.end.character as int),
        ) {
            (Some(a), Some(b)) => if a <= b {
                s.take(a) + c.text + s.skip(b)
            } else {
                s
            },
            _ => s,
        },
    }
}

/// The document after a batch of changes, each applied in order against the
/// result of the previous one.
pub open spec fn spec_apply_changes(s: Seq<u8>, cs: Seq<ChangeModel>) -> Seq<u8>
    decreases cs.len(),
{
    if cs.len() == 0 {
        s
    } else {
        spec_apply_change(spec_apply_changes(s, cs.drop_last()), cs.last())
    }
}

/// A copy of `v`.
pub fn copy_bytes(v: &Vec<u8>) -> (r: Vec<u8>)
    ensures
        r@ == v@,
{
    let mut out: Vec<u8> = Vec::new();
    let n = v.len();
    let mut i: usize = 0;
    while i < n
        invariant
            0 <= i <= n,
            n == v@.len(),
            out@ == v@.take(i as int),
        decreases n - i,
    {
        out.push(v[i]);
        proof {
            assert(out@ =~= v@.take(i as int + 1));
        }
        i = i + 1;
    }
    proof {
        assert(v@.take(n as int) =~= v@);
    }
    out
}

/// `s` with the bytes of `[a, b)` replaced by `t`.
fn splice(s: &Vec<u8>, a: usize, b: usize, t: &Vec<u8>) -> (r: Vec<u8>)
    requires
        a <= b <= s@.len(),
    ensures
        r@ == s@.take(a as int) + t@ + s@.skip(b as int),
{
    let mut out: Vec<u8> = Vec::new();
    let mut i: usize = 0;
    while i < a
        invariant
            0 <= i <= a <= s@.len(),
            out@ == s@.take(i as int),
        decreases a - i,
    {
        out.push(s[i]);
        proof {
            assert(out@ =~= s@.take(i as int + 1));
        }
        i = i + 1;
    }
    let m = t.len();
    let mut k: usize = 0;
    while k < m
        invariant
            0 <= k <= m,
            m == t@.len(),
            a <= s@.len(),
            out@ == s@.take(a as int) + t@.take(k as int),
        decreases m - k,
    {
        out.push(t[k]);
        proof {
            assert(out@ =~= s@.take(a as int) + t@.take(k as int + 1));
        }
        k = k + 1;
    }
    let n = s.len();
    let mut j: usize = b;
    while j < n
        invariant
            b <= j <= n,
            n == s@.len(),
            m == t@.len(),
            a <= b,
            out@ == s@.take(a as int) + t@.take(m as int) + s@.subrange(b as int, j as int),
        decreases n - j,
    {
        out.push(s[j]);
        proof {
            assert(out@ =~= s@.take(a as int) + t@.take(m as int) + s@.subrange(
                b as int,
                j as int + 1,
            ));
        }
        j = j + 1;
    }
    proof {
        assert(t@.take(m as int) =~= t@);
        assert(s@.subrange(b as int, n as int) =~= s@.skip(b as int));
        assert(out@ =~= s@.take(a as int) + t@ + s@.skip(b as int));
    }
    out
}

/// Applies `changes` to `content`, strictly in the order received, each
/// change against the result of the previous one. A change whose positions
/// do not resolve is skipped; the rest of the batch still applies.
pub fn apply_changes(content: &Vec<u8>, changes: &Vec<TextChange>) -> (r: Vec<u8>)
    ensures
        r@ == spec_apply_changes(content@, change_models(changes@)),
{
    let ghost models = change_models(changes@);
    let mut updated: Vec<u8> = copy_bytes(content);
    let n = changes.len();
    let mut i: usize = 0;
    while i < n
        invariant
            0 <= i <= n,
            n == changes@.len(),
            models == change_models(changes@),
            updated@ == spec_apply_changes(content@, models.take(i as int)),
        decreases n - i,
    {
        let ghost pre = updated@;
        let ch = &changes[i];
        match &ch.range {
            None => {
                updated = copy_bytes(&ch.text);
            },
            Some(range) => {
                let sa = index_for_position(&range.start, &updated);
                let sb = index_for_position(&range.end, &updated);
                match (sa, sb) {
                    (Some(a), Some(b)) => {
                        if a <= b {
                            proof {
                                assert(b <= updated@.len());
                            }
                            updated = splice(&updated, a, b, &ch.text);
                        }
                    },
                    _ => {},
                }
            },
        }
        proof {
            assert(models.take(i as int + 1).drop_last() =~= models.take(i as int));
            assert(models.take(i as int + 1).last() == models[i as int]);
            assert(models[i as int] == changes@[i as int]@);
            assert(updated@ == spec_apply_change(pre, models[i as int]));
        }
        i = i + 1;
    }
    proof {
        assert(models.take(n as int) =~= models);
    }
    updated
}

} // verus!
