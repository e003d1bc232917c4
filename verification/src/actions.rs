use vstd::prelude::*;

use crate::conflict::{
    Conflict, ConflictModel, ConflictRegion, RegionModel, conflict_wf, range_for_diagnostic_conflict,
    spec_diagnostic_span, spec_name_model,
};
use crate::diagnostics::Diagnostic;
use crate::edits::{index_for_position, spec_index_for_position};
use crate::position::{Position, Span};

verus! {

/// The single text edit a quick fix applies.
#[derive(Clone, Debug, PartialEq, Eq)]
pub struct TextEdit {
    pub range: Span,
    pub new_text: Vec<u8>,
}

/// One quick fix offered for a conflict: replace the conflict's whole
/// diagnostic span with the content lines of the regions being kept.
/// `preferred` marks the action that is the sole, unambiguous default, which
/// is only the case when exactly one action could be built.
#[derive(Clone, Debug, PartialEq, Eq)]
pub struct CodeAction {
    pub title: Vec<u8>,
    pub edit: TextEdit,
    pub diagnostic: Diagnostic,
    pub preferred: bool,
}

/// Mathematical model of an action: its title and replacement text; the
/// edit's span is always the conflict's diagnostic span.
pub ghost struct ActionModel {
    pub title: Seq<u8>,
    pub new_text: Seq<u8>,
}

/// The bytes of a region's content lines: everything strictly between the
/// region's opening marker line and the marker line that terminates it.
/// Nothing when either boundary does not resolve against `s`, as happens
/// when the conflict was found in an older revision of the content.
pub open spec fn spec_region_text(s: Seq<u8>, r: RegionModel) -> Option<Seq<u8>> {
    match (spec_index_for_position(s, r.start + 1, 0), spec_index_for_position(s, r.end, 0)) {
        (Some(a), Some(b)) => if a <= b {
            Some(s.subrange(a, b))
        } else {
            None
        },
        _ => None,
    }
}

pub open spec fn keep_prefix() -> Seq<u8> {
    seq![75u8, 101u8, 101u8, 112u8, 32u8]
}

pub open spec fn ours_label() -> Seq<u8> {
    seq![79u8, 85u8, 82u8, 83u8]
}

pub open spec fn theirs_label() -> Seq<u8> {
    seq![84u8, 72u8, 69u8, 73u8, 82u8, 83u8]
}

pub open spec fn both_label() -> Seq<u8> {
    seq![98u8, 111u8, 116u8, 104u8]
}

pub open spec fn ancestor_label() -> Seq<u8> {
    seq![97u8, 110u8, 99u8, 101u8, 115u8, 116u8, 111u8, 114u8]
}

/// An action's title: "Keep " followed by the region's label, or by the
/// fixed fallback word when the region has none.
pub open spec fn spec_title(name: Option<Seq<u8>>, fallback: Seq<u8>) -> Seq<u8> {
    keep_prefix() + match name {
        Some(n) => n,
        None => fallback,
    }
}

pub open spec fn spec_keep_ours(s: Seq<u8>, c: ConflictModel) -> Option<ActionModel> {
    match spec_region_text(s, c.ours) {
        Some(t) => Some(ActionModel { title: spec_title(c.ours.name, ours_label()), new_text: t }),
        None => None,
    }
}

pub open spec fn spec_keep_theirs(s: Seq<u8>, c: ConflictModel) -> Option<ActionModel> {
    match spec_region_text(s, c.theirs) {
        Some(t) => Some(
            ActionModel { title: spec_title(c.theirs.name, theirs_label()), new_text: t },
        ),
        None => None,
    }
}

pub open spec fn spec_keep_both(s: Seq<u8>, c: ConflictModel) -> Option<ActionModel> {
    match (spec_region_text(s, c.ours), spec_region_text(s, c.theirs)) {
        (Some(t1), Some(t2)) => Some(
            ActionModel { title: spec_title(None, both_label()), new_text: t1 + t2 },
        ),
        _ => None,
    }
}

pub open spec fn spec_keep_ancestor(s: Seq<u8>, c: ConflictModel) -> Option<ActionModel> {
    match c.ancestor {
        Some(a) => match spec_region_text(s, a) {
            Some(t) => Some(
                ActionModel { title: spec_title(a.name, ancestor_label()), new_text: t },
            ),
            None => None,
        },
        None => None,
    }
}

pub open spec fn opt_seq(o: Option<ActionModel>) -> Seq<ActionModel> {
    match o {
        Some(a) => seq![a],
        None => Seq::empty(),
    }
}

/// The actions offered for a conflict, in fixed order: keep ours, keep
/// theirs, keep both, and — for a diff3 conflict — keep the ancestor. An
/// action whose region text cannot be extracted is omitted; the others
/// stand.
pub open spec fn spec_actions(s: Seq<u8>, c: ConflictModel) -> Seq<ActionModel> {
    opt_seq(spec_keep_ours(s, c)) + opt_seq(spec_keep_theirs(s, c)) + opt_seq(spec_keep_both(s, c))
        + opt_seq(spec_keep_ancestor(s, c))
}

/// The models of built actions.
pub open spec fn act_models(s: Seq<CodeAction>) -> Seq<ActionModel> {
    s.map_values(|a: CodeAction| ActionModel { title: a.title@, new_text: a.edit.new_text@ })
}

proof fn lemma_act_models_push(s: Seq<CodeAction>, a: CodeAction)
    ensures
        act_models(s.push(a)) == act_models(s).push(
            ActionModel { title: a.title@, new_text: a.edit.new_text@ },
        ),
{
    assert(act_models(s.push(a)) =~= act_models(s).push(
        ActionModel { title: a.title@, new_text: a.edit.new_text@ },
    ));
}

/// How a built action list corresponds to a conflict against a document:
/// element for element the models match, every edit covers the conflict's
/// diagnostic span and carries its diagnostic, and the sole action of a
/// singleton list is preferred.
pub open spec fn actions_match(r: Seq<CodeAction>, s: Seq<u8>, c: ConflictModel) -> bool {
    let acts = spec_actions(s, c);
    &&& r.len() == acts.len()
    &&& forall|i: int|
        0 <= i < acts.len() ==> {
            &&& (#[trigger] r[i]).title@ == acts[i].title
            &&& r[i].edit.new_text@ == acts[i].new_text
            &&& r[i].edit.range == spec_diagnostic_span(c)
            &&& r[i].diagnostic.range == spec_diagnostic_span(c)
            &&& r[i].preferred == (acts.len() == 1)
        }
}

/// The fallback words for the four kinds of action.
enum FallbackLabel {
    Ours,
    Theirs,
    Both,
    Ancestor,
}

spec fn fallback_bytes(l: FallbackLabel) -> Seq<u8> {
    match l {
        FallbackLabel::Ours => ours_label(),
        FallbackLabel::Theirs => theirs_label(),
        FallbackLabel::Both => both_label(),
        FallbackLabel::Ancestor => ancestor_label(),
    }
}

/// Builds an action title from the region's label and the fallback word.
fn title_for(name: &Option<Vec<u8>>, label: FallbackLabel) -> (r: Vec<u8>)
    ensures
        r@ == spec_title(spec_name_model(*name), fallback_bytes(label)),
{
    let mut out: Vec<u8> = Vec::new();
    out.push(75u8);
    out.push(101u8);
    out.push(101u8);
    out.push(112u8);
    out.push(32u8);
    proof {
        assert(out@ =~= keep_prefix());
    }
    match name {
        Some(n) => {
            let m = n.len();
            let mut i: usize = 0;
            while i < m
                invariant
                    0 <= i <= m,
                    m == n@.len(),
                    out@ == keep_prefix() + n@.take(i as int),
                decreases m - i,
            {
                out.push(n[i]);
                proof {
                    assert(out@ =~= keep_prefix() + n@.take(i as int + 1));
                }
                i = i + 1;
            }
            proof {
                assert(n@.take(m as int) =~= n@);
            }
        },
        None => {
            match label {
                FallbackLabel::Ours => {
                    out.push(79u8);
                    out.push(85u8);
                    out.push(82u8);
                    out.push(83u8);
                    proof {
                        assert(out@ =~= keep_prefix() + ours_label());
                    }
                },
                FallbackLabel::Theirs => {
                    out.push(84u8);
                    out.push(72u8);
                    out.push(69u8);
                    out.push(73u8);
                    out.push(82u8);
                    out.push(83u8);
                    proof {
                        assert(out@ =~= keep_prefix() + theirs_label());
                    }
                },
                FallbackLabel::Both => {
                    out.push(98u8);
                    out.push(111u8);
                    out.push(116u8);
                    out.push(104u8);
                    proof {
                        assert(out@ =~= keep_prefix() + both_label());
                    }
                },
                FallbackLabel::Ancestor => {
                    out.push(97u8);
                    out.push(110u8);
                    out.push(99u8);
                    out.push(101u8);
                    out.push(115u8);
                    out.push(116u8);
                    out.push(111u8);
                    out.push(114u8);
                    proof {
                        assert(out@ =~= keep_prefix() + ancestor_label());
                    }
                },
            }
        },
    }
    out
}

/// Copies `content[a..b]`.
fn sub_bytes(content: &Vec<u8>, a: usize, b: usize) -> (r: Vec<u8>)
    requires
        a <= b <= content@.len(),
    ensures
        r@ == content@.subrange(a as int, b as int),
{
    let mut out: Vec<u8> = Vec::new();
    let mut i: usize = a;
    while i < b
        invariant
            a <= i <= b <= content@.len(),
            out@ == content@.subrange(a as int, i as int),
        decreases b - i,
    {
        out.push(content[i]);
        proof {
            assert(out@ =~= content@.subrange(a as int, i as int + 1));
        }
        i = i + 1;
    }
    out
}

/// Appends `b` to `a`.
fn concat_bytes(a: Vec<u8>, b: &Vec<u8>) -> (r: Vec<u8>)
    ensures
        r@ == a@ + b@,
{
    let ghost a0 = a@;
    let mut out = a;
    let m = b.len();
    let mut i: usize = 0;
    while i < m
        invariant
            0 <= i <= m,
            m == b@.len(),
            out@ == a0 + b@.take(i as int),
        decreases m - i,
    {
        out.push(b[i]);
        proof {
            assert(out@ =~= a0 + b@.take(i as int + 1));
        }
        i = i + 1;
    }
    proof {
        assert(b@.take(m as int) =~= b@);
        assert(a0 + b@.take(0) =~= a0);
    }
    out
}

/// The content lines of a region, or nothing when a boundary does not
/// resolve against `content`.
fn region_text(content: &Vec<u8>, region: &ConflictRegion) -> (r: Option<Vec<u8>>)
    requires
        region@.start < u32::MAX,
    ensures
        match r {
            Some(v) => spec_region_text(content@, region@) == Some(v@),
            None => spec_region_text(content@, region@) is None,
        },
{
    let p1 = Position { line: region.start + 1, character: 0 };
    let p2 = Position { line: region.end, character: 0 };
    let a = index_for_position(&p1, content);
    let b = index_for_position(&p2, content);
    match (a, b) {
        (Some(a), Some(b)) => if a <= b {
            Some(sub_bytes(content, a, b))
        } else {
            None
        },
        _ => None,
    }
}

/// Builds the quick fixes for one conflict against the document `content`:
/// keep ours, keep theirs, keep both, and — for a diff3 conflict — keep the
/// ancestor. Each edit replaces the conflict's whole diagnostic span with
/// the kept regions' content lines; an action whose region text cannot be
/// extracted is omitted rather than aborting the list.
pub fn conflict_as_code_actions(conflict: &Conflict, content: &Vec<u8>) -> (r: Vec<CodeAction>)
    requires
        conflict_wf(conflict@),
    ensures
        actions_match(r@, content@, conflict@),
{
    let ghost c = conflict@;
    let ghost s = content@;
    let span = range_for_diagnostic_conflict(conflict);
    let mut out: Vec<CodeAction> = Vec::new();
    match region_text(content, &conflict.ours) {
        Some(t) => {
            let ghost pre = out@;
            let title = title_for(&conflict.ours.name, FallbackLabel::Ours);
            out.push(
                CodeAction {
                    title,
                    edit: TextEdit { range: span, new_text: t },
                    diagnostic: Diagnostic { range: span },
                    preferred: false,
                },
            );
            proof {
                lemma_act_models_push(pre, out@.last());
                assert(act_models(out@) =~= opt_seq(spec_keep_ours(s, c)));
            }
        },
        None => {},
    }
    proof {
        assert(act_models(out@) =~= opt_seq(spec_keep_ours(s, c)));
    }
    match region_text(content, &conflict.theirs) {
        Some(t) => {
            let ghost pre = out@;
            let title = title_for(&conflict.theirs.name, FallbackLabel::Theirs);
            out.push(
                CodeAction {
                    title,
                    edit: TextEdit { range: span, new_text: t },
                    diagnostic: Diagnostic { range: span },
                    preferred: false,
                },
            );
            proof {
                lemma_act_models_push(pre, out@.last());
            }
        },
        None => {},
    }
    proof {
        assert(act_models(out@) =~= opt_seq(spec_keep_ours(s, c)) + opt_seq(
            spec_keep_theirs(s, c),
        ));
    }
    let both_first = region_text(content, &conflict.ours);
    let both_second = region_text(content, &conflict.theirs);
    match (both_first, both_second) {
        (Some(t1), Some(t2)) => {
            let ghost pre = out@;
            let t = concat_bytes(t1, &t2);
            let no_name: Option<Vec<u8>> = None;
            let title = title_for(&no_name, FallbackLabel::Both);
            out.push(
                CodeAction {
                    title,
                    edit: TextEdit { range: span, new_text: t },
                    diagnostic: Diagnostic { range: span },
                    preferred: false,
                },
            );
            proof {
                lemma_act_models_push(pre, out@.last());
            }
        },
        _ => {},
    }
    proof {
        assert(act_models(out@) =~= opt_seq(spec_keep_ours(s, c)) + opt_seq(
            spec_keep_theirs(s, c),
        ) + opt_seq(spec_keep_both(s, c)));
    }
    match &conflict.ancestor {
        Some(anc) => {
            match region_text(content, anc) {
                Some(t) => {
                    let ghost pre = out@;
                    let title = title_for(&anc.name, FallbackLabel::Ancestor);
                    out.push(
                        CodeAction {
                            title,
                            edit: TextEdit { range: span, new_text: t },
                            diagnostic: Diagnostic { range: span },
                            preferred: false,
                        },
                    );
                    proof {
                        lemma_act_models_push(pre, out@.last());
                    }
                },
                None => {},
            }
        },
        None => {},
    }
    proof {
        assert(act_models(out@) =~= spec_actions(s, c));
    }
    if out.len() == 1 {
        let mut only = out.remove(0);
        only.preferred = true;
        let ghost pre = out@;
        out.push(only);
        proof {
            lemma_act_models_push(pre, out@.last());
            assert(act_models(out@) =~= spec_actions(s, c));
        }
    }
    proof {
        let acts = spec_actions(s, c);
        assert forall|i: int| 0 <= i < acts.len() implies {
            &&& (#[trigger] out@[i]).title@ == acts[i].title
            &&& out@[i].edit.new_text@ == acts[i].new_text
        } by {
            assert(act_models(out@)[i] == acts[i]);
        }
    }
    out
}

} // verus!
