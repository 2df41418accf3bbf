//! The line-tagged diff a modified file is reviewed through: a two-line
//! header naming both files, a blank separator, then one line per change,
//! prefixed `-` for deleted, `+` for inserted and a space for unchanged
//! lines. The line-level alignment itself comes from a text-diff library
//! treated as a black box; this module owns the tagging and formatting.
use vstd::prelude::*;
use crate::path::{RelPath, clone_bytes};

verus! {

/// How one line of the diff relates the two files.
#[derive(Clone, Copy, Debug, PartialEq, Eq, Structural)]
pub enum ChangeKind {
    /// The line stands in both files.
    Equal,
    /// The line stands only in the base file.
    Delete,
    /// The line stands only in the overlay file.
    Insert,
}

/// One tagged line, its line end still attached.
#[derive(Debug)]
pub struct DiffChange {
    pub kind: ChangeKind,
    pub text: Vec<u8>,
}

/// Mathematical image of a `DiffChange`.
pub ghost struct DiffChangeModel {
    pub kind: ChangeKind,
    pub text: Seq<u8>,
}

impl View for DiffChange {
    type V = DiffChangeModel;

    open spec fn view(&self) -> DiffChangeModel {
        DiffChangeModel { kind: self.kind, text: self.text@ }
    }
}

/// The models of a change sequence.
pub open spec fn changes_view(s: Seq<DiffChange>) -> Seq<DiffChangeModel> {
    Seq::new(s.len(), |i: int| s[i]@)
}

/// The base file reassembled: every non-inserted value, in order.
pub open spec fn concat_old(cs: Seq<DiffChangeModel>) -> Seq<u8>
    decreases cs.len(),
{
    if cs.len() == 0 {
        Seq::empty()
    } else {
        (if cs[0].kind is Insert {
            Seq::<u8>::empty()
        } else {
            cs[0].text
        }) + concat_old(cs.drop_first())
    }
}

/// The overlay file reassembled: every non-deleted value, in order.
pub open spec fn concat_new(cs: Seq<DiffChangeModel>) -> Seq<u8>
    decreases cs.len(),
{
    if cs.len() == 0 {
        Seq::empty()
    } else {
        (if cs[0].kind is Delete {
            Seq::<u8>::empty()
        } else {
            cs[0].text
        }) + concat_new(cs.drop_first())
    }
}

/// The tagged line sequence the text-diff library computes for two byte
/// texts. It depends on the two texts alone; nothing further is assumed of
/// the alignment it chooses.
pub uninterp spec fn diff_changes(base: Seq<u8>, overlay: Seq<u8>) -> Seq<DiffChangeModel>;

/// Relies on similar's `TextDiff::from_lines` and `iter_all_changes` over
/// bytes: the emitted changes cover both inputs line by line, in order and
/// completely, so the non-inserted values concatenate back to the base text
/// and the non-deleted values to the overlay text; with exact whitespace
/// comparison the result is a function of the two texts alone.
#[verifier::external_body]
fn diff_byte_lines(base: &Vec<u8>, overlay: &Vec<u8>) -> (r: Vec<DiffChange>)
    ensures
        changes_view(r@) == diff_changes(base@, overlay@),
        concat_old(changes_view(r@)) == base@,
        concat_new(changes_view(r@)) == overlay@,
{
    let diff = similar::TextDiff::from_lines(base.as_slice(), overlay.as_slice());
    let mut out = Vec::new();
    for change in diff.iter_all_changes() {
        let kind = match change.tag() {
            similar::ChangeTag::Equal => ChangeKind::Equal,
            similar::ChangeTag::Delete => ChangeKind::Delete,
            similar::ChangeTag::Insert => ChangeKind::Insert,
        };
        out.push(DiffChange { kind, text: change.value().to_vec() });
    }
    out
}

/// A root with the relative path's components joined onto it, one slash
/// before each component.
pub open spec fn join_path(root: Seq<u8>, rel: Seq<Seq<u8>>) -> Seq<u8>
    decreases rel.len(),
{
    if rel.len() == 0 {
        root
    } else {
        join_path(root, rel.drop_last()) + seq![47u8] + rel.last()
    }
}

/// The diff marker of a change: space, `-` or `+`.
pub open spec fn sign_of(k: ChangeKind) -> u8 {
    match k {
        ChangeKind::Equal => 32u8,
        ChangeKind::Delete => 45u8,
        ChangeKind::Insert => 43u8,
    }
}

/// Trailing line-end bytes removed.
pub open spec fn trim_line_end(s: Seq<u8>) -> Seq<u8>
    decreases s.len(),
{
    if s.len() > 0 && (s.last() == 10 || s.last() == 13) {
        trim_line_end(s.drop_last())
    } else {
        s
    }
}

/// One rendered diff line: the marker, then the line with its line end
/// trimmed.
pub open spec fn spec_diff_line(c: DiffChangeModel) -> Seq<u8> {
    seq![sign_of(c.kind)] + trim_line_end(c.text)
}

/// The whole rendered diff: `--- <base file>`, `+++ <overlay file>`, a
/// blank line, then the tagged lines.
pub open spec fn spec_generate_diff(
    base_root: Seq<u8>,
    overlay_root: Seq<u8>,
    rel: Seq<Seq<u8>>,
    base_content: Seq<u8>,
    overlay_content: Seq<u8>,
) -> Seq<Seq<u8>> {
    let changes = diff_changes(base_content, overlay_content);
    seq![
        seq![45u8, 45u8, 45u8, 32u8] + join_path(base_root, rel),
        seq![43u8, 43u8, 43u8, 32u8] + join_path(overlay_root, rel),
        Seq::<u8>::empty(),
    ] + Seq::new(changes.len(), |i: int| spec_diff_line(changes[i]))
}

/// The models of rendered lines.
pub open spec fn lines_view(r: Seq<Vec<u8>>) -> Seq<Seq<u8>> {
    Seq::new(r.len(), |i: int| r[i]@)
}

/// Appends all of `src` to `dst`.
fn append_bytes(dst: &mut Vec<u8>, src: &Vec<u8>)
    ensures
        final(dst)@ == old(dst)@ + src@,
{
    let mut i: usize = 0;
    while i < src.len()
        invariant
            0 <= i <= src@.len(),
            dst@ == old(dst)@ + src@.subrange(0, i as int),
        decreases src@.len() - i,
    {
        dst.push(src[i]);
        assert(dst@ =~= old(dst)@ + src@.subrange(0, i + 1));
        i += 1;
    }
    proof {
        assert(old(dst)@ + src@.subrange(0, src@.len() as int) =~= old(dst)@ + src@);
    }
}

/// The root with the relative path joined onto it.
fn join_path_bytes(root: &Vec<u8>, rel: &RelPath) -> (r: Vec<u8>)
    ensures
        r@ == join_path(root@, rel@),
{
    let mut out = clone_bytes(root);
    proof {
        assert(rel@.subrange(0, 0) =~= Seq::<Seq<u8>>::empty());
    }
    let mut i: usize = 0;
    while i < rel.components.len()
        invariant
            0 <= i <= rel@.len(),
            rel@.len() == rel.components@.len(),
            out@ == join_path(root@, rel@.subrange(0, i as int)),
        decreases rel@.len() - i,
    {
        out.push(47);
        assert(rel@[i as int] == rel.components@[i as int]@);
        append_bytes(&mut out, &rel.components[i]);
        proof {
            let pre = rel@.subrange(0, i as int);
            let cur = rel@.subrange(0, i + 1);
            assert(cur.drop_last() =~= pre);
            assert(cur.last() == rel@[i as int]);
            assert(out@ =~= join_path(root@, cur));
        }
        i += 1;
    }
    proof {
        assert(rel@.subrange(0, rel@.len() as int) =~= rel@);
    }
    out
}

/// The search for trailing line-end bytes lands where the recursion says.
proof fn lemma_trim_line_end_at(s: Seq<u8>, e: int)
    requires
        0 <= e <= s.len(),
        forall|k: int| e <= k < s.len() ==> s[k] == 10 || s[k] == 13,
        e > 0 ==> !(s[e - 1] == 10 || s[e - 1] == 13),
    ensures
        trim_line_end(s) == s.subrange(0, e),
    decreases s.len(),
{
    if s.len() == e {
        assert(s.subrange(0, e) =~= s);
    } else {
        assert(s.last() == 10 || s.last() == 13);
        assert(s.drop_last() =~= s.subrange(0, s.len() - 1));
        lemma_trim_line_end_at(s.drop_last(), e);
        assert(s.drop_last().subrange(0, e) =~= s.subrange(0, e));
    }
}

/// Renders the review diff of one modified file from both files' contents.
/// A missing or unreadable file is passed as empty content by the caller.
/// Beyond the exact rendering, the change sequence itself reassembles both
/// inputs: its non-inserted lines concatenate to the base content and its
/// non-deleted lines to the overlay content.
pub fn generate_diff(
    base_root: &Vec<u8>,
    overlay_root: &Vec<u8>,
    rel: &RelPath,
    base_content: &Vec<u8>,
    overlay_content: &Vec<u8>,
) -> (r: Vec<Vec<u8>>)
    ensures
        lines_view(r@) == spec_generate_diff(
            base_root@,
            overlay_root@,
            rel@,
            base_content@,
            overlay_content@,
        ),
        concat_old(diff_changes(base_content@, overlay_content@)) == base_content@,
        concat_new(diff_changes(base_content@, overlay_content@)) == overlay_content@,
{
    let ghost target = spec_generate_diff(
        base_root@,
        overlay_root@,
        rel@,
        base_content@,
        overlay_content@,
    );
    let mut out: Vec<Vec<u8>> = Vec::new();
    let mut h1: Vec<u8> = Vec::new();
    h1.push(45);
    h1.push(45);
    h1.push(45);
    h1.push(32);
    let jp1 = join_path_bytes(base_root, rel);
    append_bytes(&mut h1, &jp1);
    proof {
        assert(h1@ =~= seq![45u8, 45u8, 45u8, 32u8] + join_path(base_root@, rel@));
    }
    out.push(h1);
    let mut h2: Vec<u8> = Vec::new();
    h2.push(43);
    h2.push(43);
    h2.push(43);
    h2.push(32);
    let jp2 = join_path_bytes(overlay_root, rel);
    append_bytes(&mut h2, &jp2);
    proof {
        assert(h2@ =~= seq![43u8, 43u8, 43u8, 32u8] + join_path(overlay_root@, rel@));
    }
    out.push(h2);
    let blank: Vec<u8> = Vec::new();
    out.push(blank);
    let changes = diff_byte_lines(base_content, overlay_content);
    let ghost cs = changes_view(changes@);
    proof {
        assert(lines_view(out@) =~= target.subrange(0, 3));
    }
    let mut i: usize = 0;
    while i < changes.len()
        invariant
            0 <= i <= changes@.len(),
            cs == changes_view(changes@),
            cs == diff_changes(base_content@, overlay_content@),
            cs.len() == changes@.len(),
            target == spec_generate_diff(
                base_root@,
                overlay_root@,
                rel@,
                base_content@,
                overlay_content@,
            ),
            target.len() == 3 + cs.len(),
            forall|k: int| 0 <= k < cs.len() ==> target[k + 3] == spec_diff_line(cs[k]),
            lines_view(out@) == target.subrange(0, 3 + i as int),
        decreases changes@.len() - i,
    {
        let ghost before = out@;
        assert(cs[i as int] == changes@[i as int]@);
        let change = &changes[i];
        let mut line: Vec<u8> = Vec::new();
        match change.kind {
            ChangeKind::Equal => line.push(32),
            ChangeKind::Delete => line.push(45),
            ChangeKind::Insert => line.push(43),
        }
        let mut e: usize = change.text.len();
        while e > 0 && (change.text[e - 1] == 10 || change.text[e - 1] == 13)
            invariant
                0 <= e <= change.text@.len(),
                forall|k: int| e <= k < change.text@.len() ==> change.text@[k] == 10
                    || change.text@[k] == 13,
            decreases e,
        {
            e -= 1;
        }
        proof {
            lemma_trim_line_end_at(change.text@, e as int);
        }
        let mut j: usize = 0;
        while j < e
            invariant
                0 <= j <= e <= change.text@.len(),
                line@.len() == j + 1,
                line@.subrange(1, line@.len() as int) == change.text@.subrange(0, j as int),
                line@[0] == sign_of(change@.kind),
            decreases e - j,
        {
            line.push(change.text[j]);
            assert(line@.subrange(1, line@.len() as int) =~= change.text@.subrange(0, j + 1));
            j += 1;
        }
        proof {
            assert(line@ =~= spec_diff_line(cs[i as int]));
        }
        out.push(line);
        proof {
            assert(lines_view(before).len() == 3 + i);
            assert(before.len() == 3 + i);
            assert(lines_view(out@) =~= target.subrange(0, 3 + i + 1)) by {
                assert forall|k: int| 0 <= k < out@.len() implies lines_view(out@)[k]
                    == target.subrange(0, 3 + i + 1)[k] by {
                    assert(target.subrange(0, 3 + i + 1)[k] == target[k]);
                    if k < before.len() {
                        assert(out@[k] == before[k]);
                        assert(lines_view(before)[k] == target.subrange(0, 3 + i as int)[k]);
                        assert(target.subrange(0, 3 + i as int)[k] == target[k]);
                    } else {
                        assert(k == 3 + i);
                        assert(out@[k] == line);
                        assert(target[i as int + 3] == spec_diff_line(cs[i as int]));
                    }
                }
            }
        }
        i += 1;
    }
    proof {
        assert(target.subrange(0, 3 + cs.len() as int) =~= target);
    }
    out
}

} // verus!
