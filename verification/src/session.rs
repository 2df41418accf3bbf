//! The saved-session record: the session directory and the base root,
//! serialised as two newline-terminated lines. Reading and writing the file
//! is the caller's business; this module owns the format.
use vstd::prelude::*;

verus! {

/// A saved session: where the overlay lives and which base it sits on.
#[derive(Debug)]
pub struct Session {
    pub tmpdir: Vec<u8>,
    pub base_path: Vec<u8>,
}

/// Why a session file's content is unusable.
#[derive(Clone, Copy, Debug, PartialEq, Eq, Structural)]
pub enum SessionError {
    /// The content holds fewer than two lines.
    Corrupted,
}

/// Index of the first line-feed byte at or after `from`, or the length when
/// none follows.
pub open spec fn find_nl(s: Seq<u8>, from: int) -> int
    recommends
        0 <= from <= s.len(),
    decreases s.len() - from,
{
    if from < 0 || from >= s.len() {
        s.len() as int
    } else if s[from] == 10 {
        from
    } else {
        find_nl(s, from + 1)
    }
}

/// One trailing carriage return removed, as reading a line does.
pub open spec fn strip_cr(s: Seq<u8>) -> Seq<u8> {
    if s.len() > 0 && s.last() == 13 {
        s.drop_last()
    } else {
        s
    }
}

/// The serialised session: each path on a line of its own.
pub open spec fn spec_session_bytes(tmpdir: Seq<u8>, base: Seq<u8>) -> Seq<u8> {
    tmpdir + seq![10u8] + base + seq![10u8]
}

/// The content carries a second line: something follows the first line
/// break.
pub open spec fn spec_parse_ok(content: Seq<u8>) -> bool {
    find_nl(content, 0) + 1 < content.len()
}

/// The first line, its line break and one trailing carriage return
/// excluded.
pub open spec fn spec_first_line(content: Seq<u8>) -> Seq<u8> {
    strip_cr(content.subrange(0, find_nl(content, 0)))
}

/// The second line, delimited the same way.
pub open spec fn spec_second_line(content: Seq<u8>) -> Seq<u8> {
    let i = find_nl(content, 0);
    strip_cr(content.subrange(i + 1, find_nl(content, i + 1)))
}

/// Serialises a session record.
pub fn format_session(tmpdir: &Vec<u8>, base_path: &Vec<u8>) -> (r: Vec<u8>)
    ensures
        r@ == spec_session_bytes(tmpdir@, base_path@),
{
    let mut out: Vec<u8> = Vec::new();
    let mut i: usize = 0;
    while i < tmpdir.len()
        invariant
            0 <= i <= tmpdir@.len(),
            out@ == tmpdir@.subrange(0, i as int),
        decreases tmpdir@.len() - i,
    {
        out.push(tmpdir[i]);
        assert(out@ =~= tmpdir@.subrange(0, i + 1));
        i += 1;
    }
    out.push(10);
    let ghost mid = out@;
    let mut j: usize = 0;
    while j < base_path.len()
        invariant
            0 <= j <= base_path@.len(),
            out@ == mid + base_path@.subrange(0, j as int),
        decreases base_path@.len() - j,
    {
        out.push(base_path[j]);
        assert(out@ =~= mid + base_path@.subrange(0, j + 1));
        j += 1;
    }
    out.push(10);
    proof {
        assert(out@ =~= spec_session_bytes(tmpdir@, base_path@));
    }
    out
}

/// Index of the first line feed at or after `from`.
fn find_newline(v: &Vec<u8>, from: usize) -> (r: usize)
    requires
        from <= v@.len(),
    ensures
        r as int == find_nl(v@, from as int),
        from <= r <= v@.len(),
        r < v@.len() ==> v@[r as int] == 10,
{
    let mut i: usize = from;
    while i < v.len()
        invariant
            from <= i <= v@.len(),
            find_nl(v@, from as int) == find_nl(v@, i as int),
        decreases v@.len() - i,
    {
        if v[i] == 10 {
            return i;
        }
        i += 1;
    }
    i
}

/// Copy of `v[a .. b]`.
fn copy_range(v: &Vec<u8>, a: usize, b: usize) -> (r: Vec<u8>)
    requires
        a <= b <= v@.len(),
    ensures
        r@ == v@.subrange(a as int, b as int),
{
    let mut out: Vec<u8> = Vec::new();
    let mut i: usize = a;
    while i < b
        invariant
            a <= i <= b <= v@.len(),
            out@ == v@.subrange(a as int, i as int),
        decreases b - i,
    {
        out.push(v[i]);
        assert(out@ =~= v@.subrange(a as int, i + 1));
        i += 1;
    }
    out
}

/// One trailing carriage return removed.
fn trim_cr(line: &mut Vec<u8>)
    ensures
        final(line)@ == strip_cr(old(line)@),
{
    if line.len() > 0 && line[line.len() - 1] == 13 {
        line.pop();
        proof {
            assert(line@ =~= strip_cr(old(line)@));
        }
    }
}

/// Reads a session record back from a file's content: the first line names
/// the session directory, the second the base root. Fails exactly when the
/// content holds no second line.
pub fn parse_session(content: &Vec<u8>) -> (r: Result<Session, SessionError>)
    ensures
        r is Ok <==> spec_parse_ok(content@),
        r matches Ok(s) ==> s.tmpdir@ == spec_first_line(content@) && s.base_path@
            == spec_second_line(content@),
        r matches Err(e) ==> e == SessionError::Corrupted,
{
    let first_end = find_newline(content, 0);
    if first_end >= content.len() || first_end + 1 >= content.len() {
        return Err(SessionError::Corrupted);
    }
    let second_end = find_newline(content, first_end + 1);
    let mut tmpdir = copy_range(content, 0, first_end);
    trim_cr(&mut tmpdir);
    let mut base_path = copy_range(content, first_end + 1, second_end);
    trim_cr(&mut base_path);
    Ok(Session { tmpdir, base_path })
}

/// Helper for the round-trip argument: over a stretch free of line feeds,
/// the search lands on the delimiter.
proof fn lemma_find_nl_lands(s: Seq<u8>, from: int, j: int)
    requires
        0 <= from <= j <= s.len(),
        forall|k: int| from <= k < j ==> s[k] != 10,
        j < s.len() ==> s[j] == 10,
    ensures
        find_nl(s, from) == j,
    decreases j - from,
{
    if from < j {
        lemma_find_nl_lands(s, from + 1, j);
    }
}

/// Serialising a session and parsing the result gives both paths back,
/// whenever neither path holds a line break of its own.
pub proof fn lemma_session_round_trip(tmpdir: Seq<u8>, base: Seq<u8>)
    requires
        forall|i: int| 0 <= i < tmpdir.len() ==> tmpdir[i] != 10 && tmpdir[i] != 13,
        forall|i: int| 0 <= i < base.len() ==> base[i] != 10 && base[i] != 13,
    ensures
        spec_parse_ok(spec_session_bytes(tmpdir, base)),
        spec_first_line(spec_session_bytes(tmpdir, base)) == tmpdir,
        spec_second_line(spec_session_bytes(tmpdir, base)) == base,
{
    let content = spec_session_bytes(tmpdir, base);
    let t = tmpdir.len() as int;
    let b = base.len() as int;
    assert(content.len() == t + b + 2);
    assert forall|k: int| 0 <= k < t implies content[k] != 10 by {
        assert(content[k] == tmpdir[k]);
    }
    assert(content[t] == 10);
    lemma_find_nl_lands(content, 0, t);
    assert forall|k: int| t + 1 <= k < t + 1 + b implies content[k] != 10 by {
        assert(content[k] == base[k - (t + 1)]);
    }
    assert(content[t + 1 + b] == 10);
    lemma_find_nl_lands(content, t + 1, t + 1 + b);
    assert(content.subrange(0, t) =~= tmpdir);
    assert(content.subrange(t + 1, t + 1 + b) =~= base);
    if tmpdir.len() > 0 {
        assert(tmpdir.last() != 13);
    }
    if base.len() > 0 {
        assert(base.last() != 13);
    }
}

} // verus!
