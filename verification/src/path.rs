//! Paths relative to a scan root, held as their components, each component a
//! byte string. The tree keeps its entries sorted by the component-wise
//! lexicographic order defined here, under which every directory stands
//! directly before the contiguous block of its descendants.
use vstd::prelude::*;

verus! {

/// One path relative to a scan root: a non-empty list of name components.
#[derive(Debug)]
pub struct RelPath {
    pub components: Vec<Vec<u8>>,
}

impl View for RelPath {
    type V = Seq<Seq<u8>>;

    open spec fn view(&self) -> Seq<Seq<u8>> {
        Seq::new(self.components@.len(), |i: int| self.components@[i]@)
    }
}

/// Byte-wise lexicographic order on a single component.
pub open spec fn bytes_lt(a: Seq<u8>, b: Seq<u8>) -> bool
    decreases a.len(),
{
    if b.len() == 0 {
        false
    } else if a.len() == 0 {
        true
    } else if a[0] != b[0] {
        a[0] < b[0]
    } else {
        bytes_lt(a.drop_first(), b.drop_first())
    }
}

/// Component-wise lexicographic order on paths: a proper prefix sorts before
/// any of its extensions, so a directory sorts directly before its
/// descendants.
pub open spec fn path_lt(a: Seq<Seq<u8>>, b: Seq<Seq<u8>>) -> bool
    decreases a.len(),
{
    if b.len() == 0 {
        false
    } else if a.len() == 0 {
        true
    } else if a[0] != b[0] {
        bytes_lt(a[0], b[0])
    } else {
        path_lt(a.drop_first(), b.drop_first())
    }
}

/// `p` is `q` itself or an ancestor of `q`.
pub open spec fn is_prefix_of(p: Seq<Seq<u8>>, q: Seq<Seq<u8>>) -> bool {
    p.len() <= q.len() && p == q.subrange(0, p.len() as int)
}

/// `p` is a strict ancestor of `q`.
pub open spec fn is_ancestor_of(p: Seq<Seq<u8>>, q: Seq<Seq<u8>>) -> bool {
    p.len() < q.len() && p == q.subrange(0, p.len() as int)
}

pub proof fn lemma_bytes_lt_connected(a: Seq<u8>, b: Seq<u8>)
    ensures
        bytes_lt(a, b) || bytes_lt(b, a) || a == b,
    decreases a.len(),
{
    if a.len() == 0 {
        if b.len() == 0 {
            assert(a =~= b);
        }
    } else if b.len() == 0 {
    } else if a[0] == b[0] {
        lemma_bytes_lt_connected(a.drop_first(), b.drop_first());
        if a.drop_first() == b.drop_first() {
            assert(a.drop_first().len() == b.drop_first().len());
            assert(a.len() == b.len());
            assert forall|i: int| 0 <= i < a.len() implies a[i] == b[i] by {
                if i > 0 {
                    assert(a[i] == a.drop_first()[i - 1]);
                    assert(b[i] == b.drop_first()[i - 1]);
                }
            }
            assert(a =~= b);
        }
    }
}

pub proof fn lemma_bytes_lt_asym(a: Seq<u8>, b: Seq<u8>)
    ensures
        !(bytes_lt(a, b) && bytes_lt(b, a)),
        bytes_lt(a, b) ==> a != b,
    decreases a.len(),
{
    if a.len() > 0 && b.len() > 0 && a[0] == b[0] {
        lemma_bytes_lt_asym(a.drop_first(), b.drop_first());
        if bytes_lt(a, b) && a == b {
            assert(a.drop_first() == b.drop_first());
        }
    }
}

pub proof fn lemma_bytes_lt_trans(a: Seq<u8>, b: Seq<u8>, c: Seq<u8>)
    requires
        bytes_lt(a, b),
        bytes_lt(b, c),
    ensures
        bytes_lt(a, c),
    decreases a.len(),
{
    if a.len() == 0 {
    } else if a[0] == b[0] {
        if b[0] == c[0] {
            lemma_bytes_lt_trans(a.drop_first(), b.drop_first(), c.drop_first());
        }
    } else {
        if b[0] != c[0] {
        }
    }
}

pub proof fn lemma_path_lt_connected(a: Seq<Seq<u8>>, b: Seq<Seq<u8>>)
    ensures
        path_lt(a, b) || path_lt(b, a) || a == b,
    decreases a.len(),
{
    if a.len() == 0 {
        if b.len() == 0 {
            assert(a =~= b);
        }
    } else if b.len() == 0 {
    } else if a[0] == b[0] {
        lemma_path_lt_connected(a.drop_first(), b.drop_first());
        if a.drop_first() == b.drop_first() {
            assert(a.drop_first().len() == b.drop_first().len());
            assert(a.len() == b.len());
            assert forall|i: int| 0 <= i < a.len() implies a[i] == b[i] by {
                if i > 0 {
                    assert(a[i] == a.drop_first()[i - 1]);
                    assert(b[i] == b.drop_first()[i - 1]);
                }
            }
            assert(a =~= b);
        }
    } else {
        lemma_bytes_lt_connected(a[0], b[0]);
    }
}

pub proof fn lemma_path_lt_asym(a: Seq<Seq<u8>>, b: Seq<Seq<u8>>)
    ensures
        !(path_lt(a, b) && path_lt(b, a)),
        path_lt(a, b) ==> a != b,
    decreases a.len(),
{
    if a.len() > 0 && b.len() > 0 {
        if a[0] == b[0] {
            lemma_path_lt_asym(a.drop_first(), b.drop_first());
            if path_lt(a, b) && a == b {
                assert(a.drop_first() == b.drop_first());
            }
        } else {
            lemma_bytes_lt_asym(a[0], b[0]);
        }
    }
}

pub proof fn lemma_path_lt_trans(a: Seq<Seq<u8>>, b: Seq<Seq<u8>>, c: Seq<Seq<u8>>)
    requires
        path_lt(a, b),
        path_lt(b, c),
    ensures
        path_lt(a, c),
    decreases a.len(),
{
    if a.len() == 0 {
    } else if a[0] == b[0] {
        if b[0] == c[0] {
            lemma_path_lt_trans(a.drop_first(), b.drop_first(), c.drop_first());
        } else {
            lemma_bytes_lt_asym(b[0], c[0]);
        }
    } else {
        if b[0] == c[0] {
            lemma_bytes_lt_asym(a[0], b[0]);
        } else {
            lemma_bytes_lt_trans(a[0], b[0], c[0]);
            lemma_bytes_lt_asym(a[0], c[0]);
        }
    }
}

/// A proper prefix of a path sorts strictly before it.
pub proof fn lemma_ancestor_lt(p: Seq<Seq<u8>>, q: Seq<Seq<u8>>)
    requires
        is_ancestor_of(p, q),
    ensures
        path_lt(p, q),
    decreases p.len(),
{
    if p.len() > 0 {
        assert(p[0] == q[0]) by {
            assert(q.subrange(0, p.len() as int)[0] == q[0]);
        }
        assert(p.drop_first() == q.drop_first().subrange(0, p.len() - 1)) by {
            assert(p.drop_first() =~= q.drop_first().subrange(0, p.len() - 1));
        }
        lemma_ancestor_lt(p.drop_first(), q.drop_first());
    }
}

/// Anything that sorts between a path and one of its extensions is itself an
/// extension of that path: in a sorted sequence a directory's descendants
/// form one contiguous block.
pub proof fn lemma_between_prefix(p: Seq<Seq<u8>>, q: Seq<Seq<u8>>, r: Seq<Seq<u8>>)
    requires
        is_prefix_of(p, r),
        path_lt(p, q),
        path_lt(q, r),
    ensures
        is_prefix_of(p, q),
    decreases p.len(),
{
    if p.len() == 0 {
        assert(p =~= q.subrange(0, 0));
    } else {
        assert(p[0] == r[0]) by {
            assert(r.subrange(0, p.len() as int)[0] == r[0]);
        }
        assert(q.len() > 0);
        assert(p[0] == q[0]) by {
            if p[0] != q[0] {
                assert(bytes_lt(p[0], q[0]));
                if q[0] == r[0] {
                    assert(bytes_lt(p[0], q[0]) && p[0] == r[0] && q[0] == r[0]);
                    lemma_bytes_lt_asym(p[0], q[0]);
                    assert(false);
                } else {
                    assert(bytes_lt(q[0], r[0]));
                    lemma_bytes_lt_trans(p[0], q[0], r[0]);
                    lemma_bytes_lt_asym(p[0], r[0]);
                    assert(false);
                }
            }
        }
        assert(p.drop_first() == r.drop_first().subrange(0, p.len() - 1)) by {
            assert(p.drop_first() =~= r.drop_first().subrange(0, p.len() - 1));
        }
        assert(q[0] == r[0]);
        lemma_between_prefix(p.drop_first(), q.drop_first(), r.drop_first());
        assert(p == q.subrange(0, p.len() as int)) by {
            assert(p.drop_first() == q.drop_first().subrange(0, p.len() - 1));
            assert forall|i: int| 0 <= i < p.len() implies p[i] == q.subrange(
                0,
                p.len() as int,
            )[i] by {
                if i > 0 {
                    assert(p[i] == p.drop_first()[i - 1]);
                    assert(q.drop_first().subrange(0, p.len() - 1)[i - 1] == q.drop_first()[i - 1]);
                    assert(q.drop_first()[i - 1] == q[i]);
                }
            }
            assert(p =~= q.subrange(0, p.len() as int));
        }
    }
}

/// Two distinct paths where one prefixes the other make the shorter a strict
/// ancestor.
pub proof fn lemma_prefix_not_equal_ancestor(p: Seq<Seq<u8>>, q: Seq<Seq<u8>>)
    requires
        is_prefix_of(p, q),
        p != q,
    ensures
        is_ancestor_of(p, q),
{
    if p.len() == q.len() {
        assert(p =~= q);
    }
}

impl RelPath {
    /// Number of components.
    pub fn len(&self) -> (r: usize)
        ensures
            r == self@.len(),
    {
        self.components.len()
    }

    /// The final component, the entry's display name.
    pub fn last_component(&self) -> (r: &Vec<u8>)
        requires
            self@.len() >= 1,
        ensures
            r@ == self@.last(),
    {
        &self.components[self.components.len() - 1]
    }
}

/// Byte-string equality.
pub fn bytes_eq(a: &Vec<u8>, b: &Vec<u8>) -> (r: bool)
    ensures
        r == (a@ == b@),
{
    if a.len() != b.len() {
        return false;
    }
    let mut i: usize = 0;
    while i < a.len()
        invariant
            0 <= i <= a.len(),
            a.len() == b.len(),
            forall|j: int| 0 <= j < i ==> a@[j] == b@[j],
        decreases a.len() - i,
    {
        if a[i] != b[i] {
            return false;
        }
        i += 1;
    }
    proof {
        assert(a@ =~= b@);
    }
    true
}

proof fn lemma_bytes_lt_skip_step(a: Seq<u8>, b: Seq<u8>, i: int)
    requires
        0 <= i < a.len(),
        i < b.len(),
        a[i] == b[i],
    ensures
        bytes_lt(a.skip(i), b.skip(i)) == bytes_lt(a.skip(i + 1), b.skip(i + 1)),
{
    assert(a.skip(i).drop_first() =~= a.skip(i + 1));
    assert(b.skip(i).drop_first() =~= b.skip(i + 1));
    assert(a.skip(i)[0] == a[i]);
    assert(b.skip(i)[0] == b[i]);
}

/// Byte-wise lexicographic comparison.
pub fn bytes_less(a: &Vec<u8>, b: &Vec<u8>) -> (r: bool)
    ensures
        r == bytes_lt(a@, b@),
{
    proof {
        assert(a@.skip(0) =~= a@);
        assert(b@.skip(0) =~= b@);
    }
    let mut i: usize = 0;
    while i < a.len() && i < b.len()
        invariant
            0 <= i <= a.len(),
            i <= b.len(),
            bytes_lt(a@, b@) == bytes_lt(a@.skip(i as int), b@.skip(i as int)),
        decreases a.len() - i,
    {
        if a[i] < b[i] {
            assert(bytes_lt(a@.skip(i as int), b@.skip(i as int)));
            return true;
        }
        if a[i] > b[i] {
            assert(!bytes_lt(a@.skip(i as int), b@.skip(i as int)));
            return false;
        }
        proof {
            lemma_bytes_lt_skip_step(a@, b@, i as int);
        }
        i += 1;
    }
    if i == a.len() {
        proof {
            assert(a@.skip(i as int) =~= Seq::<u8>::empty());
        }
        b.len() > i
    } else {
        assert(b@.skip(i as int).len() == 0);
        false
    }
}

proof fn lemma_path_lt_skip_step(a: Seq<Seq<u8>>, b: Seq<Seq<u8>>, i: int)
    requires
        0 <= i < a.len(),
        i < b.len(),
        a[i] == b[i],
    ensures
        path_lt(a.skip(i), b.skip(i)) == path_lt(a.skip(i + 1), b.skip(i + 1)),
{
    assert(a.skip(i).drop_first() =~= a.skip(i + 1));
    assert(b.skip(i).drop_first() =~= b.skip(i + 1));
    assert(a.skip(i)[0] == a[i]);
    assert(b.skip(i)[0] == b[i]);
}

/// Component-wise lexicographic comparison of paths.
pub fn path_less(a: &RelPath, b: &RelPath) -> (r: bool)
    ensures
        r == path_lt(a@, b@),
{
    proof {
        assert(a@.skip(0) =~= a@);
        assert(b@.skip(0) =~= b@);
    }
    let mut i: usize = 0;
    while i < a.components.len() && i < b.components.len()
        invariant
            0 <= i <= a@.len(),
            i <= b@.len(),
            a@.len() == a.components@.len(),
            b@.len() == b.components@.len(),
            path_lt(a@, b@) == path_lt(a@.skip(i as int), b@.skip(i as int)),
        decreases a@.len() - i,
    {
        assert(a@[i as int] == a.components@[i as int]@);
        assert(b@[i as int] == b.components@[i as int]@);
        if !bytes_eq(&a.components[i], &b.components[i]) {
            let r = bytes_less(&a.components[i], &b.components[i]);
            assert(a@.skip(i as int)[0] == a@[i as int]);
            assert(b@.skip(i as int)[0] == b@[i as int]);
            assert(path_lt(a@.skip(i as int), b@.skip(i as int)) == r);
            return r;
        }
        proof {
            lemma_path_lt_skip_step(a@, b@, i as int);
        }
        i += 1;
    }
    if i == a.components.len() {
        proof {
            assert(a@.skip(i as int) =~= Seq::<Seq<u8>>::empty());
        }
        b.components.len() > i
    } else {
        assert(b@.skip(i as int).len() == 0);
        false
    }
}

/// Path equality.
pub fn path_eq(a: &RelPath, b: &RelPath) -> (r: bool)
    ensures
        r == (a@ == b@),
{
    if a.components.len() != b.components.len() {
        assert(a@.len() != b@.len());
        return false;
    }
    let mut i: usize = 0;
    while i < a.components.len()
        invariant
            0 <= i <= a@.len(),
            a@.len() == b@.len(),
            a@.len() == a.components@.len(),
            b@.len() == b.components@.len(),
            forall|j: int| 0 <= j < i ==> a@[j] == b@[j],
        decreases a@.len() - i,
    {
        assert(a@[i as int] == a.components@[i as int]@);
        assert(b@[i as int] == b.components@[i as int]@);
        if !bytes_eq(&a.components[i], &b.components[i]) {
            return false;
        }
        i += 1;
    }
    proof {
        assert(a@ =~= b@);
    }
    true
}

/// Whether `a` starts with `p`, component by component.
pub fn path_starts_with(a: &RelPath, p: &RelPath) -> (r: bool)
    ensures
        r == is_prefix_of(p@, a@),
{
    if p.components.len() > a.components.len() {
        return false;
    }
    let mut i: usize = 0;
    while i < p.components.len()
        invariant
            0 <= i <= p@.len(),
            p@.len() <= a@.len(),
            a@.len() == a.components@.len(),
            p@.len() == p.components@.len(),
            forall|j: int| 0 <= j < i ==> p@[j] == a@[j],
        decreases p@.len() - i,
    {
        assert(p@[i as int] == p.components@[i as int]@);
        assert(a@[i as int] == a.components@[i as int]@);
        if !bytes_eq(&p.components[i], &a.components[i]) {
            assert(!is_prefix_of(p@, a@)) by {
                if p@ == a@.subrange(0, p@.len() as int) {
                    assert(a@.subrange(0, p@.len() as int)[i as int] == a@[i as int]);
                }
            }
            return false;
        }
        i += 1;
    }
    proof {
        assert(p@ =~= a@.subrange(0, p@.len() as int));
    }
    true
}

/// Copy of a byte string.
pub fn clone_bytes(v: &Vec<u8>) -> (r: Vec<u8>)
    ensures
        r@ == v@,
{
    let mut out: Vec<u8> = Vec::new();
    let mut i: usize = 0;
    while i < v.len()
        invariant
            0 <= i <= v@.len(),
            out@ == v@.subrange(0, i as int),
        decreases v@.len() - i,
    {
        out.push(v[i]);
        assert(out@ =~= v@.subrange(0, i + 1));
        i += 1;
    }
    proof {
        assert(v@.subrange(0, v@.len() as int) =~= v@);
    }
    out
}

/// Copy of a path.
pub fn clone_rel_path(p: &RelPath) -> (r: RelPath)
    ensures
        r@ == p@,
{
    let mut out: Vec<Vec<u8>> = Vec::new();
    let mut i: usize = 0;
    while i < p.components.len()
        invariant
            0 <= i <= p@.len(),
            p@.len() == p.components@.len(),
            out@.len() == i,
            forall|j: int| 0 <= j < i ==> out@[j]@ == p@[j],
        decreases p@.len() - i,
    {
        assert(p@[i as int] == p.components@[i as int]@);
        out.push(clone_bytes(&p.components[i]));
        i += 1;
    }
    let r = RelPath { components: out };
    proof {
        assert(r@ =~= p@);
    }
    r
}

} // verus!
