use vstd::prelude::*;

verus! {

/// A filesystem path is modelled as a sequence of components, each component a
/// byte string, so that component comparison never depends on a separator
/// convention.
pub open spec fn pview(p: Vec<Vec<u8>>) -> Seq<Seq<u8>> {
    Seq::new(p@.len(), |i: int| p@[i]@)
}

/// `q` is a (not necessarily proper) leading prefix of the path `p`.
pub open spec fn path_has_prefix(p: Seq<Seq<u8>>, q: Seq<Seq<u8>>) -> bool {
    q.len() <= p.len() && p.take(q.len() as int) == q
}

/// Number of leading components on which the two paths agree.
pub open spec fn common_len(a: Seq<Seq<u8>>, b: Seq<Seq<u8>>) -> int
    decreases a.len(),
{
    if a.len() == 0 || b.len() == 0 {
        0
    } else if a[0] != b[0] {
        0
    } else {
        1 + common_len(a.skip(1), b.skip(1))
    }
}

/// The common prefix length is the index of the first difference: the paths
/// agree on every earlier component and, when both paths go on, differ there.
pub proof fn lemma_common_len(a: Seq<Seq<u8>>, b: Seq<Seq<u8>>)
    ensures
        0 <= common_len(a, b) <= a.len(),
        common_len(a, b) <= b.len(),
        forall|i: int| 0 <= i < common_len(a, b) ==> a[i] == b[i],
        common_len(a, b) < a.len() && common_len(a, b) < b.len() ==> a[common_len(a, b)]
            != b[common_len(a, b)],
    decreases a.len(),
{
    if a.len() == 0 || b.len() == 0 {
    } else if a[0] != b[0] {
    } else {
        lemma_common_len(a.skip(1), b.skip(1));
        let k = common_len(a, b);
        assert forall|i: int| 0 <= i < k implies a[i] == b[i] by {
            if i > 0 {
                assert(a.skip(1)[i - 1] == b.skip(1)[i - 1]);
            }
        }
        if k < a.len() && k < b.len() {
            assert(a.skip(1)[k - 1] != b.skip(1)[k - 1]);
        }
    }
}

/// Exact byte-string equality of two components.
pub fn bytes_eq(a: &Vec<u8>, b: &Vec<u8>) -> (r: bool)
    ensures
        r == (a@ == b@),
{
    if a.len() != b.len() {
        return false;
    }
    let n = a.len();
    let mut i: usize = 0;
    while i < n
        invariant
            n == a@.len() && n == b@.len(),
            0 <= i <= n,
            forall|j: int| 0 <= j < i ==> a@[j] == b@[j],
        decreases n - i,
    {
        if a[i] != b[i] {
            return false;
        }
        i = i + 1;
    }
    proof {
        assert(a@ =~= b@);
    }
    true
}

/// Componentwise equality of two paths.
pub fn path_eq(a: &Vec<Vec<u8>>, b: &Vec<Vec<u8>>) -> (r: bool)
    ensures
        r == (pview(*a) == pview(*b)),
{
    if a.len() != b.len() {
        proof {
            assert(pview(*a).len() != pview(*b).len());
        }
        return false;
    }
    let n = a.len();
    let mut i: usize = 0;
    while i < n
        invariant
            n == a@.len() && n == b@.len(),
            0 <= i <= n,
            forall|j: int| 0 <= j < i ==> pview(*a)[j] == pview(*b)[j],
        decreases n - i,
    {
        if !bytes_eq(&a[i], &b[i]) {
            proof {
                assert(pview(*a)[i as int] != pview(*b)[i as int]);
            }
            return false;
        }
        i = i + 1;
    }
    proof {
        assert(pview(*a) =~= pview(*b));
    }
    true
}

/// Whether the path `p` starts with the path `q`.
pub fn path_starts_with(p: &Vec<Vec<u8>>, q: &Vec<Vec<u8>>) -> (r: bool)
    ensures
        r == path_has_prefix(pview(*p), pview(*q)),
{
    if q.len() > p.len() {
        return false;
    }
    let n = q.len();
    let mut i: usize = 0;
    while i < n
        invariant
            n == q@.len(),
            n <= p@.len(),
            0 <= i <= n,
            forall|j: int| 0 <= j < i ==> pview(*p)[j] == pview(*q)[j],
        decreases n - i,
    {
        if !bytes_eq(&p[i], &q[i]) {
            proof {
                assert(pview(*p).take(n as int)[i as int] != pview(*q)[i as int]);
            }
            return false;
        }
        i = i + 1;
    }
    proof {
        assert(pview(*p).take(n as int) =~= pview(*q));
    }
    true
}

/// Copy of a component.
pub fn dup_bytes(v: &Vec<u8>) -> (r: Vec<u8>)
    ensures
        r@ == v@,
{
    let n = v.len();
    let mut r: Vec<u8> = Vec::new();
    let mut i: usize = 0;
    while i < n
        invariant
            n == v@.len(),
            0 <= i <= n,
            r@ == v@.take(i as int),
        decreases n - i,
    {
        r.push(v[i]);
        proof {
            assert(r@ =~= v@.take(i + 1));
        }
        i = i + 1;
    }
    proof {
        assert(v@.take(n as int) =~= v@);
    }
    r
}

/// Copy of a path.
pub fn dup_path(p: &Vec<Vec<u8>>) -> (r: Vec<Vec<u8>>)
    ensures
        pview(r) == pview(*p),
{
    let n = p.len();
    let mut r: Vec<Vec<u8>> = Vec::new();
    let mut i: usize = 0;
    while i < n
        invariant
            n == p@.len(),
            0 <= i <= n,
            r@.len() == i,
            forall|j: int| 0 <= j < i ==> pview(r)[j] == pview(*p)[j],
        decreases n - i,
    {
        let c = dup_bytes(&p[i]);
        r.push(c);
        i = i + 1;
    }
    proof {
        assert(pview(r) =~= pview(*p));
    }
    r
}

/// The first `k` components of `p`.
pub fn path_take(p: &Vec<Vec<u8>>, k: usize) -> (r: Vec<Vec<u8>>)
    requires
        k <= p@.len(),
    ensures
        pview(r) == pview(*p).take(k as int),
{
    let mut r: Vec<Vec<u8>> = Vec::new();
    let mut i: usize = 0;
    while i < k
        invariant
            k <= p@.len(),
            0 <= i <= k,
            r@.len() == i,
            forall|j: int| 0 <= j < i ==> pview(r)[j] == pview(*p)[j],
        decreases k - i,
    {
        let c = dup_bytes(&p[i]);
        r.push(c);
        i = i + 1;
    }
    proof {
        assert(pview(r) =~= pview(*p).take(k as int));
    }
    r
}

/// `p` with one more component appended.
pub fn path_join(p: &Vec<Vec<u8>>, c: &Vec<u8>) -> (r: Vec<Vec<u8>>)
    ensures
        pview(r) == pview(*p).push(c@),
{
    let mut r = dup_path(p);
    let cc = dup_bytes(c);
    r.push(cc);
    proof {
        assert(pview(r) =~= pview(*p).push(c@));
    }
    r
}

/// `p`, which starts with `from`, re-rooted under `to`: the components of
/// `from` are dropped and those of `to` put in their place.
pub fn path_rebase(p: &Vec<Vec<u8>>, from_len: usize, to: &Vec<Vec<u8>>) -> (r: Vec<Vec<u8>>)
    requires
        from_len <= p@.len(),
    ensures
        pview(r) == pview(*to) + pview(*p).skip(from_len as int),
{
    let mut r = dup_path(to);
    let n = p.len();
    let mut i: usize = from_len;
    while i < n
        invariant
            from_len <= i <= n,
            n == p@.len(),
            r@.len() == pview(*to).len() + (i - from_len),
            forall|j: int| 0 <= j < pview(*to).len() ==> pview(r)[j] == pview(*to)[j],
            forall|j: int|
                from_len <= j < i ==> pview(r)[pview(*to).len() + j - from_len] == pview(*p)[j],
        decreases n - i,
    {
        let c = dup_bytes(&p[i]);
        let ghost r0 = pview(r);
        r.push(c);
        proof {
            assert(forall|j: int| 0 <= j < r0.len() ==> pview(r)[j] == r0[j]);
            assert(pview(r)[r0.len() as int] == pview(*p)[i as int]);
        }
        i = i + 1;
    }
    proof {
        assert(pview(r) =~= pview(*to) + pview(*p).skip(from_len as int));
    }
    r
}

/// Common prefix length of two paths: the number of leading components that
/// are pairwise equal.
pub fn common_prefix_len(a: &Vec<Vec<u8>>, b: &Vec<Vec<u8>>) -> (k: usize)
    ensures
        k as int == common_len(pview(*a), pview(*b)),
{
    let av = Ghost(pview(*a));
    let bv = Ghost(pview(*b));
    let mut i: usize = 0;
    proof {
        assert(av@.skip(0) =~= av@);
        assert(bv@.skip(0) =~= bv@);
    }
    loop
        invariant
            av@ == pview(*a) && bv@ == pview(*b),
            0 <= i <= av@.len() && i <= bv@.len(),
            common_len(av@, bv@) == i + common_len(av@.skip(i as int), bv@.skip(i as int)),
        ensures
            0 <= i <= av@.len() && i <= bv@.len(),
            common_len(av@, bv@) == i + common_len(av@.skip(i as int), bv@.skip(i as int)),
            common_len(av@.skip(i as int), bv@.skip(i as int)) == 0,
        decreases av@.len() - i,
    {
        if i >= a.len() || i >= b.len() {
            break;
        }
        if !bytes_eq(&a[i], &b[i]) {
            proof {
                assert(av@.skip(i as int)[0] != bv@.skip(i as int)[0]);
            }
            break;
        }
        proof {
            assert(av@.skip(i as int)[0] == bv@.skip(i as int)[0]);
            assert(av@.skip(i as int).skip(1) =~= av@.skip(i + 1));
            assert(bv@.skip(i as int).skip(1) =~= bv@.skip(i + 1));
        }
        i = i + 1;
    }
    proof {
        assert(common_len(av@.skip(i as int), bv@.skip(i as int)) == 0);
    }
    i
}

} // verus!
