use vstd::prelude::*;
use vstd::string::StrSliceExecFns;
use vstd::string::StringExecFns;

verus! {

/// Literal, leftmost-first, non-overlapping substring replacement: whenever
/// the text ahead starts with `k`, that occurrence becomes `v` and scanning
/// resumes after it; otherwise one element is kept and scanning moves on.
/// An empty key leaves the text unchanged.
pub open spec fn replace_seq<A>(s: Seq<A>, k: Seq<A>, v: Seq<A>) -> Seq<A>
    decreases s.len(),
{
    if k.len() == 0 || s.len() < k.len() {
        s
    } else if s.take(k.len() as int) == k {
        v + replace_seq(s.skip(k.len() as int), k, v)
    } else {
        s.take(1) + replace_seq(s.skip(1), k, v)
    }
}

/// One literal replacement: every occurrence of `key` becomes `val`.
pub struct Substitution {
    pub key: Vec<u8>,
    pub val: Vec<u8>,
}

/// The replacements of `subs` applied one after the other, in order: a later
/// replacement acts on the text the earlier ones produced.
pub open spec fn apply_subs_seq(s: Seq<u8>, subs: Seq<Substitution>) -> Seq<u8>
    decreases subs.len(),
{
    if subs.len() == 0 {
        s
    } else {
        apply_subs_seq(replace_seq(s, subs[0].key@, subs[0].val@), subs.skip(1))
    }
}

/// Whether the bytes of `s` starting at `i` begin with `k`.
fn match_at(s: &Vec<u8>, k: &Vec<u8>, i: usize) -> (r: bool)
    requires
        i + k@.len() <= s@.len(),
    ensures
        r == (s@.skip(i as int).take(k@.len() as int) == k@),
{
    let n = k.len();
    let slen = s.len();
    let mut j: usize = 0;
    while j < n
        invariant
            n == k@.len(),
            slen == s@.len(),
            i + n <= slen,
            0 <= j <= n,
            forall|t: int| 0 <= t < j ==> s@[i + t] == k@[t],
        decreases n - j,
    {
        if s[i + j] != k[j] {
            proof {
                assert(s@.skip(i as int).take(n as int)[j as int] != k@[j as int]);
            }
            return false;
        }
        j = j + 1;
    }
    proof {
        assert(s@.skip(i as int).take(n as int) =~= k@);
    }
    true
}

/// Appends all of `v` to `out`.
pub(crate) fn push_all(out: &mut Vec<u8>, v: &Vec<u8>)
    ensures
        final(out)@ == old(out)@ + v@,
{
    let n = v.len();
    let mut j: usize = 0;
    while j < n
        invariant
            n == v@.len(),
            0 <= j <= n,
            out@ == old(out)@ + v@.take(j as int),
        decreases n - j,
    {
        out.push(v[j]);
        proof {
            assert(old(out)@ + v@.take(j as int) + seq![v@[j as int]] =~= old(out)@ + v@.take(
                j + 1,
            ));
        }
        j = j + 1;
    }
    proof {
        assert(old(out)@ + v@.take(n as int) =~= old(out)@ + v@);
    }
}

/// Replaces every occurrence of `k` in `s` by `v`, leftmost first and without
/// overlap. Note that the result may contain new occurrences of `k` (when `v`
/// contains or completes one), so running the same replacement again need not
/// leave the text unchanged: keeping replacement values disjoint from the
/// search keys is the caller's responsibility.
pub fn replace_bytes(s: &Vec<u8>, k: &Vec<u8>, v: &Vec<u8>) -> (r: Vec<u8>)
    ensures
        r@ == replace_seq(s@, k@, v@),
{
    let slen = s.len();
    let klen = k.len();
    if klen == 0 {
        return crate::paths::dup_bytes(s);
    }
    let mut out: Vec<u8> = Vec::new();
    let mut i: usize = 0;
    proof {
        assert(s@.skip(0) =~= s@);
        assert(Seq::<u8>::empty() + replace_seq(s@, k@, v@) =~= replace_seq(s@, k@, v@));
    }
    while slen - i >= klen
        invariant
            slen == s@.len(),
            klen == k@.len(),
            klen >= 1,
            0 <= i <= slen,
            replace_seq(s@, k@, v@) == out@ + replace_seq(s@.skip(i as int), k@, v@),
        decreases slen - i,
    {
        let ghost rest = s@.skip(i as int);
        if match_at(s, k, i) {
            push_all(&mut out, v);
            proof {
                assert(rest.skip(klen as int) =~= s@.skip(i + klen));
                assert(replace_seq(rest, k@, v@) == v@ + replace_seq(s@.skip(i + klen), k@, v@));
                assert(out@ + replace_seq(s@.skip(i + klen), k@, v@) =~= replace_seq(
                    s@,
                    k@,
                    v@,
                ));
            }
            i = i + klen;
        } else {
            out.push(s[i]);
            proof {
                assert(rest.take(1) =~= seq![s@[i as int]]);
                assert(rest.skip(1) =~= s@.skip(i + 1));
                assert(replace_seq(rest, k@, v@) == rest.take(1) + replace_seq(
                    s@.skip(i + 1),
                    k@,
                    v@,
                ));
                assert(out@ + replace_seq(s@.skip(i + 1), k@, v@) =~= replace_seq(s@, k@, v@));
            }
            i = i + 1;
        }
    }
    proof {
        assert(replace_seq(s@.skip(i as int), k@, v@) == s@.skip(i as int));
    }
    while i < slen
        invariant
            slen == s@.len(),
            0 <= i <= slen,
            replace_seq(s@, k@, v@) == out@ + s@.skip(i as int),
        decreases slen - i,
    {
        out.push(s[i]);
        proof {
            assert(out@ + s@.skip(i + 1) =~= replace_seq(s@, k@, v@));
        }
        i = i + 1;
    }
    proof {
        assert(out@ + s@.skip(slen as int) =~= out@);
    }
    out
}

/// The replacements of `subs` applied to `text` one after the other, in the
/// order given. Later replacements act on the text produced by the earlier
/// ones, so the order of the list is part of the contract. Applying the same
/// list twice is not promised to leave the text unchanged the second time:
/// that holds only when the values introduce no new occurrence of any key,
/// which is the caller's responsibility.
pub fn apply_substitutions(text: &Vec<u8>, subs: &Vec<Substitution>) -> (r: Vec<u8>)
    ensures
        r@ == apply_subs_seq(text@, subs@),
{
    let mut cur = crate::paths::dup_bytes(text);
    let n = subs.len();
    let mut i: usize = 0;
    proof {
        assert(subs@.skip(0) =~= subs@);
    }
    while i < n
        invariant
            n == subs@.len(),
            0 <= i <= n,
            apply_subs_seq(text@, subs@) == apply_subs_seq(cur@, subs@.skip(i as int)),
        decreases n - i,
    {
        let ghost rest = subs@.skip(i as int);
        cur = replace_bytes(&cur, &subs[i].key, &subs[i].val);
        proof {
            assert(rest[0] == subs@[i as int]);
            assert(rest.skip(1) =~= subs@.skip(i + 1));
        }
        i = i + 1;
    }
    cur
}

/// Whether the characters of `s` starting at `i` begin with `k`.
fn str_match_at(s: &str, k: &str, i: usize, slen: usize, klen: usize) -> (r: bool)
    requires
        slen == s@.len(),
        klen == k@.len(),
        i + klen <= slen,
    ensures
        r == (s@.skip(i as int).take(klen as int) == k@),
{
    let mut j: usize = 0;
    while j < klen
        invariant
            slen == s@.len(),
            klen == k@.len(),
            i + klen <= slen,
            0 <= j <= klen,
            forall|t: int| 0 <= t < j ==> s@[i + t] == k@[t],
        decreases klen - j,
    {
        if s.get_char(i + j) != k.get_char(j) {
            proof {
                assert(s@.skip(i as int).take(klen as int)[j as int] != k@[j as int]);
            }
            return false;
        }
        j = j + 1;
    }
    proof {
        assert(s@.skip(i as int).take(klen as int) =~= k@);
    }
    true
}

/// `replace_bytes`, for character strings: every occurrence of `k` in `s`
/// becomes `v`, leftmost first and without overlap.
pub fn replace_in_str(s: &str, k: &str, v: &str) -> (r: String)
    ensures
        r@ == replace_seq(s@, k@, v@),
{
    let slen = s.unicode_len();
    let klen = k.unicode_len();
    let mut out = String::new();
    if klen == 0 {
        out.append(s);
        return out;
    }
    let mut i: usize = 0;
    proof {
        assert(s@.skip(0) =~= s@);
        assert(Seq::<char>::empty() + replace_seq(s@, k@, v@) =~= replace_seq(s@, k@, v@));
    }
    while slen - i >= klen
        invariant
            slen == s@.len(),
            klen == k@.len(),
            klen >= 1,
            0 <= i <= slen,
            replace_seq(s@, k@, v@) == out@ + replace_seq(s@.skip(i as int), k@, v@),
        decreases slen - i,
    {
        let ghost rest = s@.skip(i as int);
        if str_match_at(s, k, i, slen, klen) {
            out.append(v);
            proof {
                assert(rest.skip(klen as int) =~= s@.skip(i + klen));
                assert(replace_seq(rest, k@, v@) == v@ + replace_seq(s@.skip(i + klen), k@, v@));
                assert(out@ + replace_seq(s@.skip(i + klen), k@, v@) =~= replace_seq(
                    s@,
                    k@,
                    v@,
                ));
            }
            i = i + klen;
        } else {
            let one = s.substring_char(i, i + 1);
            out.append(one);
            proof {
                assert(rest.take(1) =~= one@);
                assert(rest.skip(1) =~= s@.skip(i + 1));
                assert(replace_seq(rest, k@, v@) == rest.take(1) + replace_seq(
                    s@.skip(i + 1),
                    k@,
                    v@,
                ));
                assert(out@ + replace_seq(s@.skip(i + 1), k@, v@) =~= replace_seq(s@, k@, v@));
            }
            i = i + 1;
        }
    }
    proof {
        assert(replace_seq(s@.skip(i as int), k@, v@) == s@.skip(i as int));
    }
    let tail = s.substring_char(i, slen);
    out.append(tail);
    proof {
        assert(out@ =~= replace_seq(s@, k@, v@));
    }
    out
}

} // verus!
