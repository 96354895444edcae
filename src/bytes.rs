//! Byte-sequence primitives: pattern search, copying, and the facts about
//! search that stay true when more bytes arrive.
use vstd::prelude::*;

verus! {

/// `pat` occurs in `s` starting at index `i`.
pub open spec fn matches_at(s: Seq<u8>, pat: Seq<u8>, i: int) -> bool {
    0 <= i && i + pat.len() <= s.len() && s.subrange(i, i + pat.len()) == pat
}

/// The index of the first occurrence of `pat` in `s` at or after `i`.
pub open spec fn find_from(s: Seq<u8>, pat: Seq<u8>, i: int) -> Option<int>
    decreases s.len() + 1 - i,
{
    if i < 0 || i + pat.len() > s.len() {
        None
    } else if matches_at(s, pat, i) {
        Some(i)
    } else {
        find_from(s, pat, i + 1)
    }
}

/// `pre` is the beginning of `s`.
pub open spec fn is_prefix(pre: Seq<u8>, s: Seq<u8>) -> bool {
    pre.len() <= s.len() && s.subrange(0, pre.len() as int) == pre
}

/// What `find_from` returns, stated without recursion.
pub proof fn lemma_find_from(s: Seq<u8>, pat: Seq<u8>, i: int)
    requires
        0 <= i,
    ensures
        find_from(s, pat, i) matches Some(j) ==> {
            &&& i <= j
            &&& matches_at(s, pat, j)
            &&& forall|t: int| i <= t < j ==> !matches_at(s, pat, t)
        },
        find_from(s, pat, i) is None ==> forall|t: int| i <= t ==> !matches_at(s, pat, t),
    decreases s.len() + 1 - i,
{
    if i + pat.len() > s.len() {
    } else if matches_at(s, pat, i) {
    } else {
        lemma_find_from(s, pat, i + 1);
        assert forall|t: int| i <= t && (find_from(s, pat, i) is None || t < find_from(
            s,
            pat,
            i,
        )->Some_0) implies !matches_at(s, pat, t) by {
            if t > i {
            }
        }
    }
}

/// Positions known not to start a match can be skipped.
pub proof fn lemma_find_skip(s: Seq<u8>, pat: Seq<u8>, i: int, k: int)
    requires
        0 <= i <= k,
        forall|t: int| i <= t < k ==> !matches_at(s, pat, t),
    ensures
        find_from(s, pat, i) == find_from(s, pat, k),
    decreases k - i,
{
    if i < k {
        lemma_find_skip(s, pat, i + 1, k);
    }
}

/// A match that lies wholly inside a prefix is a match in every extension.
pub proof fn lemma_matches_prefix(pre: Seq<u8>, s: Seq<u8>, pat: Seq<u8>, t: int)
    requires
        is_prefix(pre, s),
        0 <= t,
        t + pat.len() <= pre.len(),
    ensures
        matches_at(pre, pat, t) == matches_at(s, pat, t),
{
    assert(pre.subrange(t, t + pat.len()) =~= s.subrange(t, t + pat.len()));
}

/// A match found in a prefix is the first match in every extension too.
pub proof fn lemma_find_prefix_some(pre: Seq<u8>, s: Seq<u8>, pat: Seq<u8>, i: int)
    requires
        is_prefix(pre, s),
        0 <= i,
        find_from(pre, pat, i) is Some,
    ensures
        find_from(s, pat, i) == find_from(pre, pat, i),
{
    lemma_find_from(pre, pat, i);
    let j = find_from(pre, pat, i)->Some_0;
    assert forall|t: int| i <= t < j implies !matches_at(s, pat, t) by {
        lemma_matches_prefix(pre, s, pat, t);
    }
    lemma_find_skip(s, pat, i, j);
    lemma_matches_prefix(pre, s, pat, j);
}

/// When a prefix holds no match from `i` on, the search in an extension may
/// start at the first position whose match would reach past the prefix.
pub proof fn lemma_find_prefix_none(pre: Seq<u8>, s: Seq<u8>, pat: Seq<u8>, i: int, k: int)
    requires
        is_prefix(pre, s),
        0 <= i <= k,
        k + pat.len() <= pre.len() + 1,
        forall|t: int| i <= t < k ==> !matches_at(pre, pat, t),
    ensures
        find_from(s, pat, i) == find_from(s, pat, k),
{
    assert forall|t: int| i <= t < k implies !matches_at(s, pat, t) by {
        lemma_matches_prefix(pre, s, pat, t);
    }
    lemma_find_skip(s, pat, i, k);
}

/// Searching a suffix is searching the whole from the suffix's start.
pub proof fn lemma_matches_shift(s: Seq<u8>, pat: Seq<u8>, k: int, j: int)
    requires
        0 <= k <= s.len(),
        0 <= j,
    ensures
        matches_at(s.subrange(k, s.len() as int), pat, j) == matches_at(s, pat, k + j),
{
    if j + pat.len() <= s.len() - k {
        assert(s.subrange(k, s.len() as int).subrange(j, j + pat.len()) =~= s.subrange(
            k + j,
            k + j + pat.len(),
        ));
    }
}

/// What a search of the suffix `s[k..]` from its start says of `s`.
pub proof fn lemma_find_shift(s: Seq<u8>, pat: Seq<u8>, k: int)
    requires
        0 <= k <= s.len(),
    ensures
        find_from(s.subrange(k, s.len() as int), pat, 0) matches Some(j) ==> {
            &&& find_from(s, pat, k) == Some(k + j)
            &&& matches_at(s, pat, k + j)
            &&& forall|t: int| k <= t < k + j ==> !matches_at(s, pat, t)
        },
        find_from(s.subrange(k, s.len() as int), pat, 0) is None ==> forall|t: int|
            k <= t ==> !matches_at(s, pat, t),
{
    let sub = s.subrange(k, s.len() as int);
    lemma_find_from(sub, pat, 0);
    assert forall|t: int| k <= t implies matches_at(s, pat, t) == matches_at(sub, pat, t - k) by {
        lemma_matches_shift(s, pat, k, t - k);
    }
    if let Some(j) = find_from(sub, pat, 0) {
        lemma_find_skip(s, pat, k, k + j);
        assert(matches_at(s, pat, k + j));
    }
}

/// `is_prefix` is transitive.
pub proof fn lemma_prefix_trans(a: Seq<u8>, b: Seq<u8>, c: Seq<u8>)
    requires
        is_prefix(a, b),
        is_prefix(b, c),
    ensures
        is_prefix(a, c),
{
    assert(c.subrange(0, a.len() as int) =~= c.subrange(0, b.len() as int).subrange(
        0,
        a.len() as int,
    ));
}

/// A prefix as long as the whole is the whole.
pub proof fn lemma_prefix_full(a: Seq<u8>, s: Seq<u8>)
    requires
        is_prefix(a, s),
        a.len() == s.len(),
    ensures
        a == s,
{
    assert(s.subrange(0, s.len() as int) =~= s);
}

/// A range that lies inside a prefix reads the same in every extension.
pub proof fn lemma_prefix_range(a: Seq<u8>, s: Seq<u8>, lo: int, hi: int)
    requires
        is_prefix(a, s),
        0 <= lo <= hi <= a.len(),
    ensures
        s.subrange(lo, hi) == a.subrange(lo, hi),
{
    assert(s.subrange(lo, hi) =~= s.subrange(0, a.len() as int).subrange(lo, hi));
}

/// Whether `pat` occurs in `s` at index `i`.
pub fn bytes_match_at(s: &[u8], pat: &[u8], i: usize) -> (r: bool)
    ensures
        r == matches_at(s@, pat@, i as int),
{
    if pat.len() > s.len() || i > s.len() - pat.len() {
        return false;
    }
    let mut k: usize = 0;
    while k < pat.len()
        invariant
            k <= pat.len(),
            i + pat.len() <= s.len(),
            forall|t: int| 0 <= t < k ==> s@[i + t] == pat@[t],
        decreases pat.len() - k,
    {
        if s[i + k] != pat[k] {
            assert(s@.subrange(i as int, i + pat@.len())[k as int] != pat@[k as int]);
            return false;
        }
        k += 1;
    }
    assert(s@.subrange(i as int, i + pat@.len()) =~= pat@);
    true
}

/// The index of the first occurrence of `pat` in `s` at or after `from`.
pub fn find_bytes(s: &[u8], pat: &[u8], from: usize) -> (r: Option<usize>)
    ensures
        r matches Some(j) ==> find_from(s@, pat@, from as int) == Some(j as int),
        r is None ==> find_from(s@, pat@, from as int) is None,
{
    if from > s.len() {
        return None;
    }
    let mut j: usize = from;
    while pat.len() <= s.len() && j <= s.len() - pat.len()
        invariant
            from <= j,
            j <= s.len() + 1,
            find_from(s@, pat@, from as int) == find_from(s@, pat@, j as int),
        decreases s.len() + 1 - j,
    {
        if bytes_match_at(s, pat, j) {
            return Some(j);
        }
        assert(j < s.len()) by {
            if j == s.len() {
                assert(s@.subrange(j as int, j as int) =~= pat@);
            }
        }
        j += 1;
    }
    None
}

/// A copy of `s[lo..hi]`.
pub fn copy_range(s: &[u8], lo: usize, hi: usize) -> (r: Vec<u8>)
    requires
        lo <= hi <= s.len(),
    ensures
        r@ == s@.subrange(lo as int, hi as int),
{
    let mut r: Vec<u8> = Vec::with_capacity(hi - lo);
    let mut k: usize = lo;
    while k < hi
        invariant
            lo <= k <= hi <= s.len(),
            r@ == s@.subrange(lo as int, k as int),
        decreases hi - k,
    {
        r.push(s[k]);
        k += 1;
        assert(r@ =~= s@.subrange(lo as int, k as int));
    }
    r
}

/// Appends `s` to `v`.
pub fn append_bytes(v: &mut Vec<u8>, s: &[u8])
    ensures
        final(v)@ == old(v)@ + s@,
{
    let mut k: usize = 0;
    while k < s.len()
        invariant
            k <= s.len(),
            v@ == old(v)@ + s@.subrange(0, k as int),
        decreases s.len() - k,
    {
        v.push(s[k]);
        k += 1;
        assert(v@ =~= old(v)@ + s@.subrange(0, k as int));
    }
    assert(s@.subrange(0, s@.len() as int) =~= s@);
}

} // verus!
