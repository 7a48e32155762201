//! First-match lookup over keyed record sequences, and how it behaves
//! under push, removal and update.  The working tree, the staging area,
//! entry listings and branch locks are all such sequences.

use vstd::prelude::*;

verus! {

/// The index of the first record whose key is `k`, or -1.
pub open spec fn assoc_index<T>(s: Seq<T>, keyf: spec_fn(T) -> Seq<char>, k: Seq<char>) -> int
    decreases s.len(),
{
    if s.len() == 0 {
        -1
    } else if keyf(s[0]) == k {
        0
    } else {
        let rest = assoc_index(s.drop_first(), keyf, k);
        if rest == -1 {
            -1
        } else {
            rest + 1
        }
    }
}

/// The first record whose key is `k`, if any.
pub open spec fn assoc_find<T>(s: Seq<T>, keyf: spec_fn(T) -> Seq<char>, k: Seq<char>) -> Option<
    T,
> {
    let i = assoc_index(s, keyf, k);
    if i < 0 {
        None
    } else {
        Some(s[i])
    }
}

pub open spec fn assoc_has<T>(s: Seq<T>, keyf: spec_fn(T) -> Seq<char>, k: Seq<char>) -> bool {
    assoc_index(s, keyf, k) >= 0
}

/// All keys are distinct.
pub open spec fn keys_unique<T>(s: Seq<T>, keyf: spec_fn(T) -> Seq<char>) -> bool {
    forall|i: int, j: int|
        0 <= i < j < s.len() ==> keyf(#[trigger] s[i]) != keyf(#[trigger] s[j])
}

/// Index bounds, the found record, and the miss conditions.
pub proof fn lemma_assoc_index<T>(s: Seq<T>, keyf: spec_fn(T) -> Seq<char>, k: Seq<char>)
    ensures
        -1 <= assoc_index(s, keyf, k) < s.len(),
        assoc_index(s, keyf, k) >= 0 ==> keyf(s[assoc_index(s, keyf, k)]) == k,
        assoc_index(s, keyf, k) == -1 ==> forall|i: int|
            0 <= i < s.len() ==> keyf(#[trigger] s[i]) != k,
        assoc_index(s, keyf, k) >= 0 ==> forall|i: int|
            0 <= i < assoc_index(s, keyf, k) ==> keyf(#[trigger] s[i]) != k,
    decreases s.len(),
{
    if s.len() > 0 && keyf(s[0]) != k {
        lemma_assoc_index(s.drop_first(), keyf, k);
        assert(forall|i: int| 1 <= i < s.len() ==> s[i] == s.drop_first()[i - 1]);
    }
}

/// A hit after a prefix of misses is the first hit.
pub proof fn lemma_assoc_first_hit<T>(
    s: Seq<T>,
    keyf: spec_fn(T) -> Seq<char>,
    k: Seq<char>,
    i: int,
)
    requires
        0 <= i < s.len(),
        keyf(s[i]) == k,
        forall|m: int| 0 <= m < i ==> keyf(#[trigger] s[m]) != k,
    ensures
        assoc_index(s, keyf, k) == i,
    decreases i,
{
    lemma_assoc_index(s, keyf, k);
    if keyf(s[0]) != k {
        lemma_assoc_first_hit(s.drop_first(), keyf, k, i - 1);
        assert(forall|m: int| 1 <= m < s.len() ==> s[m] == s.drop_first()[m - 1]);
    }
}

/// Appending a record only ever fills in a key that was absent.
pub proof fn lemma_assoc_push<T>(s: Seq<T>, keyf: spec_fn(T) -> Seq<char>, x: T, k: Seq<char>)
    ensures
        assoc_find(s, keyf, k) is Some ==> assoc_find(s.push(x), keyf, k) == assoc_find(
            s,
            keyf,
            k,
        ),
        assoc_find(s, keyf, k) is None && keyf(x) == k ==> assoc_find(s.push(x), keyf, k)
            == Some(x),
        assoc_find(s, keyf, k) is None && keyf(x) != k ==> assoc_find(s.push(x), keyf, k)
            is None,
    decreases s.len(),
{
    if s.len() == 0 {
        assert(s.push(x)[0] == x);
        if keyf(x) != k {
            assert(assoc_index(s.push(x).drop_first(), keyf, k) == -1);
        }
    } else {
        lemma_assoc_push(s.drop_first(), keyf, x, k);
        assert(s.push(x).drop_first() =~= s.drop_first().push(x));
        lemma_assoc_index(s, keyf, k);
        lemma_assoc_index(s.push(x), keyf, k);
        lemma_assoc_index(s.drop_first(), keyf, k);
        lemma_assoc_index(s.drop_first().push(x), keyf, k);
    }
}

/// Removing the only record with key `p` erases `p` and nothing else.
pub proof fn lemma_assoc_remove<T>(
    s: Seq<T>,
    keyf: spec_fn(T) -> Seq<char>,
    idx: int,
    k: Seq<char>,
)
    requires
        0 <= idx < s.len(),
        forall|m: int| 0 <= m < s.len() && m != idx ==> keyf(#[trigger] s[m]) != keyf(s[idx]),
    ensures
        keyf(s[idx]) == k ==> assoc_find(s.remove(idx), keyf, k) is None,
        keyf(s[idx]) != k ==> assoc_find(s.remove(idx), keyf, k) == assoc_find(s, keyf, k),
    decreases s.len(),
{
    let t = s.remove(idx);
    if keyf(s[idx]) == k {
        lemma_assoc_index(t, keyf, k);
        if assoc_index(t, keyf, k) >= 0 {
            let i = assoc_index(t, keyf, k);
            if i < idx {
                assert(t[i] == s[i]);
            } else {
                assert(t[i] == s[i + 1]);
            }
        }
    } else {
        lemma_assoc_index(s, keyf, k);
        lemma_assoc_index(t, keyf, k);
        if assoc_index(s, keyf, k) >= 0 {
            let i = assoc_index(s, keyf, k);
            assert(i != idx);
            if i < idx {
                assert(t[i] == s[i]);
                assert(forall|m: int| 0 <= m < i ==> t[m] == s[m]);
                lemma_assoc_first_hit(t, keyf, k, i);
            } else {
                assert(t[i - 1] == s[i]);
                assert forall|m: int| 0 <= m < i - 1 implies keyf(#[trigger] t[m]) != k by {
                    if m < idx {
                        assert(t[m] == s[m]);
                    } else {
                        assert(t[m] == s[m + 1]);
                    }
                }
                lemma_assoc_first_hit(t, keyf, k, i - 1);
            }
        } else {
            if assoc_index(t, keyf, k) >= 0 {
                let i = assoc_index(t, keyf, k);
                if i < idx {
                    assert(t[i] == s[i]);
                } else {
                    assert(t[i] == s[i + 1]);
                }
            }
        }
    }
}

} // verus!
