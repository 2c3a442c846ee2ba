//! Association tables keyed by channel, kept as vectors of pairs with
//! unique keys.

use vstd::prelude::*;

use crate::types::{ChanV, ChannelId};

verus! {

/// There is an entry with key `c`.
pub open spec fn key_idx_exists<X>(s: Seq<(ChanV, X)>, c: ChanV) -> bool {
    exists|k: int| 0 <= k < s.len() && s[k].0 == c
}

/// Index of the entry with key `c` (meaningful when one exists).
pub open spec fn key_idx<X>(s: Seq<(ChanV, X)>, c: ChanV) -> int {
    choose|k: int| 0 <= k < s.len() && s[k].0 == c
}

/// The value stored under `c`, if any.
pub open spec fn tbl_get<X>(s: Seq<(ChanV, X)>, c: ChanV) -> Option<X> {
    if key_idx_exists(s, c) {
        Some(s[key_idx(s, c)].1)
    } else {
        None
    }
}

/// Keys are pairwise distinct.
pub open spec fn keys_unique<X>(s: Seq<(ChanV, X)>) -> bool {
    forall|a: int, b: int| 0 <= a < b < s.len() ==> s[a].0 != s[b].0
}

/// Under key uniqueness, the entry index of `c` is the one where it
/// was seen.
pub proof fn lemma_key_idx_is<X>(s: Seq<(ChanV, X)>, c: ChanV, j: int)
    requires
        keys_unique(s),
        0 <= j < s.len(),
        s[j].0 == c,
    ensures
        key_idx_exists(s, c),
        key_idx(s, c) == j,
        tbl_get(s, c) == Some(s[j].1),
{
    assert(key_idx_exists(s, c));
    let k = key_idx(s, c);
    if k != j {
        if k < j {
            assert(s[k].0 != s[j].0);
        } else {
            assert(s[j].0 != s[k].0);
        }
        assert(false);
    }
}

/// Updating the value at an existing key, or appending a fresh key,
/// leaves every other key's value unchanged.
pub proof fn lemma_tbl_framed<X>(s: Seq<(ChanV, X)>, s2: Seq<(ChanV, X)>, c: ChanV, c2: ChanV)
    requires
        keys_unique(s),
        c2 != c,
        (key_idx_exists(s, c) && s2 == s.update(key_idx(s, c), (c, s2[key_idx(s, c)].1))) || (
        !key_idx_exists(s, c) && s2.len() == s.len() + 1 && s2[s.len() as int].0 == c && forall|
            k: int,
        | 0 <= k < s.len() ==> s2[k] == s[k]),
    ensures
        keys_unique(s2),
        tbl_get(s2, c2) == tbl_get(s, c2),
{
    if key_idx_exists(s, c) {
        let i = key_idx(s, c);
        assert forall|a: int, b: int| 0 <= a < b < s2.len() implies s2[a].0 != s2[b].0 by {
            assert(s[a].0 != s[b].0);
        }
        if key_idx_exists(s, c2) {
            let k = key_idx(s, c2);
            assert(k != i);
            lemma_key_idx_is(s2, c2, k);
        } else {
            if key_idx_exists(s2, c2) {
                let k = key_idx(s2, c2);
                assert(s[k].0 == c2);
            }
        }
    } else {
        assert forall|a: int, b: int| 0 <= a < b < s2.len() implies s2[a].0 != s2[b].0 by {
            if b < s.len() {
                assert(s[a].0 != s[b].0);
            } else {
                if s[a].0 == c {
                    assert(key_idx_exists(s, c));
                }
            }
        }
        if key_idx_exists(s, c2) {
            let k = key_idx(s, c2);
            lemma_key_idx_is(s2, c2, k);
            lemma_key_idx_is(s, c2, k);
        } else {
            if key_idx_exists(s2, c2) {
                let k = key_idx(s2, c2);
                if k < s.len() {
                    assert(s[k].0 == c2);
                }
            }
        }
    }
}

/// The table with `m` appended to the queue under `c`; a fresh key
/// starts a one-element queue at the end.
pub open spec fn tbl_append<M>(s: Seq<(ChanV, Seq<M>)>, c: ChanV, m: M) -> Seq<(ChanV, Seq<M>)> {
    if key_idx_exists(s, c) {
        s.update(key_idx(s, c), (c, s[key_idx(s, c)].1.push(m)))
    } else {
        s.push((c, seq![m]))
    }
}

/// Appending under one key keeps keys unique, grows exactly that
/// key's queue by the one message, and keeps every key either an old
/// key or the appended one.
pub proof fn lemma_tbl_append<M>(s: Seq<(ChanV, Seq<M>)>, c: ChanV, m: M)
    requires
        keys_unique(s),
    ensures
        keys_unique(tbl_append(s, c, m)),
        tbl_get(tbl_append(s, c, m), c) == Some(
            match tbl_get(s, c) {
                Some(q) => q.push(m),
                None => seq![m],
            },
        ),
        forall|c2: ChanV| c2 != c ==> tbl_get(tbl_append(s, c, m), c2) == tbl_get(s, c2),
        forall|k: int|
            0 <= k < tbl_append(s, c, m).len() ==> (k < s.len() && (#[trigger] tbl_append(
                s,
                c,
                m,
            )[k]).0 == s[k].0) || tbl_append(s, c, m)[k].0 == c,
        forall|i: int, kk: int|
            0 <= i < tbl_append(s, c, m).len() && 0 <= kk < tbl_append(s, c, m)[i].1.len() ==> (
            i < s.len() && kk < s[i].1.len() && (#[trigger] tbl_append(s, c, m)[i].1[kk]) == s[
                i
            ].1[kk]) || tbl_append(s, c, m)[i].1[kk] == m,
{
    let out = tbl_append(s, c, m);
    if key_idx_exists(s, c) {
        let i = key_idx(s, c);
        assert forall|a: int, b: int| 0 <= a < b < out.len() implies out[a].0 != out[b].0 by {
            assert(s[a].0 != s[b].0);
        }
        lemma_key_idx_is(out, c, i);
        assert forall|c2: ChanV| c2 != c implies tbl_get(out, c2) == tbl_get(s, c2) by {
            lemma_tbl_framed(s, out, c, c2);
        }
    } else {
        assert forall|a: int, b: int| 0 <= a < b < out.len() implies out[a].0 != out[b].0 by {
            if b < s.len() {
                assert(s[a].0 != s[b].0);
            } else {
                if s[a].0 == c {
                    assert(key_idx_exists(s, c));
                }
            }
        }
        lemma_key_idx_is(out, c, s.len() as int);
        assert forall|c2: ChanV| c2 != c implies tbl_get(out, c2) == tbl_get(s, c2) by {
            lemma_tbl_framed(s, out, c, c2);
        }
    }
}

/// First entry of the table holding the channel, scanning in order.
pub fn tbl_find<V>(v: &Vec<(ChannelId, V)>, c: &ChannelId) -> (r: Option<usize>)
    ensures
        match r {
            Option::Some(i) => i < v@.len() && v@[i as int].0@ == c@ && forall|k: int|
                0 <= k < i ==> v@[k].0@ != c@,
            Option::None => forall|k: int| 0 <= k < v@.len() ==> v@[k].0@ != c@,
        },
{
    let n = v.len();
    let mut i: usize = 0;
    while i < n
        invariant
            0 <= i <= n,
            n == v@.len(),
            forall|k: int| 0 <= k < i ==> v@[k].0@ != c@,
        decreases n - i,
    {
        if crate::types::chan_eq(&v[i].0, c) {
            return Some(i);
        }
        i = i + 1;
    }
    None
}

} // verus!
