//! The mathematical model behind every map in this crate: an association
//! sequence of `(key, value)` pairs with pairwise-distinct keys, read as a
//! `Map`. The executable map types keep a `Vec` of pairs and state their
//! contracts over `seq_to_map` of its view.

use vstd::prelude::*;

verus! {

/// The map described by an association sequence; later pairs win, so on a
/// sequence with distinct keys every pair is visible.
pub open spec fn seq_to_map<K, T>(s: Seq<(K, T)>) -> Map<K, T>
    decreases s.len(),
{
    if s.len() == 0 {
        Map::empty()
    } else {
        seq_to_map(s.drop_last()).insert(s.last().0, s.last().1)
    }
}

/// No two pairs of the sequence share a key.
pub open spec fn distinct_keys<K, T>(s: Seq<(K, T)>) -> bool {
    forall|i: int, j: int| 0 <= i < j < s.len() ==> (#[trigger] s[i]).0 != (#[trigger] s[j]).0
}

/// Some pair of the sequence carries the key `k`.
pub open spec fn has_key<K, T>(s: Seq<(K, T)>, k: K) -> bool {
    exists|i: int| 0 <= i < s.len() && (#[trigger] s[i]).0 == k
}

/// How an association sequence with distinct keys and the map it describes
/// correspond: same keys, same values, same size.
pub proof fn lemma_assoc_map<K, T>(s: Seq<(K, T)>)
    requires
        distinct_keys(s),
    ensures
        forall|k: K| #[trigger] seq_to_map(s).contains_key(k) <==> has_key(s, k),
        forall|i: int|
            0 <= i < s.len() ==> seq_to_map(s).contains_key((#[trigger] s[i]).0)
                && seq_to_map(s)[s[i].0] == s[i].1,
        seq_to_map(s).dom().finite(),
        seq_to_map(s).dom().len() == s.len(),
    decreases s.len(),
{
    if s.len() == 0 {
        assert(seq_to_map(s) == Map::<K, T>::empty());
        assert(forall|k: K| !has_key(s, k));
    } else {
        let sub = s.drop_last();
        let last = s.last();
        assert(distinct_keys(sub));
        lemma_assoc_map(sub);
        assert forall|k: K| #[trigger] seq_to_map(s).contains_key(k) implies has_key(s, k) by {
            if k == last.0 {
                assert(s[s.len() - 1].0 == k);
            } else {
                assert(seq_to_map(sub).contains_key(k));
                let i = choose|i: int| 0 <= i < sub.len() && (#[trigger] sub[i]).0 == k;
                assert(s[i].0 == k);
            }
        }
        assert forall|k: K| has_key(s, k) implies #[trigger] seq_to_map(s).contains_key(k) by {
            let i = choose|i: int| 0 <= i < s.len() && (#[trigger] s[i]).0 == k;
            if i < s.len() - 1 {
                assert(sub[i].0 == k);
            }
        }
        assert forall|i: int|
            0 <= i < s.len() implies seq_to_map(s).contains_key((#[trigger] s[i]).0)
            && seq_to_map(s)[s[i].0] == s[i].1 by {
            if i < s.len() - 1 {
                assert(sub[i] == s[i]);
                // `last` carries another key, so the final insert keeps s[i].
                assert(s[i].0 != last.0);
            }
        }
        // The inserted key is fresh, so the domain grows by exactly one.
        assert(!seq_to_map(sub).contains_key(last.0)) by {
            if seq_to_map(sub).contains_key(last.0) {
                let i = choose|i: int| 0 <= i < sub.len() && (#[trigger] sub[i]).0 == last.0;
                assert(s[i].0 == s[s.len() - 1].0);
            }
        }
        assert(seq_to_map(s).dom() =~= seq_to_map(sub).dom().insert(last.0));
        vstd::set::axiom_set_insert_len(seq_to_map(sub).dom(), last.0);
    }
}

/// Appending a pair with a fresh key is exactly a map insertion.
pub proof fn lemma_assoc_push_fresh<K, T>(s: Seq<(K, T)>, k: K, v: T)
    requires
        distinct_keys(s),
        !has_key(s, k),
    ensures
        distinct_keys(s.push((k, v))),
        seq_to_map(s.push((k, v))) == seq_to_map(s).insert(k, v),
{
    let s1 = s.push((k, v));
    assert(s1.drop_last() =~= s);
    assert forall|i: int, j: int| 0 <= i < j < s1.len() implies (#[trigger] s1[i]).0 != (
    #[trigger] s1[j]).0 by {
        if j == s1.len() - 1 {
            assert(s[i].0 == s1[i].0);
        }
    }
}

/// Removing the pair at a position is exactly removing its key from the map.
pub proof fn lemma_assoc_remove_at<K, T>(s: Seq<(K, T)>, pos: int)
    requires
        distinct_keys(s),
        0 <= pos < s.len(),
    ensures
        distinct_keys(s.remove(pos)),
        !has_key(s.remove(pos), s[pos].0),
        seq_to_map(s.remove(pos)) == seq_to_map(s).remove(s[pos].0),
{
    let s1 = s.remove(pos);
    let k = s[pos].0;
    assert forall|i: int, j: int| 0 <= i < j < s1.len() implies (#[trigger] s1[i]).0 != (
    #[trigger] s1[j]).0 by {
        let i0: int = if i < pos { i } else { i + 1 };
        let j0: int = if j < pos { j } else { j + 1 };
        assert(s1[i] == s[i0] && s1[j] == s[j0]);
    }
    assert forall|i: int| 0 <= i < s1.len() implies (#[trigger] s1[i]).0 != k by {
        let i0: int = if i < pos { i } else { i + 1 };
        assert(s1[i] == s[i0] && i0 != pos);
    }
    lemma_assoc_map(s);
    lemma_assoc_map(s1);
    assert forall|x: K| #[trigger] seq_to_map(s1).contains_key(x) implies seq_to_map(
        s,
    ).remove(k).contains_key(x) && seq_to_map(s1)[x] == seq_to_map(s).remove(k)[x] by {
        let i = choose|i: int| 0 <= i < s1.len() && (#[trigger] s1[i]).0 == x;
        let i0: int = if i < pos { i } else { i + 1 };
        assert(s[i0] == s1[i]);
        assert(seq_to_map(s)[x] == s[i0].1);
    }
    assert forall|x: K| seq_to_map(s).remove(k).contains_key(x) implies #[trigger] seq_to_map(
        s1,
    ).contains_key(x) by {
        let i0 = choose|i0: int| 0 <= i0 < s.len() && (#[trigger] s[i0]).0 == x;
        let i: int = if i0 < pos { i0 } else { i0 - 1 };
        assert(i0 != pos);
        assert(s1[i] == s[i0]);
    }
    assert(seq_to_map(s1) =~= seq_to_map(s).remove(k));
}

} // verus!
