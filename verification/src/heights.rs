//! The heights at which a map of checkpoints holds something.

use crate::model;
use std::collections::BTreeMap;
use vstd::prelude::*;
use vstd::std_specs::cmp::OrdSpec;
use vstd::std_specs::iter::IteratorSpec;

verus! {

/// `s` holds the members of `set`, each once, in ascending order.
pub open spec fn lists(s: Seq<u32>, set: Set<u32>) -> bool {
    &&& forall|i: int, j: int| #![trigger s[i], s[j]] 0 <= i < j < s.len() ==> s[i] < s[j]
    &&& forall|h: u32| #[trigger] s.contains(h) <==> set.contains(h)
}

/// The heights of a map, in ascending order.
pub fn heights<V>(m: &BTreeMap<u32, V>) -> (r: Vec<u32>)
    ensures
        lists(r@, m@.dom()),
{
    broadcast use vstd::laws_cmp::group_laws_cmp;

    let mut r: Vec<u32> = Vec::new();
    let ghost keys = m.keys().remaining();
    for h in it: m.keys()
        invariant
            it.seq() == keys,
            r@ == keys.take(it.index()).unref(),
    {
        assert(keys.take(it.index() + 1).unref() =~= keys.take(it.index()).unref().push(*h));
        r.push(*h);
    }
    proof {
        assert(r@ =~= keys.unref());
        assert(vstd::laws_cmp::obeys_cmp::<u32>());
        assert(vstd::laws_cmp::obeys_cmp::<&u32>());
        assert(vstd::std_specs::btree::increasing_seq(keys));
        assert forall|i: int, j: int| #![trigger r@[i], r@[j]] 0 <= i < j < r@.len() implies r@[i] < r@[j] by {
            assert(OrdSpec::cmp_spec(&keys[i], &keys[j]) is Less);
        }
        assert forall|h: u32| #[trigger] r@.contains(h) <==> m@.contains_key(h) by {
            assert(r@.to_set().contains(h) <==> m@.contains_key(h));
        }
    }
    r
}

/// Where a map is split at the last height that pruning drops, one part is the pruned map and the
/// other is what was dropped.
pub proof fn lemma_split<V>(
    s: Seq<u32>,
    m: Map<u32, V>,
    limit: usize,
    kept: Map<u32, V>,
    dropped: Map<u32, V>,
)
    requires
        lists(s, m.dom()),
        limit < s.len(),
        forall|h: u32| #[trigger]
            dropped.contains_key(h) <==> s.contains(h) && h <= s[s.len() - 1 - limit],
        forall|h: u32| #[trigger] dropped.contains_key(h) ==> dropped[h] == m[h],
        forall|h: u32| #[trigger]
            kept.contains_key(h) <==> m.contains_key(h) && !dropped.contains_key(h),
        forall|h: u32| #[trigger] kept.contains_key(h) ==> kept[h] == m[h],
    ensures
        kept == model::prune(m, Some(limit)),
        dropped == m.remove_keys(kept.dom()),
{
    let last = s.len() - 1 - limit;
    let pruned = model::prune(m, Some(limit));
    assert forall|h: u32| #[trigger] pruned.contains_key(h) <==> kept.contains_key(h) by {
        if m.dom().contains(h) {
            assert(s.contains(h));
            let i = choose|i: int| 0 <= i < s.len() && s[i] == h;
            lemma_above(s, m, i);
            if i < last {
                assert(s[i] < s[last]);
            } else if last < i {
                assert(s[last] < s[i]);
            }
        }
    }
    assert(kept =~= pruned);
    assert forall|h: u32| #[trigger] dropped.contains_key(h) implies m.contains_key(h) by {
        assert(s.contains(h) <==> m.dom().contains(h));
    }
    assert(dropped =~= m.remove_keys(kept.dom()));
}

/// The next longer prefix holds one member more.
pub proof fn lemma_take_next(s: Seq<u32>, k: int, h: u32)
    requires
        0 <= k < s.len(),
    ensures
        s.take(k + 1).contains(h) <==> s.take(k).contains(h) || h == s[k],
{
    let longer = s.take(k + 1);
    assert(longer =~= s.take(k).push(s[k]));
    assert(longer[k] == s[k]);
    if s.take(k).contains(h) {
        let i = choose|i: int| 0 <= i < k && s.take(k)[i] == h;
        assert(longer[i] == h);
    }
}

/// The last height of a map.
pub fn last_height<V>(m: &BTreeMap<u32, V>) -> (r: Option<u32>)
    ensures
        r == model::highest(m@.dom()),
{
    let hs: Vec<u32> = heights(m);
    if hs.len() == 0 {
        proof {
            model::lemma_highest_meaning(m@.dom());
            if let Some(h) = model::highest(m@.dom()) {
                assert(hs@.contains(h));
            }
        }
        None
    } else {
        let last: u32 = hs[hs.len() - 1];
        proof {
            let s = hs@;
            assert(s.contains(last));
            assert forall|h: u32| #[trigger] m@.dom().contains(h) implies h <= last by {
                assert(s.contains(h));
                let i = choose|i: int| 0 <= i < s.len() && s[i] == h;
                if i < s.len() - 1 {
                    assert(s[i] < s[s.len() - 1]);
                }
            }
            model::lemma_highest(m@.dom(), last);
        }
        Some(last)
    }
}

/// The first height of a map that is not below `lb`.
pub fn first_height_from<V>(m: &BTreeMap<u32, V>, lb: u32) -> (r: Option<u32>)
    ensures
        r == model::lowest(m@.dom().filter(|h: u32| h >= lb)),
{
    let hs: Vec<u32> = heights(m);
    let ghost candidates = m@.dom().filter(|h: u32| h >= lb);
    let ghost s = hs@;
    for k in 0..hs.len()
        invariant
            hs@ == s,
            lists(s, m@.dom()),
            candidates == m@.dom().filter(|h: u32| h >= lb),
            forall|i: int| 0 <= i < k ==> #[trigger] s[i] < lb,
    {
        let h: u32 = hs[k];
        if h >= lb {
            proof {
                assert(s.contains(h));
                assert forall|x: u32| #[trigger] candidates.contains(x) implies h <= x by {
                    assert(s.contains(x));
                    let i = choose|i: int| 0 <= i < s.len() && s[i] == x;
                    if i > k {
                        assert(s[k as int] < s[i]);
                    }
                }
                model::lemma_lowest(candidates, h);
            }
            return Some(h);
        }
    }
    proof {
        model::lemma_lowest_meaning(candidates);
        if let Some(h) = model::lowest(candidates) {
            assert(s.contains(h));
            let i = choose|i: int| 0 <= i < s.len() && s[i] == h;
            assert(s[i] < lb);
        }
    }
    None
}

/// Of a listed map, the heights above a listed one are those listed after it.
pub proof fn lemma_above<V>(s: Seq<u32>, m: Map<u32, V>, i: int)
    requires
        lists(s, m.dom()),
        0 <= i < s.len(),
    ensures
        model::above(m, s[i]).len() == s.len() - 1 - i,
{
    let rest = s.skip(i + 1);
    assert(rest.no_duplicates()) by {
        assert forall|a: int, b: int| 0 <= a < rest.len() && 0 <= b < rest.len() && a
            != b implies rest[a] != rest[b] by {
            if a < b {
                assert(s[a + i + 1] < s[b + i + 1]);
            } else {
                assert(s[b + i + 1] < s[a + i + 1]);
            }
        }
    }
    rest.unique_seq_to_set();
    assert forall|h: u32| #[trigger]
        rest.to_set().contains(h) <==> model::above(m, s[i]).contains(h) by {
        if rest.contains(h) {
            let a = choose|a: int| 0 <= a < rest.len() && rest[a] == h;
            assert(s[a + i + 1] == h);
            assert(s.contains(h));
            assert(s[i] < s[a + i + 1]);
        }
        if model::above(m, s[i]).contains(h) {
            assert(s.contains(h));
            let a = choose|a: int| 0 <= a < s.len() && s[a] == h;
            if a < i {
                assert(s[a] < s[i]);
            }
            assert(rest[a - i - 1] == h);
        }
    }
    assert(rest.to_set() =~= model::above(m, s[i]));
}

/// A list of a finite set is as long as the set is large.
pub proof fn lemma_lists_len(s: Seq<u32>, set: Set<u32>)
    requires
        lists(s, set),
    ensures
        set.finite(),
        set.len() == s.len(),
{
    assert(s.no_duplicates()) by {
        assert forall|a: int, b: int| 0 <= a < s.len() && 0 <= b < s.len() && a != b implies s[a]
            != s[b] by {
            if a < b {
                assert(s[a] < s[b]);
            } else {
                assert(s[b] < s[a]);
            }
        }
    }
    s.unique_seq_to_set();
    assert(s.to_set() =~= set) by {
        assert forall|h: u32| #[trigger] s.to_set().contains(h) <==> set.contains(h) by {
            assert(s.contains(h) <==> set.contains(h));
        }
    }
}

} // verus!
