//! Keys of a map in ascending order.
//!
//! A book side is keyed so that the smallest key is the best price. These functions name the
//! smallest key of a map and the sequence of all its keys from smallest to largest.
use vstd::prelude::*;

verus! {

/// `k` is the smallest key of `m`.
pub open spec fn is_least<V>(m: Map<u64, V>, k: u64) -> bool {
    &&& m.contains_key(k)
    &&& forall|j: u64| #[trigger] m.contains_key(j) ==> k <= j
}

/// The smallest key of a non-empty map.
pub open spec fn least<V>(m: Map<u64, V>) -> u64 {
    choose|k: u64| is_least(m, k)
}

/// The keys of a finite map from smallest to largest.
pub open spec fn ascending<V>(m: Map<u64, V>) -> Seq<u64>
    decreases m.dom().len(),
    when m.dom().finite()
{
    if m.dom().len() == 0 {
        Seq::empty()
    } else {
        proof {
            lemma_least_exists(m);
        }
        seq![least(m)] + ascending(m.remove(least(m)))
    }
}

/// `s` is strictly increasing.
pub open spec fn strictly_increasing(s: Seq<u64>) -> bool {
    forall|i: int, j: int| 0 <= i < j < s.len() ==> #[trigger] s[i] < #[trigger] s[j]
}

proof fn lemma_least_below<V>(m: Map<u64, V>, k: u64)
    requires
        m.contains_key(k),
    ensures
        exists|l: u64| is_least(m, l),
    decreases k,
{
    if exists|j: u64| m.contains_key(j) && j < k {
        let j = choose|j: u64| m.contains_key(j) && j < k;
        lemma_least_below(m, j);
    } else {
        assert(is_least(m, k));
    }
}

/// A finite map with a key has exactly one smallest key.
pub proof fn lemma_least_exists<V>(m: Map<u64, V>)
    requires
        m.dom().finite(),
        m.dom().len() > 0,
    ensures
        is_least(m, least(m)),
{
    let k = m.dom().choose();
    assert(m.dom().contains(k));
    lemma_least_below(m, k);
}

/// The smallest key is unique.
pub proof fn lemma_least_unique<V>(m: Map<u64, V>, k: u64)
    requires
        is_least(m, k),
    ensures
        least(m) == k,
{
    assert(is_least(m, least(m)));
}

/// `ascending` lists every key once, in strictly increasing order.
pub proof fn lemma_ascending<V>(m: Map<u64, V>)
    requires
        m.dom().finite(),
    ensures
        ascending(m).len() == m.dom().len(),
        strictly_increasing(ascending(m)),
        forall|k: u64| #[trigger] ascending(m).contains(k) <==> m.contains_key(k),
    decreases m.dom().len(),
{
    if m.dom().len() == 0 {
        assert forall|k: u64| #[trigger] ascending(m).contains(k) <==> m.contains_key(k) by {
            if m.contains_key(k) {
                assert(m.dom().contains(k));
            }
        }
    } else {
        lemma_least_exists(m);
        let l = least(m);
        let rest = ascending(m.remove(l));
        lemma_ascending(m.remove(l));
        let s = ascending(m);
        assert(s == seq![l] + rest);
        assert forall|i: int, j: int| 0 <= i < j < s.len() implies #[trigger] s[i] < #[trigger] s[j] by {
            assert(s[j] == rest[j - 1]);
            assert(rest.contains(s[j]));
            if i > 0 {
                assert(s[i] == rest[i - 1]);
            }
        }
        assert forall|k: u64| #[trigger] s.contains(k) <==> m.contains_key(k) by {
            if m.contains_key(k) {
                if k == l {
                    assert(s[0] == k);
                } else {
                    assert(rest.contains(k));
                    let i = choose|i: int| 0 <= i < rest.len() && rest[i] == k;
                    assert(s[i + 1] == k);
                }
            }
            if s.contains(k) {
                let i = choose|i: int| 0 <= i < s.len() && s[i] == k;
                if i > 0 {
                    assert(rest[i - 1] == k);
                    assert(rest.contains(k));
                }
            }
        }
    }
}

/// The strictly increasing sequence of a map's keys is `ascending`.
pub proof fn lemma_ascending_unique<V>(m: Map<u64, V>, s: Seq<u64>)
    requires
        m.dom().finite(),
        strictly_increasing(s),
        forall|k: u64| #[trigger] s.contains(k) <==> m.contains_key(k),
    ensures
        s == ascending(m),
    decreases m.dom().len(),
{
    if m.dom().len() == 0 {
        if s.len() > 0 {
            assert(s.contains(s[0]));
            assert(m.dom().contains(s[0]));
        }
        assert(s =~= ascending(m));
    } else {
        lemma_least_exists(m);
        let l = least(m);
        assert(s.contains(l));
        let i = choose|i: int| 0 <= i < s.len() && s[i] == l;
        if i > 0 {
            assert(s.contains(s[0]));
            assert(s[0] < s[i]);
        }
        let rest = s.drop_first();
        let r = m.remove(l);
        assert forall|k: u64| #[trigger] rest.contains(k) <==> r.contains_key(k) by {
            if rest.contains(k) {
                let j = choose|j: int| 0 <= j < rest.len() && rest[j] == k;
                assert(s[j + 1] == k);
                assert(s.contains(k));
                assert(s[0] < s[j + 1]);
            }
            if r.contains_key(k) {
                assert(s.contains(k));
                let j = choose|j: int| 0 <= j < s.len() && s[j] == k;
                assert(rest[j - 1] == k);
            }
        }
        lemma_ascending_unique(r, rest);
        assert(s =~= ascending(m));
    }
}

/// Maps with the same keys have the same smallest key.
pub proof fn lemma_least_same_keys<V, W>(m: Map<u64, V>, n: Map<u64, W>)
    requires
        m.dom() == n.dom(),
    ensures
        forall|k: u64| is_least(m, k) <==> #[trigger] is_least(n, k),
        is_least(m, least(m)) <==> is_least(n, least(n)),
        is_least(m, least(m)) ==> least(m) == least(n),
{
    assert forall|k: u64| is_least(m, k) <==> #[trigger] is_least(n, k) by {
        assert forall|j: u64| m.contains_key(j) <==> #[trigger] n.contains_key(j) by {
            assert(m.dom().contains(j) <==> n.dom().contains(j));
        }
    }
    if is_least(m, least(m)) {
        assert(is_least(n, least(m)));
        lemma_least_unique(n, least(m));
    }
    if is_least(n, least(n)) {
        assert(is_least(m, least(n)));
        lemma_least_unique(m, least(n));
    }
}

/// Maps with the same keys list them alike.
pub proof fn lemma_ascending_same_keys<V, W>(m: Map<u64, V>, n: Map<u64, W>)
    requires
        m.dom().finite(),
        m.dom() == n.dom(),
    ensures
        ascending(m) == ascending(n),
{
    lemma_ascending(n);
    assert forall|k: u64| #[trigger] ascending(n).contains(k) <==> m.contains_key(k) by {
        assert(m.dom().contains(k) == n.dom().contains(k));
    }
    lemma_ascending_unique(m, ascending(n));
}

} // verus!
