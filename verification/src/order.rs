//! The ascending order of `u16` keys, in which the rules are written and
//! walked.

use vstd::prelude::*;
use std::collections::BTreeMap;
use vstd::std_specs::iter::IteratorSpec;

verus! {

/// The keys of `dom` from `k` upward, in ascending order.
pub open spec fn keys_from(dom: Set<u16>, k: int) -> Seq<u16>
    decreases 65536 - k,
{
    if k < 0 || k > 65535 {
        seq![]
    } else if dom.contains(k as u16) {
        seq![k as u16] + keys_from(dom, k + 1)
    } else {
        keys_from(dom, k + 1)
    }
}

/// All keys of `dom`, in ascending order.
pub open spec fn sorted_keys(dom: Set<u16>) -> Seq<u16> {
    keys_from(dom, 0)
}

/// The keys from `k` upward are ascending, and are exactly those of `dom`
/// that are at least `k`.
pub proof fn lemma_keys_from(dom: Set<u16>, k: int)
    requires
        0 <= k <= 65536,
    ensures
        forall|i: int, j: int|
            0 <= i < j < keys_from(dom, k).len() ==> keys_from(dom, k)[i] < keys_from(dom, k)[j],
        forall|x: u16| #[trigger] keys_from(dom, k).contains(x) <==> (dom.contains(x) && x >= k),
        forall|i: int| 0 <= i < keys_from(dom, k).len() ==> keys_from(dom, k)[i] >= k,
    decreases 65536 - k,
{
    if k <= 65535 {
        lemma_keys_from(dom, k + 1);
        let rest = keys_from(dom, k + 1);
        if dom.contains(k as u16) {
            let s = seq![k as u16] + rest;
            assert forall|i: int, j: int| 0 <= i < j < s.len() implies s[i] < s[j] by {
                if i > 0 {
                    assert(s[i] == rest[i - 1] && s[j] == rest[j - 1]);
                } else {
                    assert(s[j] == rest[j - 1]);
                }
            }
            assert forall|x: u16| #[trigger] s.contains(x) <==> (dom.contains(x) && x >= k) by {
                if s.contains(x) {
                    let i = choose|i: int| 0 <= i < s.len() && s[i] == x;
                    if i > 0 {
                        assert(rest[i - 1] == x);
                        assert(rest.contains(x));
                    }
                }
                if dom.contains(x) && x >= k {
                    if x == k {
                        assert(s[0] == x);
                    } else {
                        assert(rest.contains(x));
                        let i = choose|i: int| 0 <= i < rest.len() && rest[i] == x;
                        assert(s[i + 1] == x);
                    }
                }
            }
            assert forall|i: int| 0 <= i < s.len() implies s[i] >= k by {
                if i > 0 {
                    assert(s[i] == rest[i - 1]);
                }
            }
        } else {
            assert forall|x: u16| #[trigger] rest.contains(x) <==> (dom.contains(x) && x >= k) by {
                if dom.contains(x) && x >= k {
                    assert(x != k);
                }
            }
        }
    }
}

/// An ascending sequence holding exactly the keys of `dom` from `k` upward
/// is the one that `keys_from` gives.
pub proof fn lemma_ascending_is_keys_from(s: Seq<u16>, dom: Set<u16>, k: int)
    requires
        0 <= k <= 65536,
        forall|i: int, j: int| 0 <= i < j < s.len() ==> s[i] < s[j],
        forall|x: u16| #[trigger] s.contains(x) <==> (dom.contains(x) && x >= k),
    ensures
        s == keys_from(dom, k),
    decreases 65536 - k,
{
    if k > 65535 {
        if s.len() > 0 {
            assert(s.contains(s[0]));
        }
        assert(s =~= seq![]);
    } else if dom.contains(k as u16) {
        assert(s.contains(k as u16));
        let i0 = choose|i: int| 0 <= i < s.len() && s[i] == k as u16;
        assert(s.contains(s[0]));
        if i0 > 0 {
            assert(s[0] < s[i0]);
        }
        let t = s.drop_first();
        assert forall|x: u16| #[trigger] t.contains(x) <==> (dom.contains(x) && x >= k + 1) by {
            if t.contains(x) {
                let i = choose|i: int| 0 <= i < t.len() && t[i] == x;
                assert(s[i + 1] == x);
                assert(s[0] < s[i + 1]);
                assert(s.contains(x));
            }
            if dom.contains(x) && x >= k + 1 {
                assert(s.contains(x));
                let i = choose|i: int| 0 <= i < s.len() && s[i] == x;
                assert(i != 0);
                assert(t[i - 1] == x);
            }
        }
        assert forall|i: int, j: int| 0 <= i < j < t.len() implies t[i] < t[j] by {
            assert(s[i + 1] < s[j + 1]);
        }
        lemma_ascending_is_keys_from(t, dom, k + 1);
        assert(s == seq![k as u16] + t);
    } else {
        assert forall|x: u16| #[trigger] s.contains(x) <==> (dom.contains(x) && x >= k + 1) by {
            if s.contains(x) {
                assert(x != k);
            }
        }
        lemma_ascending_is_keys_from(s, dom, k + 1);
    }
}

/// There are as many sorted keys as keys.
pub proof fn lemma_sorted_keys_len(dom: Set<u16>)
    ensures
        sorted_keys(dom).len() == dom.len(),
        dom.finite(),
{
    lemma_keys_from(dom, 0);
    let s = sorted_keys(dom);
    assert(s.to_set() =~= dom) by {
        assert forall|x: u16| s.to_set().contains(x) <==> dom.contains(x) by {
            assert(s.contains(x) <==> (dom.contains(x) && x >= 0));
        }
    }
    assert(s.no_duplicates()) by {
        assert forall|i: int, j: int| 0 <= i < s.len() && 0 <= j < s.len() && i != j implies s[i] != s[j] by {
            if i < j {
                assert(s[i] < s[j]);
            } else {
                assert(s[j] < s[i]);
            }
        }
    }
    s.unique_seq_to_set();
}

/// What the map's walk promises of its keys: they ascend.
proof fn lemma_increasing_keys(s: Seq<u16>)
    requires
        vstd::std_specs::btree::increasing_seq(s),
    ensures
        forall|i: int, j: int| 0 <= i < j < s.len() ==> s[i] < s[j],
{
    assert(vstd::laws_cmp::obeys_cmp::<u16>());
    vstd::std_specs::btree::axiom_increasing_seq_meaning(s);
    assert forall|i: int, j: int| 0 <= i < j < s.len() implies s[i] < s[j] by {
        assert(vstd::std_specs::cmp::OrdSpec::cmp_spec(&s[i], &s[j]) is Less);
    }
}

/// The keys of a map, in ascending order.
pub fn keys_in_order<V>(m: &BTreeMap<u16, V>) -> (ks: Vec<u16>)
    ensures
        ks@ == sorted_keys(m@.dom()),
{
    let ghost all = vstd::std_specs::btree::spec_btree_map_iter(m).remaining();
    let mut ks: Vec<u16> = Vec::new();
    for kv in it: m.iter()
        invariant
            it.seq() == all,
            vstd::std_specs::btree::increasing_seq(all.map_values(|p: (&u16, &V)| *p.0)),
            ks@ == all.take(it.index() as int).map_values(|p: (&u16, &V)| *p.0),
    {
        ks.push(*kv.0);
        assert(all.take(it.index() + 1).map_values(|p: (&u16, &V)| *p.0) =~= all.take(
            it.index() as int,
        ).map_values(|p: (&u16, &V)| *p.0).push(*kv.0));
    }
    proof {
        let s = ks@;
        assert(all.take(all.len() as int) =~= all);
        assert(s =~= all.map_values(|p: (&u16, &V)| *p.0));
        lemma_increasing_keys(s);
        assert forall|x: u16| #[trigger] s.contains(x) <==> (m@.dom().contains(x) && x >= 0) by {
            if m@.dom().contains(x) {
                assert(all.contains((&x, &m@[x])));
                let i = choose|i: int| 0 <= i < all.len() && all[i] == (&x, &m@[x]);
                assert(s[i] == x);
            }
            if s.contains(x) {
                let i = choose|i: int| 0 <= i < s.len() && s[i] == x;
                assert(m@.contains_key(*all[i].0));
            }
        }
        lemma_ascending_is_keys_from(s, m@.dom(), 0);
    }
    ks
}

} // verus!
