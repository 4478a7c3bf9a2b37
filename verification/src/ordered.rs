//! Codecs of the ordered set and the ordered map. Each is written as a
//! vector of its elements is, in increasing order of the keys, and built by
//! inserting what is read in the order in which it stands.
use crate::codec::{Binary, RoundTrip};
use crate::collections::{lemma_map_of_entries, map_of, same_map};
use crate::endian::{le_value, lemma_le_value_bound, lemma_pow256_values};
use crate::sequence::{decode_n, encode_all, lemma_decode_n_fails, model_all, valid_all};
use std::collections::BTreeMap;
use std::collections::BTreeSet;
use vstd::laws_cmp::obeys_cmp;
use vstd::prelude::*;
use vstd::std_specs::btree::{
    axiom_spec_btree_keys_iter, axiom_spec_btree_map_iter, axiom_spec_btree_map_len,
    axiom_spec_btree_set_len, into_iter, into_iter_btree_keys, spec_btree_keys_iter,
    spec_btree_map_iter,
};

verus! {

broadcast use vstd::std_specs::btree::group_btree_axioms;

/// Types that can key an ordered container: the model of such a value is
/// the value itself, and its order is a total order of those values. The
/// machine integers are such keys.
pub trait OrdKey: Binary<Model = Self> + Ord {
    /// Keys are their own models, equal only to themselves, and ordered as
    /// the specification of their comparison says.
    proof fn lemma_ord_key()
        ensures
            obeys_cmp::<Self>(),
            forall|k: Self| #[trigger] k.model() == k,
            forall|a: Self, b: Self| #[trigger] Self::same(a, b) <==> a == b,
    ;
}

impl OrdKey for u8 {
    proof fn lemma_ord_key() {
        broadcast use vstd::laws_cmp::group_laws_cmp;
    }
}

impl OrdKey for u16 {
    proof fn lemma_ord_key() {
        broadcast use vstd::laws_cmp::group_laws_cmp;
    }
}

impl OrdKey for u32 {
    proof fn lemma_ord_key() {
        broadcast use vstd::laws_cmp::group_laws_cmp;
    }
}

impl OrdKey for u64 {
    proof fn lemma_ord_key() {
        broadcast use vstd::laws_cmp::group_laws_cmp;
    }
}

impl OrdKey for u128 {
    proof fn lemma_ord_key() {
        broadcast use vstd::laws_cmp::group_laws_cmp;
    }
}

impl OrdKey for i8 {
    proof fn lemma_ord_key() {
        broadcast use vstd::laws_cmp::group_laws_cmp;
    }
}

impl OrdKey for i16 {
    proof fn lemma_ord_key() {
        broadcast use vstd::laws_cmp::group_laws_cmp;
    }
}

impl OrdKey for i32 {
    proof fn lemma_ord_key() {
        broadcast use vstd::laws_cmp::group_laws_cmp;
    }
}

impl OrdKey for i64 {
    proof fn lemma_ord_key() {
        broadcast use vstd::laws_cmp::group_laws_cmp;
    }
}

impl OrdKey for i128 {
    proof fn lemma_ord_key() {
        broadcast use vstd::laws_cmp::group_laws_cmp;
    }
}

/// The keys of `s` in the order in which it is walked: in increasing order.
pub open spec fn sorted_keys_of<K>(s: &BTreeSet<K>) -> Seq<K> {
    into_iter_btree_keys(spec_btree_keys_iter(s))
}

impl<K: OrdKey> Binary for BTreeSet<K> {
    type Model = Seq<K>;

    /// The keys in increasing order.
    open spec fn model(&self) -> Seq<K> {
        sorted_keys_of(self)
    }

    open spec fn valid(m: Seq<K>) -> bool {
        Vec::<K>::valid(m)
    }

    /// Two runs of keys are the same set when they hold the same keys, in
    /// whatever order and however often.
    open spec fn same(a: Seq<K>, b: Seq<K>) -> bool {
        a.to_set() == b.to_set()
    }

    /// The number of keys in eight bytes, then the keys in increasing
    /// order.
    open spec fn encode(m: Seq<K>) -> Seq<u8> {
        Vec::<K>::encode(m)
    }

    open spec fn decode(bs: Seq<u8>) -> Option<(Seq<K>, int)> {
        Vec::<K>::decode(bs)
    }

    open spec fn min_width() -> nat {
        8
    }

    proof fn lemma_decode_bounds(bs: Seq<u8>) {
        assert(Self::min_width() == 8);
        assert(Vec::<K>::min_width() == 8);
        Vec::<K>::lemma_decode_bounds(bs);
    }

    proof fn lemma_decode_prefix(bs: Seq<u8>, other: Seq<u8>) {
        Vec::<K>::lemma_decode_prefix(bs, other);
    }

    fn parse(bs: &[u8]) -> (r: Option<(Self, &[u8])>) {
        proof {
            Self::lemma_decode_bounds(bs@);
        }
        proof {
            K::lemma_ord_key();
        }
        match u64::parse(bs) {
            Some((n, rest)) => {
                let mut m: BTreeSet<K> = BTreeSet::new();
                let mut cur: &[u8] = rest;
                let mut i: u64 = 0;
                let ghost mut ms: Seq<K> = Seq::empty();
                let ghost mut used: int = 0;
                proof {
                    lemma_pow256_values();
                    lemma_le_value_bound(bs@.take(8));
                    assert(rest@.skip(0) =~= rest@);
                    assert(ms.to_set() =~= Set::<K>::empty());
                }
                while i < n
                    invariant
                        i <= n,
                        rest@ == bs@.skip(8),
                        bs@.len() >= 8,
                        n as nat == le_value(bs@.take(8)),
                        decode_n::<K>(rest@, i as nat) == Some((ms, used)),
                        0 <= used <= rest@.len(),
                        cur@ == rest@.skip(used),
                        m@ == ms.to_set(),
                        forall|k: K| #[trigger] k.model() == k,
                        forall|a: K, b: K| #[trigger] K::same(a, b) <==> a == b,
                    decreases n - i,
                {
                    proof {
                        K::lemma_ord_key();
                        K::lemma_decode_bounds(cur@);
                    }
                    match K::parse(cur) {
                        Some((k, next)) => {
                            proof {
                                let (last, width) = K::decode(cur@).unwrap();
                                assert(rest@.skip(used).skip(width) =~= rest@.skip(used + width));
                                assert(K::same(k.model(), last));
                                ms.lemma_push_to_set_commute(last);
                                ms = ms.push(last);
                                used = used + width;
                            }
                            m.insert(k);
                            cur = next;
                        },
                        None => {
                            proof {
                                lemma_decode_n_fails::<K>(rest@, (i + 1) as nat, n as nat);
                            }
                            return None;
                        },
                    }
                    i = i + 1;
                }
                // The model of a set is the order in which it is walked: walking the
                // finished set brings what is known of that order.
                let _walk = m.iter();
                proof {
                    axiom_spec_btree_keys_iter(&m);
                    assert(bs@.skip(8).skip(used) =~= bs@.skip(8 + used));
                }
                Some((m, cur))
            },
            None => None,
        }
    }

    fn unparse(&self, bs: &mut Vec<u8>) {
        proof {
            K::lemma_ord_key();
            axiom_spec_btree_set_len(self);
            axiom_spec_btree_keys_iter(self);
        }
        let n: u64 = self.len() as u64;
        n.unparse(bs);
        let ghost start = bs@;
        proof {
            assert(sorted_keys_of(self).take(0) =~= Seq::<K>::empty());
            assert(start + Seq::<u8>::empty() =~= start);
        }
        for k in it: self.iter()
            invariant
                it.seq().unref() == sorted_keys_of(self),
                forall|k: K| #[trigger] k.model() == k,
                valid_all::<K>(sorted_keys_of(self).take(it.index() as int)),
                bs@ == start + encode_all::<K>(sorted_keys_of(self).take(it.index() as int)),
        {
            let ghost done = sorted_keys_of(self).take(it.index() as int);
            let ghost next = sorted_keys_of(self).take(it.index() + 1);
            k.unparse(bs);
            proof {
                assert(next.drop_last() =~= done);
                assert(next.last() == *k);
                assert(bs@ =~= start + encode_all::<K>(next));
                assert forall|j: int| 0 <= j < next.len() implies K::valid(#[trigger] next[j]) by {
                    if j < done.len() {
                        assert(next[j] == done[j]);
                    }
                }
            }
        }
        proof {
            assert(sorted_keys_of(self).take(sorted_keys_of(self).len() as int) =~= sorted_keys_of(self));
            assert(bs@ =~= old(bs)@ + Self::encode(self.model()));
        }
    }
}

impl<K: OrdKey + RoundTrip> RoundTrip for BTreeSet<K> {
    proof fn lemma_round_trip(m: Seq<K>, rest: Seq<u8>) {
        Vec::<K>::lemma_round_trip(m, rest);
    }
}

/// The entries of `m` in the order in which it is walked: by increasing key.
pub open spec fn sorted_entries_of<K, V>(m: &BTreeMap<K, V>) -> Seq<(K, V)> {
    into_iter(spec_btree_map_iter(m))
}

impl<K: OrdKey, V: Binary> Binary for BTreeMap<K, V> {
    type Model = Seq<(K, V::Model)>;

    /// The entries by increasing key.
    open spec fn model(&self) -> Seq<(K, V::Model)> {
        model_all::<(K, V)>(sorted_entries_of(self))
    }

    open spec fn valid(m: Seq<(K, V::Model)>) -> bool {
        Vec::<(K, V)>::valid(m)
    }

    open spec fn same(a: Seq<(K, V::Model)>, b: Seq<(K, V::Model)>) -> bool {
        same_map::<K, V>(a, b)
    }

    /// The number of entries in eight bytes, then each key with its value
    /// by increasing key.
    open spec fn encode(m: Seq<(K, V::Model)>) -> Seq<u8> {
        Vec::<(K, V)>::encode(m)
    }

    open spec fn decode(bs: Seq<u8>) -> Option<(Seq<(K, V::Model)>, int)> {
        Vec::<(K, V)>::decode(bs)
    }

    open spec fn min_width() -> nat {
        8
    }

    proof fn lemma_decode_bounds(bs: Seq<u8>) {
        assert(Self::min_width() == 8);
        assert(Vec::<(K, V)>::min_width() == 8);
        Vec::<(K, V)>::lemma_decode_bounds(bs);
    }

    proof fn lemma_decode_prefix(bs: Seq<u8>, other: Seq<u8>) {
        Vec::<(K, V)>::lemma_decode_prefix(bs, other);
    }

    fn parse(bs: &[u8]) -> (r: Option<(Self, &[u8])>) {
        proof {
            Self::lemma_decode_bounds(bs@);
        }
        proof {
            K::lemma_ord_key();
        }
        match u64::parse(bs) {
            Some((n, rest)) => {
                let mut m: BTreeMap<K, V> = BTreeMap::new();
                let mut cur: &[u8] = rest;
                let mut i: u64 = 0;
                let ghost mut ms: Seq<(K, V::Model)> = Seq::empty();
                let ghost mut used: int = 0;
                proof {
                    lemma_pow256_values();
                    lemma_le_value_bound(bs@.take(8));
                    assert(rest@.skip(0) =~= rest@);
                    assert(m@.dom() =~= map_of(ms).dom());
                }
                while i < n
                    invariant
                        i <= n,
                        rest@ == bs@.skip(8),
                        bs@.len() >= 8,
                        n as nat == le_value(bs@.take(8)),
                        decode_n::<(K, V)>(rest@, i as nat) == Some((ms, used)),
                        0 <= used <= rest@.len(),
                        cur@ == rest@.skip(used),
                        m@.dom() =~= map_of(ms).dom(),
                        forall|k: K| #[trigger]
                            m@.dom().contains(k) ==> V::same(m@[k].model(), map_of(ms)[k]),
                        forall|k: K| #[trigger] k.model() == k,
                        forall|a: K, b: K| #[trigger] K::same(a, b) <==> a == b,
                    decreases n - i,
                {
                    proof {
                        K::lemma_ord_key();
                        <(K, V)>::lemma_decode_bounds(cur@);
                    }
                    match <(K, V)>::parse(cur) {
                        Some(((k, v), next)) => {
                            proof {
                                let (last, width) = <(K, V)>::decode(cur@).unwrap();
                                assert(rest@.skip(used).skip(width) =~= rest@.skip(used + width));
                                assert(K::same(k.model(), last.0));
                                assert(ms.push(last).drop_last() =~= ms);
                                ms = ms.push(last);
                                used = used + width;
                            }
                            m.insert(k, v);
                            cur = next;
                        },
                        None => {
                            proof {
                                lemma_decode_n_fails::<(K, V)>(rest@, (i + 1) as nat, n as nat);
                            }
                            return None;
                        },
                    }
                    i = i + 1;
                }
                // The model of a map is the order in which it is walked: walking the
                // finished map brings what is known of that order.
                let _walk = m.iter();
                proof {
                    axiom_spec_btree_map_iter(&m);
                    let e = sorted_entries_of(&m);
                    assert forall|j: int| 0 <= j < e.len() implies m@.contains_key(
                        (#[trigger] e[j]).0,
                    ) && m@[e[j].0] == e[j].1 by {
                        assert(e.to_set().contains(e[j]));
                    }
                    lemma_map_of_entries::<K, V>(e, m@, e.len() as int);
                    let all = model_all::<(K, V)>(e);
                    assert(all.take(e.len() as int) =~= all);
                    assert forall|k: K| #[trigger] m@.dom().contains(k) implies map_of(
                        all,
                    ).dom().contains(k) by {
                        assert(m@.kv_pairs().contains((k, m@[k])));
                        assert(e.to_set().contains((k, m@[k])));
                        let j = choose|j: int| 0 <= j < e.len() && e[j] == (k, m@[k]);
                        assert(e[j].0 == k);
                    }
                    assert(map_of(all).dom() =~= m@.dom());
                    assert(bs@.skip(8).skip(used) =~= bs@.skip(8 + used));
                }
                Some((m, cur))
            },
            None => None,
        }
    }

    fn unparse(&self, bs: &mut Vec<u8>) {
        proof {
            K::lemma_ord_key();
            axiom_spec_btree_map_len(self);
            axiom_spec_btree_map_iter(self);
        }
        let n: u64 = self.len() as u64;
        n.unparse(bs);
        let ghost start = bs@;
        let ghost all = model_all::<(K, V)>(sorted_entries_of(self));
        proof {
            assert(all.take(0) =~= Seq::<(K, V::Model)>::empty());
            assert(start + Seq::<u8>::empty() =~= start);
        }
        for entry in it: self.iter()
            invariant
                it.seq().unref() == sorted_entries_of(self),
                all == model_all::<(K, V)>(sorted_entries_of(self)),
                valid_all::<(K, V)>(all.take(it.index() as int)),
                bs@ == start + encode_all::<(K, V)>(all.take(it.index() as int)),
        {
            let ghost done = all.take(it.index() as int);
            let ghost next = all.take(it.index() + 1);
            let ghost before = bs@;
            entry.0.unparse(bs);
            entry.1.unparse(bs);
            proof {
                assert(next.drop_last() =~= done);
                assert(next.last() == (entry.0.model(), entry.1.model()));
                assert(bs@ =~= before + <(K, V)>::encode(next.last()));
                assert(bs@ =~= start + encode_all::<(K, V)>(next));
                assert forall|j: int| 0 <= j < next.len() implies <(K, V)>::valid(
                    #[trigger] next[j],
                ) by {
                    if j < done.len() {
                        assert(next[j] == done[j]);
                    }
                }
            }
        }
        proof {
            assert(all.take(all.len() as int) =~= all);
            assert(bs@ =~= old(bs)@ + Self::encode(self.model()));
        }
    }
}

impl<K: OrdKey + RoundTrip, V: RoundTrip> RoundTrip for BTreeMap<K, V> {
    proof fn lemma_round_trip(m: Seq<(K, V::Model)>, rest: Seq<u8>) {
        Vec::<(K, V)>::lemma_round_trip(m, rest);
    }
}

} // verus!
