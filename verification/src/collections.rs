//! Codecs of the containers of variable length besides the vector. Each is
//! written as a vector of its elements is, in the order in which the
//! container is walked, and built by inserting what is read in that order.
use crate::codec::{Binary, RoundTrip};
use crate::endian::{le_value, lemma_le_value_bound, lemma_pow256_values};
use crate::sequence::{
    decode_n, encode_all, lemma_decode_n_fails, model_all, same_all, valid_all,
};
use std::collections::HashMap;
use std::collections::HashSet;
use std::collections::VecDeque;
use std::hash::Hash;
use vstd::prelude::*;
use vstd::std_specs::hash::{
    axiom_spec_hash_keys_iter, axiom_spec_hash_map_iter, axiom_spec_hash_map_len,
    axiom_spec_hash_set_len, into_iter, into_iter_hash_keys, obeys_key_model,
    spec_hash_keys_iter, spec_hash_map_iter,
};

verus! {

broadcast use vstd::std_specs::hash::group_hash_axioms;

impl<K: Binary> Binary for VecDeque<K> {
    type Model = Seq<K::Model>;

    open spec fn model(&self) -> Seq<K::Model> {
        model_all(self@)
    }

    open spec fn valid(m: Seq<K::Model>) -> bool {
        Vec::<K>::valid(m)
    }

    open spec fn same(a: Seq<K::Model>, b: Seq<K::Model>) -> bool {
        same_all::<K>(a, b)
    }

    /// The number of elements in eight bytes, then the elements from front
    /// to back.
    open spec fn encode(m: Seq<K::Model>) -> Seq<u8> {
        Vec::<K>::encode(m)
    }

    open spec fn decode(bs: Seq<u8>) -> Option<(Seq<K::Model>, int)> {
        Vec::<K>::decode(bs)
    }

    open spec fn min_width() -> nat {
        8
    }

    proof fn lemma_decode_bounds(bs: Seq<u8>) {
        assert(Self::min_width() == 8);
        assert(Vec::<K>::min_width() == 8);
        Vec::<K>::lemma_decode_bounds(bs);
    }

    proof fn lemma_decode_prefix(bs: Seq<u8>, other: Seq<u8>) {
        Vec::<K>::lemma_decode_prefix(bs, other);
    }

    fn parse(bs: &[u8]) -> (r: Option<(Self, &[u8])>) {
        proof {
            Self::lemma_decode_bounds(bs@);
        }
        match u64::parse(bs) {
            Some((n, rest)) => {
                let mut m: VecDeque<K> = VecDeque::new();
                let mut cur: &[u8] = rest;
                let mut i: u64 = 0;
                let ghost mut ms: Seq<K::Model> = Seq::empty();
                let ghost mut used: int = 0;
                proof {
                    lemma_pow256_values();
                    lemma_le_value_bound(bs@.take(8));
                    assert(rest@.skip(0) =~= rest@);
                }
                while i < n
                    invariant
                        i <= n,
                        rest@ == bs@.skip(8),
                        bs@.len() >= 8,
                        n as nat == le_value(bs@.take(8)),
                        decode_n::<K>(rest@, i as nat) == Some((ms, used)),
                        0 <= used <= rest@.len(),
                        cur@ == rest@.skip(used),
                        same_all::<K>(model_all(m@), ms),
                    decreases n - i,
                {
                    proof {
                        K::lemma_decode_bounds(cur@);
                    }
                    match K::parse(cur) {
                        Some((k, next)) => {
                            let ghost front = m@;
                            let ghost front_ms = ms;
                            proof {
                                let (last, width) = K::decode(cur@).unwrap();
                                assert(rest@.skip(used).skip(width) =~= rest@.skip(used + width));
                                ms = ms.push(last);
                                used = used + width;
                            }
                            m.push_back(k);
                            cur = next;
                            proof {
                                assert forall|j: int| 0 <= j < m@.len() implies K::same(
                                    #[trigger] model_all(m@)[j],
                                    ms[j],
                                ) by {
                                    if j < front.len() {
                                        assert(K::same(model_all(front)[j], front_ms[j]));
                                    }
                                }
                            }
                        },
                        None => {
                            proof {
                                lemma_decode_n_fails::<K>(rest@, (i + 1) as nat, n as nat);
                            }
                            return None;
                        },
                    }
                    i = i + 1;
                }
                proof {
                    assert(bs@.skip(8).skip(used) =~= bs@.skip(8 + used));
                }
                Some((m, cur))
            },
            None => None,
        }
    }

    fn unparse(&self, bs: &mut Vec<u8>) {
        let n: u64 = self.len() as u64;
        n.unparse(bs);
        let ghost start = bs@;
        let mut i: usize = 0;
        proof {
            assert(model_all(self@).take(0) =~= Seq::<K::Model>::empty());
            assert(start + Seq::<u8>::empty() =~= start);
        }
        while i < self.len()
            invariant
                i <= self@.len(),
                valid_all::<K>(model_all(self@).take(i as int)),
                bs@ == start + encode_all::<K>(model_all(self@).take(i as int)),
            decreases self@.len() - i,
        {
            let ghost done = model_all(self@).take(i as int);
            let ghost next = model_all(self@).take(i + 1);
            self[i].unparse(bs);
            proof {
                assert(next.drop_last() =~= done);
                assert(next.last() == self@[i as int].model());
                assert(bs@ =~= start + encode_all::<K>(next));
                assert forall|j: int| 0 <= j < next.len() implies K::valid(#[trigger] next[j]) by {
                    if j < i {
                        assert(next[j] == done[j]);
                    }
                }
            }
            i = i + 1;
        }
        proof {
            assert(model_all(self@).take(i as int) =~= model_all(self@));
            assert(bs@ =~= old(bs)@ + Self::encode(self.model()));
        }
    }
}

impl<K: RoundTrip> RoundTrip for VecDeque<K> {
    proof fn lemma_round_trip(m: Seq<K::Model>, rest: Seq<u8>) {
        Vec::<K>::lemma_round_trip(m, rest);
    }
}

/// Types that can key a hashed container: the model of such a value is the
/// value itself, and its equality and its hash go by that value. The machine
/// integers and `bool` are such keys.
pub trait HashKey: Binary<Model = Self> + Hash + Eq {
    /// Keys are their own models, equal only to themselves, and hashed by
    /// what they are.
    proof fn lemma_hash_key()
        ensures
            obeys_key_model::<Self>(),
            forall|k: Self| #[trigger] k.model() == k,
            forall|a: Self, b: Self| #[trigger] Self::same(a, b) <==> a == b,
    ;
}

impl HashKey for u8 {
    proof fn lemma_hash_key() {
    }
}

impl HashKey for u16 {
    proof fn lemma_hash_key() {
    }
}

impl HashKey for u32 {
    proof fn lemma_hash_key() {
    }
}

impl HashKey for u64 {
    proof fn lemma_hash_key() {
    }
}

impl HashKey for u128 {
    proof fn lemma_hash_key() {
    }
}

impl HashKey for i8 {
    proof fn lemma_hash_key() {
    }
}

impl HashKey for i16 {
    proof fn lemma_hash_key() {
    }
}

impl HashKey for i32 {
    proof fn lemma_hash_key() {
    }
}

impl HashKey for i64 {
    proof fn lemma_hash_key() {
    }
}

impl HashKey for i128 {
    proof fn lemma_hash_key() {
    }
}

impl HashKey for bool {
    proof fn lemma_hash_key() {
    }
}

/// The keys of `s` in the order in which it is walked.
pub open spec fn keys_of<K>(s: &HashSet<K>) -> Seq<K> {
    into_iter_hash_keys(spec_hash_keys_iter(s))
}

impl<K: HashKey> Binary for HashSet<K> {
    type Model = Seq<K>;

    /// The keys in the order in which the set is walked.
    open spec fn model(&self) -> Seq<K> {
        keys_of(self)
    }

    open spec fn valid(m: Seq<K>) -> bool {
        Vec::<K>::valid(m)
    }

    /// Two runs of keys are the same set when they hold the same keys, in
    /// whatever order and however often.
    open spec fn same(a: Seq<K>, b: Seq<K>) -> bool {
        a.to_set() == b.to_set()
    }

    /// The number of keys in eight bytes, then the keys in the order in
    /// which the set is walked.
    open spec fn encode(m: Seq<K>) -> Seq<u8> {
        Vec::<K>::encode(m)
    }

    open spec fn decode(bs: Seq<u8>) -> Option<(Seq<K>, int)> {
        Vec::<K>::decode(bs)
    }

    open spec fn min_width() -> nat {
        8
    }

    proof fn lemma_decode_bounds(bs: Seq<u8>) {
        assert(Self::min_width() == 8);
        assert(Vec::<K>::min_width() == 8);
        Vec::<K>::lemma_decode_bounds(bs);
    }

    proof fn lemma_decode_prefix(bs: Seq<u8>, other: Seq<u8>) {
        Vec::<K>::lemma_decode_prefix(bs, other);
    }

    fn parse(bs: &[u8]) -> (r: Option<(Self, &[u8])>) {
        proof {
            Self::lemma_decode_bounds(bs@);
        }
        proof {
            K::lemma_hash_key();
        }
        match u64::parse(bs) {
            Some((n, rest)) => {
                let mut m: HashSet<K> = HashSet::new();
                let mut cur: &[u8] = rest;
                let mut i: u64 = 0;
                let ghost mut ms: Seq<K> = Seq::empty();
                let ghost mut used: int = 0;
                proof {
                    lemma_pow256_values();
                    lemma_le_value_bound(bs@.take(8));
                    assert(rest@.skip(0) =~= rest@);
                    assert(ms.to_set() =~= Set::<K>::empty());
                }
                while i < n
                    invariant
                        i <= n,
                        rest@ == bs@.skip(8),
                        bs@.len() >= 8,
                        n as nat == le_value(bs@.take(8)),
                        decode_n::<K>(rest@, i as nat) == Some((ms, used)),
                        0 <= used <= rest@.len(),
                        cur@ == rest@.skip(used),
                        m@ == ms.to_set(),
                        obeys_key_model::<K>(),
                        forall|k: K| #[trigger] k.model() == k,
                        forall|a: K, b: K| #[trigger] K::same(a, b) <==> a == b,
                    decreases n - i,
                {
                    proof {
                        K::lemma_decode_bounds(cur@);
                    }
                    match K::parse(cur) {
                        Some((k, next)) => {
                            proof {
                                let (last, width) = K::decode(cur@).unwrap();
                                assert(rest@.skip(used).skip(width) =~= rest@.skip(used + width));
                                assert(K::same(k.model(), last));
                                ms.lemma_push_to_set_commute(last);
                                ms = ms.push(last);
                                used = used + width;
                            }
                            m.insert(k);
                            cur = next;
                        },
                        None => {
                            proof {
                                lemma_decode_n_fails::<K>(rest@, (i + 1) as nat, n as nat);
                            }
                            return None;
                        },
                    }
                    i = i + 1;
                }
                // The model of a set is the order in which it is walked: walking the
                // finished set brings what is known of that order.
                let _walk = m.iter();
                proof {
                    axiom_spec_hash_keys_iter(&m);
                    assert(bs@.skip(8).skip(used) =~= bs@.skip(8 + used));
                }
                Some((m, cur))
            },
            None => None,
        }
    }

    fn unparse(&self, bs: &mut Vec<u8>) {
        proof {
            K::lemma_hash_key();
            axiom_spec_hash_set_len(self);
            axiom_spec_hash_keys_iter(self);
        }
        let n: u64 = self.len() as u64;
        n.unparse(bs);
        let ghost start = bs@;
        proof {
            assert(keys_of(self).take(0) =~= Seq::<K>::empty());
            assert(start + Seq::<u8>::empty() =~= start);
        }
        for k in it: self.iter()
            invariant
                it.seq().unref() == keys_of(self),
                forall|k: K| #[trigger] k.model() == k,
                valid_all::<K>(keys_of(self).take(it.index() as int)),
                bs@ == start + encode_all::<K>(keys_of(self).take(it.index() as int)),
        {
            let ghost done = keys_of(self).take(it.index() as int);
            let ghost next = keys_of(self).take(it.index() + 1);
            k.unparse(bs);
            proof {
                assert(next.drop_last() =~= done);
                assert(next.last() == *k);
                assert(bs@ =~= start + encode_all::<K>(next));
                assert forall|j: int| 0 <= j < next.len() implies K::valid(#[trigger] next[j]) by {
                    if j < done.len() {
                        assert(next[j] == done[j]);
                    }
                }
            }
        }
        proof {
            assert(keys_of(self).take(keys_of(self).len() as int) =~= keys_of(self));
            assert(bs@ =~= old(bs)@ + Self::encode(self.model()));
        }
    }
}

impl<K: HashKey + RoundTrip> RoundTrip for HashSet<K> {
    proof fn lemma_round_trip(m: Seq<K>, rest: Seq<u8>) {
        Vec::<K>::lemma_round_trip(m, rest);
    }
}

/// The map that is built by inserting the entries of `s` in order: of two
/// entries with one key the later one stays.
pub open spec fn map_of<K, M>(s: Seq<(K, M)>) -> Map<K, M>
    decreases s.len(),
{
    if s.len() == 0 {
        Map::empty()
    } else {
        map_of(s.drop_last()).insert(s.last().0, s.last().1)
    }
}

/// Whether inserting the entries of `a` in order builds the same map as
/// inserting those of `b`: the same keys, each with the same value.
pub open spec fn same_map<K, V: Binary>(a: Seq<(K, V::Model)>, b: Seq<(K, V::Model)>) -> bool {
    &&& map_of(a).dom() =~= map_of(b).dom()
    &&& forall|k: K| #[trigger]
        map_of(a).dom().contains(k) ==> V::same(map_of(a)[k], map_of(b)[k])
}

/// The models of the entries of a map, in whatever order and however often
/// they are listed, build the map of the models.
pub proof fn lemma_map_of_entries<K: Binary<Model = K>, V: Binary>(
    e: Seq<(K, V)>,
    m: Map<K, V>,
    upto: int,
)
    requires
        0 <= upto <= e.len(),
        forall|k: K| #[trigger] k.model() == k,
        forall|i: int| 0 <= i < e.len() ==> m.contains_key((#[trigger] e[i]).0) && m[e[i].0] == e[i].1,
    ensures
        forall|k: K| #[trigger]
            map_of(model_all::<(K, V)>(e).take(upto)).dom().contains(k) <==> exists|i: int|
                0 <= i < upto && (#[trigger] e[i]).0 == k,
        forall|k: K| #[trigger]
            map_of(model_all::<(K, V)>(e).take(upto)).dom().contains(k) ==> map_of(
                model_all::<(K, V)>(e).take(upto),
            )[k] == m[k].model(),
    decreases upto,
{
    let all = model_all::<(K, V)>(e);
    if upto > 0 {
        lemma_map_of_entries::<K, V>(e, m, upto - 1);
        assert(all.take(upto).drop_last() =~= all.take(upto - 1));
        assert(all.take(upto).last() == e[upto - 1].model());
        let front = map_of(all.take(upto - 1));
        let whole = map_of(all.take(upto));
        assert(whole == front.insert(e[upto - 1].0, e[upto - 1].1.model()));
        assert forall|k: K| #[trigger] whole.dom().contains(k) <==> exists|i: int|
            0 <= i < upto && (#[trigger] e[i]).0 == k by {
            if whole.dom().contains(k) {
                if k == e[upto - 1].0 {
                } else {
                    assert(front.dom().contains(k));
                    let i = choose|i: int| 0 <= i < upto - 1 && (#[trigger] e[i]).0 == k;
                    assert(0 <= i < upto && e[i].0 == k);
                }
            }
            if exists|i: int| 0 <= i < upto && (#[trigger] e[i]).0 == k {
                let i = choose|i: int| 0 <= i < upto && (#[trigger] e[i]).0 == k;
                if i < upto - 1 {
                    assert(front.dom().contains(k));
                }
            }
        }
    } else {
        assert(all.take(0) =~= Seq::<(K, V::Model)>::empty());
    }
}

/// The entries of `m` in the order in which it is walked.
pub open spec fn entries_of<K, V>(m: &HashMap<K, V>) -> Seq<(K, V)> {
    into_iter(spec_hash_map_iter(m))
}

impl<K: HashKey, V: Binary> Binary for HashMap<K, V> {
    type Model = Seq<(K, V::Model)>;

    /// The entries in the order in which the map is walked.
    open spec fn model(&self) -> Seq<(K, V::Model)> {
        model_all::<(K, V)>(entries_of(self))
    }

    open spec fn valid(m: Seq<(K, V::Model)>) -> bool {
        Vec::<(K, V)>::valid(m)
    }

    open spec fn same(a: Seq<(K, V::Model)>, b: Seq<(K, V::Model)>) -> bool {
        same_map::<K, V>(a, b)
    }

    /// The number of entries in eight bytes, then each key with its value
    /// in the order in which the map is walked.
    open spec fn encode(m: Seq<(K, V::Model)>) -> Seq<u8> {
        Vec::<(K, V)>::encode(m)
    }

    open spec fn decode(bs: Seq<u8>) -> Option<(Seq<(K, V::Model)>, int)> {
        Vec::<(K, V)>::decode(bs)
    }

    open spec fn min_width() -> nat {
        8
    }

    proof fn lemma_decode_bounds(bs: Seq<u8>) {
        assert(Self::min_width() == 8);
        assert(Vec::<(K, V)>::min_width() == 8);
        Vec::<(K, V)>::lemma_decode_bounds(bs);
    }

    proof fn lemma_decode_prefix(bs: Seq<u8>, other: Seq<u8>) {
        Vec::<(K, V)>::lemma_decode_prefix(bs, other);
    }

    fn parse(bs: &[u8]) -> (r: Option<(Self, &[u8])>) {
        proof {
            Self::lemma_decode_bounds(bs@);
        }
        proof {
            K::lemma_hash_key();
        }
        match u64::parse(bs) {
            Some((n, rest)) => {
                let mut m: HashMap<K, V> = HashMap::new();
                let mut cur: &[u8] = rest;
                let mut i: u64 = 0;
                let ghost mut ms: Seq<(K, V::Model)> = Seq::empty();
                let ghost mut used: int = 0;
                proof {
                    lemma_pow256_values();
                    lemma_le_value_bound(bs@.take(8));
                    assert(rest@.skip(0) =~= rest@);
                    assert(m@.dom() =~= map_of(ms).dom());
                }
                while i < n
                    invariant
                        i <= n,
                        rest@ == bs@.skip(8),
                        bs@.len() >= 8,
                        n as nat == le_value(bs@.take(8)),
                        decode_n::<(K, V)>(rest@, i as nat) == Some((ms, used)),
                        0 <= used <= rest@.len(),
                        cur@ == rest@.skip(used),
                        m@.dom() =~= map_of(ms).dom(),
                        forall|k: K| #[trigger]
                            m@.dom().contains(k) ==> V::same(m@[k].model(), map_of(ms)[k]),
                        obeys_key_model::<K>(),
                        forall|k: K| #[trigger] k.model() == k,
                        forall|a: K, b: K| #[trigger] K::same(a, b) <==> a == b,
                    decreases n - i,
                {
                    proof {
                        <(K, V)>::lemma_decode_bounds(cur@);
                    }
                    match <(K, V)>::parse(cur) {
                        Some(((k, v), next)) => {
                            proof {
                                let (last, width) = <(K, V)>::decode(cur@).unwrap();
                                assert(rest@.skip(used).skip(width) =~= rest@.skip(used + width));
                                assert(K::same(k.model(), last.0));
                                assert(ms.push(last).drop_last() =~= ms);
                                ms = ms.push(last);
                                used = used + width;
                            }
                            m.insert(k, v);
                            cur = next;
                        },
                        None => {
                            proof {
                                lemma_decode_n_fails::<(K, V)>(rest@, (i + 1) as nat, n as nat);
                            }
                            return None;
                        },
                    }
                    i = i + 1;
                }
                // The model of a map is the order in which it is walked: walking the
                // finished map brings what is known of that order.
                let _walk = m.iter();
                proof {
                    axiom_spec_hash_map_iter(&m);
                    let e = entries_of(&m);
                    assert forall|j: int| 0 <= j < e.len() implies m@.contains_key(
                        (#[trigger] e[j]).0,
                    ) && m@[e[j].0] == e[j].1 by {
                        assert(e.to_set().contains(e[j]));
                    }
                    lemma_map_of_entries::<K, V>(e, m@, e.len() as int);
                    let all = model_all::<(K, V)>(e);
                    assert(all.take(e.len() as int) =~= all);
                    assert forall|k: K| #[trigger] m@.dom().contains(k) implies map_of(
                        all,
                    ).dom().contains(k) by {
                        assert(m@.kv_pairs().contains((k, m@[k])));
                        assert(e.to_set().contains((k, m@[k])));
                        let j = choose|j: int| 0 <= j < e.len() && e[j] == (k, m@[k]);
                        assert(e[j].0 == k);
                    }
                    assert(map_of(all).dom() =~= m@.dom());
                    assert(bs@.skip(8).skip(used) =~= bs@.skip(8 + used));
                }
                Some((m, cur))
            },
            None => None,
        }
    }

    fn unparse(&self, bs: &mut Vec<u8>) {
        proof {
            K::lemma_hash_key();
            axiom_spec_hash_map_len(self);
            axiom_spec_hash_map_iter(self);
        }
        let n: u64 = self.len() as u64;
        n.unparse(bs);
        let ghost start = bs@;
        let ghost all = model_all::<(K, V)>(entries_of(self));
        proof {
            assert(all.take(0) =~= Seq::<(K, V::Model)>::empty());
            assert(start + Seq::<u8>::empty() =~= start);
        }
        for entry in it: self.iter()
            invariant
                it.seq().unref() == entries_of(self),
                all == model_all::<(K, V)>(entries_of(self)),
                valid_all::<(K, V)>(all.take(it.index() as int)),
                bs@ == start + encode_all::<(K, V)>(all.take(it.index() as int)),
        {
            let ghost done = all.take(it.index() as int);
            let ghost next = all.take(it.index() + 1);
            let ghost before = bs@;
            entry.0.unparse(bs);
            entry.1.unparse(bs);
            proof {
                assert(next.drop_last() =~= done);
                assert(next.last() == (entry.0.model(), entry.1.model()));
                assert(bs@ =~= before + <(K, V)>::encode(next.last()));
                assert(bs@ =~= start + encode_all::<(K, V)>(next));
                assert forall|j: int| 0 <= j < next.len() implies <(K, V)>::valid(
                    #[trigger] next[j],
                ) by {
                    if j < done.len() {
                        assert(next[j] == done[j]);
                    }
                }
            }
        }
        proof {
            assert(all.take(all.len() as int) =~= all);
            assert(bs@ =~= old(bs)@ + Self::encode(self.model()));
        }
    }
}

impl<K: HashKey + RoundTrip, V: RoundTrip> RoundTrip for HashMap<K, V> {
    proof fn lemma_round_trip(m: Seq<(K, V::Model)>, rest: Seq<u8>) {
        Vec::<(K, V)>::lemma_round_trip(m, rest);
    }
}

} // verus!
