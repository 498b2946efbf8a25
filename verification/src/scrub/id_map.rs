//! A mapping from block addresses, walked in ascending address order.

use vstd::prelude::*;

use crate::bytes::{
    ascending, bytes_below, bytes_lt, lemma_ascending_same, lemma_ascending_unique,
    lemma_bytes_lt_asymmetric, lemma_bytes_lt_total, lemma_bytes_lt_transitive,
};
use crate::metastore::block::BlockId;

verus! {

/// A mapping from block addresses to values of some type.
#[derive(Debug)]
pub struct IdMap<V> {
    keys: Vec<BlockId>,
    values: Vec<V>,
}

/// Whether a list names each mapped address once, ascending.
pub open spec fn lists_keys<V>(keys: Seq<Seq<u8>>, map: Map<Seq<u8>, V>) -> bool {
    &&& ascending(keys)
    &&& forall|key: Seq<u8>| #[trigger] keys.contains(key) <==> map.contains_key(key)
}

/// The mapped addresses in ascending order.
pub open spec fn key_order<V>(map: Map<Seq<u8>, V>) -> Seq<Seq<u8>> {
    choose|keys: Seq<Seq<u8>>| lists_keys(keys, map)
}

/// A mapping has one ascending list of its addresses.
pub proof fn lemma_key_order<V>(keys: Seq<Seq<u8>>, map: Map<Seq<u8>, V>)
    requires
        lists_keys(keys, map),
    ensures
        key_order(map) == keys,
{
    let other = key_order(map);
    assert(lists_keys(other, map));
    assert forall|key: Seq<u8>| #[trigger] keys.contains(key) <==> other.contains(key) by {}
    lemma_ascending_same(keys, other);
}

/// The addresses of a list of block ids.
spec fn addresses(keys: Seq<BlockId>) -> Seq<Seq<u8>> {
    keys.map_values(|id: BlockId| id@)
}

/// The mapping that a list of addresses and the values beside them stand for.
spec fn zipped<V>(keys: Seq<BlockId>, values: Seq<V>) -> Map<Seq<u8>, V>
    decreases keys.len(),
{
    if keys.len() == 0 || values.len() == 0 {
        Map::empty()
    } else {
        zipped(keys.drop_last(), values.drop_last()).insert(keys.last()@, values.last())
    }
}

/// Whether an order lists a mapping: its addresses ascend, and each is mapped
/// to the value beside it.
spec fn in_order<V>(order: Seq<Seq<u8>>, values: Seq<V>, map: Map<Seq<u8>, V>) -> bool {
    &&& order.len() == values.len()
    &&& ascending(order)
    &&& forall|i: int|
        0 <= i < order.len() ==> map.contains_key(#[trigger] order[i]) && map[order[i]] == values[i]
    &&& forall|key: Seq<u8>| #[trigger]
        map.contains_key(key) ==> exists|i: int| 0 <= i < order.len() && order[i] == key
}

proof fn lemma_zipped<V>(keys: Seq<BlockId>, values: Seq<V>)
    requires
        keys.len() == values.len(),
        ascending(addresses(keys)),
    ensures
        in_order(addresses(keys), values, zipped(keys, values)),
    decreases keys.len(),
{
    let order = addresses(keys);
    let map = zipped(keys, values);
    if keys.len() > 0 {
        let init = keys.drop_last();
        let rest = values.drop_last();
        assert(addresses(init) =~= order.drop_last());
        assert(ascending(addresses(init))) by {
            assert forall|i: int, j: int| 0 <= i < j < init.len() implies bytes_lt(
                #[trigger] addresses(init)[i],
                #[trigger] addresses(init)[j],
            ) by {
                assert(bytes_lt(order[i], order[j]));
            }
        }
        lemma_zipped(init, rest);
        let before = zipped(init, rest);
        assert forall|i: int| 0 <= i < order.len() implies map.contains_key(#[trigger] order[i])
            && map[order[i]] == values[i] by {
            if i < init.len() {
                assert(order[i] == addresses(init)[i]);
                assert(before[addresses(init)[i]] == rest[i]);
                if order[i] == keys.last()@ {
                    lemma_ascending_unique(order, i, keys.len() - 1);
                }
            }
        }
        assert forall|key: Seq<u8>| #[trigger] map.contains_key(key) implies exists|i: int|
            0 <= i < order.len() && order[i] == key by {
            if key == keys.last()@ {
                assert(order[keys.len() - 1] == key);
            } else {
                assert(before.contains_key(key));
                let i = choose|i: int|
                    0 <= i < addresses(init).len() && addresses(init)[i] == key;
                assert(order[i] == key);
            }
        }
    }
}

/// One order of addresses and values lists one mapping.
proof fn lemma_in_order_unique<V>(
    order: Seq<Seq<u8>>,
    values: Seq<V>,
    a: Map<Seq<u8>, V>,
    b: Map<Seq<u8>, V>,
)
    requires
        in_order(order, values, a),
        in_order(order, values, b),
    ensures
        a == b,
{
    assert forall|key: Seq<u8>| a.contains_key(key) <==> b.contains_key(key) by {
        if a.contains_key(key) {
            let i = choose|i: int| 0 <= i < order.len() && order[i] == key;
            assert(b.contains_key(order[i]));
        }
        if b.contains_key(key) {
            let i = choose|i: int| 0 <= i < order.len() && order[i] == key;
            assert(a.contains_key(order[i]));
        }
    }
    assert forall|key: Seq<u8>| a.contains_key(key) implies a[key] == b[key] by {
        let i = choose|i: int| 0 <= i < order.len() && order[i] == key;
        assert(a[order[i]] == values[i]);
        assert(b[order[i]] == values[i]);
    }
    assert(a =~= b);
}

impl<V> View for IdMap<V> {
    type V = Map<Seq<u8>, V>;

    closed spec fn view(&self) -> Map<Seq<u8>, V> {
        zipped(self.keys@, self.values@)
    }
}

impl<V> IdMap<V> {
    #[verifier::type_invariant]
    spec fn wf(self) -> bool {
        &&& self.keys@.len() == self.values@.len()
        &&& ascending(addresses(self.keys@))
    }

    /// The mapped addresses in ascending order.
    pub closed spec fn order(&self) -> Seq<Seq<u8>> {
        addresses(self.keys@)
    }

    /// A mapping of nothing.
    pub fn new() -> (map: Self)
        ensures
            map@ == Map::<Seq<u8>, V>::empty(),
    {
        let map = IdMap { keys: Vec::new(), values: Vec::new() };
        proof {
            assert(map@ =~= Map::<Seq<u8>, V>::empty());
        }
        map
    }

    /// The number of mapped addresses.
    pub fn len(&self) -> (n: usize)
        ensures
            n == self.order().len(),
            self.order() == key_order(self@),
            lists_keys(self.order(), self@),
    {
        proof {
            use_type_invariant(self);
            lemma_zipped(self.keys@, self.values@);
            assert forall|key: Seq<u8>| #[trigger] self.order().contains(
                key,
            ) <==> self@.contains_key(key) by {
                if self.order().contains(key) {
                    let i = choose|i: int| 0 <= i < self.order().len() && self.order()[i] == key;
                    assert(self@.contains_key(self.order()[i]));
                }
            }
            lemma_key_order(self.order(), self@);
        }
        self.keys.len()
    }

    /// Whether nothing is mapped.
    pub fn is_empty(&self) -> (empty: bool)
        ensures
            empty == (self@ == Map::<Seq<u8>, V>::empty()),
    {
        let n: usize = self.len();
        proof {
            if n == 0 {
                assert forall|key: Seq<u8>| !self@.contains_key(key) by {
                    assert(!self.order().contains(key));
                }
                assert(self@ =~= Map::<Seq<u8>, V>::empty());
            } else {
                assert(self.order().contains(self.order()[0]));
                assert(self@.contains_key(self.order()[0]));
            }
        }
        n == 0
    }

    /// The address at a place of the order.
    pub fn key_at(&self, i: usize) -> (id: BlockId)
        requires
            i < self.order().len(),
        ensures
            id@ == self.order()[i as int],
    {
        self.keys[i]
    }

    /// The value beside the address at a place of the order.
    pub fn value_at(&self, i: usize) -> (value: &V)
        requires
            i < self.order().len(),
        ensures
            *value == self@[self.order()[i as int]],
            self@.contains_key(self.order()[i as int]),
    {
        proof {
            use_type_invariant(self);
            lemma_zipped(self.keys@, self.values@);
            assert(self@[self.order()[i as int]] == self.values@[i as int]);
        }
        &self.values[i]
    }

    /// The place at which an address stands, or at which it would be inserted.
    fn position(&self, id: &BlockId) -> (at: usize)
        ensures
            at <= self.keys@.len(),
            forall|i: int| 0 <= i < at ==> bytes_lt(#[trigger] self.order()[i], id@),
            forall|i: int|
                at <= i < self.keys@.len() ==> !bytes_lt(#[trigger] self.order()[i], id@),
    {
        proof {
            use_type_invariant(self);
        }
        let mut at: usize = 0;
        while at < self.keys.len() && bytes_below(self.keys[at].as_slice(), id.as_slice())
            invariant
                at <= self.keys@.len(),
                forall|i: int| 0 <= i < at ==> bytes_lt(#[trigger] self.order()[i], id@),
            decreases self.keys@.len() - at,
        {
            at = at + 1;
        }
        proof {
            assert forall|i: int| at <= i < self.keys@.len() implies !bytes_lt(
                #[trigger] self.order()[i],
                id@,
            ) by {
                if i > at && bytes_lt(self.order()[i], id@) {
                    assert(bytes_lt(self.order()[at as int], self.order()[i]));
                    lemma_bytes_lt_transitive(self.order()[at as int], self.order()[i], id@);
                }
            }
        }
        at
    }

    /// Whether an address stands at the place where it would be inserted.
    fn found(&self, at: usize, id: &BlockId) -> (yes: bool)
        requires
            at <= self.keys@.len(),
            forall|i: int| 0 <= i < at ==> bytes_lt(#[trigger] self.order()[i], id@),
            forall|i: int|
                at <= i < self.keys@.len() ==> !bytes_lt(#[trigger] self.order()[i], id@),
        ensures
            yes == self@.contains_key(id@),
            yes ==> at < self.keys@.len() && self.order()[at as int] == id@,
            !yes ==> forall|i: int|
                at <= i < self.keys@.len() ==> bytes_lt(id@, #[trigger] self.order()[i]),
    {
        let yes = at < self.keys.len() && self.keys[at].same(id);
        proof {
            use_type_invariant(self);
            lemma_zipped(self.keys@, self.values@);
            let order = self.order();
            if yes {
                assert(order[at as int] == id@);
            } else {
                assert forall|i: int| at <= i < self.keys@.len() implies bytes_lt(
                    id@,
                    #[trigger] order[i],
                ) by {
                    lemma_bytes_lt_total(id@, order[i]);
                    if order[i] == id@ && i > at {
                        assert(bytes_lt(order[at as int], order[i]));
                    }
                }
                if self@.contains_key(id@) {
                    let i = choose|i: int| 0 <= i < order.len() && order[i] == id@;
                    if i < at {
                        lemma_bytes_lt_asymmetric(order[i], id@);
                    } else {
                        assert(bytes_lt(id@, order[i]));
                        lemma_bytes_lt_asymmetric(id@, order[i]);
                    }
                }
            }
        }
        yes
    }

    /// Whether an address is mapped.
    pub fn contains_key(&self, id: &BlockId) -> (yes: bool)
        ensures
            yes == self@.contains_key(id@),
    {
        let at: usize = self.position(id);
        self.found(at, id)
    }

    /// The value an address is mapped to.
    pub fn get(&self, id: &BlockId) -> (value: Option<&V>)
        ensures
            value matches Some(v) ==> self@.contains_key(id@) && self@[id@] == *v,
            value is None ==> !self@.contains_key(id@),
    {
        let at: usize = self.position(id);
        if self.found(at, id) {
            Some(self.value_at(at))
        } else {
            None
        }
    }

    /// Maps an address to a value, over whatever it was mapped to.
    pub fn insert(&mut self, id: BlockId, value: V)
        ensures
            final(self)@ == old(self)@.insert(id@, value),
    {
        proof {
            use_type_invariant(&*self);
            lemma_zipped(self.keys@, self.values@);
        }
        let at: usize = self.position(&id);
        let there = self.found(at, &id);
        let ghost old_order = self.order();
        let ghost old_values = self.values@;
        let ghost old_map = self@;
        let mut map = IdMap { keys: Vec::new(), values: Vec::new() };
        std::mem::swap(&mut map, self);
        let mut keys = map.keys;
        let mut values = map.values;
        if there {
            keys.set(at, id);
            values.set(at, value);
        } else {
            keys.insert(at, id);
            values.insert(at, value);
        }
        proof {
            let order = addresses(keys@);
            let want = old_map.insert(id@, value);
            if there {
                assert(order =~= old_order.update(at as int, id@));
                assert(order =~= old_order);
            } else {
                assert(order =~= old_order.insert(at as int, id@));
                assert forall|i: int, j: int| 0 <= i < j < order.len() implies bytes_lt(
                    #[trigger] order[i],
                    #[trigger] order[j],
                ) by {
                    let bi = if i < at { i } else { i - 1 };
                    let bj = if j < at { j } else { j - 1 };
                    if i != at && j != at {
                        assert(bytes_lt(old_order[bi], old_order[bj]));
                    } else if i == at {
                        assert(bytes_lt(id@, old_order[bj]));
                    } else {
                        assert(bytes_lt(old_order[bi], id@));
                    }
                }
            }
            assert(ascending(order));
            assert forall|i: int| 0 <= i < order.len() implies want.contains_key(
                #[trigger] order[i],
            ) && want[order[i]] == values@[i] by {
                if i != at {
                    let b = if there || i < at { i } else { i - 1 };
                    assert(order[i] == old_order[b]);
                    assert(old_map[old_order[b]] == old_values[b]);
                    if order[i] == id@ {
                        lemma_ascending_unique(order, i, at as int);
                    }
                }
            }
            assert forall|key: Seq<u8>| #[trigger] want.contains_key(key) implies exists|i: int|
                0 <= i < order.len() && order[i] == key by {
                if key == id@ {
                    assert(order[at as int] == key);
                } else {
                    assert(old_map.contains_key(key));
                    let b = choose|b: int| 0 <= b < old_order.len() && old_order[b] == key;
                    let i = if there || b < at { b } else { b + 1 };
                    assert(order[i] == key);
                }
            }
            lemma_zipped(keys@, values@);
            lemma_in_order_unique(order, values@, zipped(keys@, values@), want);
        }
        *self = IdMap { keys, values };
    }
}

} // verus!
