//! A store that lives in memory.

use vstd::prelude::*;
use vstd::slice::slice_to_vec;
use vstd::string::*;
use vstd::utf8::*;

use crate::bytes::{
    bytes_below, bytes_lt, equal_bytes, has_prefix, lemma_bytes_lt_asymmetric,
    lemma_bytes_lt_total, lemma_bytes_lt_transitive,
};
use crate::metastore::errors::MetaError;
use crate::metastore::object::{Object, ObjectView};
use crate::metastore::traits::{
    entries_after, entries_before, later, lemma_listing, listed, lists, lists_names, opt_bytes,
    pair, pairs, shown_all, takes_key, tree_of, with_tree, BaseMetaTree, Entries, KeyValuePairs,
    MetaTreeExt, Rows, Store, TransactionBackend,
};
use crate::text::{equal_text, opt_text, text_below, utf8_text};

verus! {

/// A tree that lives in memory: its pairs in ascending key order.
pub struct MemTree {
    rows: Vec<(Vec<u8>, Vec<u8>)>,
}

/// Whether keys ascend strictly.
spec fn ascending(list: Seq<(Vec<u8>, Vec<u8>)>) -> bool {
    forall|i: int, j: int|
        0 <= i < j < list.len() ==> bytes_lt((#[trigger] list[i]).0@, (#[trigger] list[j]).0@)
}

/// The mapping that a list of pairs with distinct keys stands for.
spec fn as_map(list: Seq<(Vec<u8>, Vec<u8>)>) -> Entries
    decreases list.len(),
{
    if list.len() == 0 {
        Map::empty()
    } else {
        as_map(list.drop_last()).insert(list.last().0@, list.last().1@)
    }
}

/// Where the keys ascend, the mapping holds exactly the listed pairs.
proof fn lemma_as_map(list: Seq<(Vec<u8>, Vec<u8>)>)
    requires
        ascending(list),
    ensures
        lists(pairs(list), as_map(list)),
        as_map(list).dom().finite(),
        as_map(list).dom().len() == list.len(),
    decreases list.len(),
{
    let map = as_map(list);
    if list.len() > 0 {
        let init = list.drop_last();
        let last = list.last();
        assert(ascending(init)) by {
            assert forall|i: int, j: int| 0 <= i < j < init.len() implies bytes_lt(
                (#[trigger] init[i]).0@,
                (#[trigger] init[j]).0@,
            ) by {
                assert(init[i] == list[i]);
                assert(init[j] == list[j]);
            }
        }
        lemma_as_map(init);
        let before = as_map(init);
        assert(!before.contains_key(last.0@)) by {
            if before.contains_key(last.0@) {
                let i = choose|i: int| 0 <= i < pairs(init).len() && pairs(init)[i].0 == last.0@;
                assert(bytes_lt(list[i].0@, list[list.len() - 1].0@));
                lemma_bytes_lt_asymmetric(list[i].0@, last.0@);
            }
        }
        assert forall|i: int| 0 <= i < pairs(list).len() implies map.contains_key(
            (#[trigger] pairs(list)[i]).0,
        ) && map[pairs(list)[i].0] == pairs(list)[i].1 by {
            if i < init.len() {
                assert(pairs(init)[i] == pairs(list)[i]);
            }
        }
        assert forall|i: int, j: int| 0 <= i < j < pairs(list).len() implies bytes_lt(
            (#[trigger] pairs(list)[i]).0,
            (#[trigger] pairs(list)[j]).0,
        ) by {
            assert(bytes_lt(list[i].0@, list[j].0@));
        }
        assert forall|key: Seq<u8>| #[trigger] map.contains_key(key) implies exists|i: int|
            0 <= i < pairs(list).len() && pairs(list)[i].0 == key by {
            if key == last.0@ {
                assert(pairs(list)[list.len() - 1].0 == key);
            } else {
                assert(before.contains_key(key));
                let i = choose|i: int| 0 <= i < pairs(init).len() && pairs(init)[i].0 == key;
                assert(pairs(list)[i].0 == key);
            }
        }
        assert(map.dom() =~= before.dom().insert(last.0@));
    }
}

/// Two mappings that one list stands for are the same.
proof fn lemma_lists_unique(list: Seq<(Seq<u8>, Seq<u8>)>, a: Entries, b: Entries)
    requires
        lists(list, a),
        lists(list, b),
    ensures
        a == b,
{
    assert forall|key: Seq<u8>| a.contains_key(key) <==> b.contains_key(key) by {
        if a.contains_key(key) {
            let i = choose|i: int| 0 <= i < list.len() && list[i].0 == key;
            assert(b.contains_key(list[i].0));
        }
        if b.contains_key(key) {
            let i = choose|i: int| 0 <= i < list.len() && list[i].0 == key;
            assert(a.contains_key(list[i].0));
        }
    }
    assert forall|key: Seq<u8>| a.contains_key(key) implies a[key] == b[key] by {
        let i = choose|i: int| 0 <= i < list.len() && list[i].0 == key;
        assert(a[list[i].0] == list[i].1);
        assert(b[list[i].0] == list[i].1);
    }
    assert(a =~= b);
}

impl MemTree {
    #[verifier::type_invariant]
    spec fn wf(self) -> bool {
        ascending(self.rows@)
    }

    /// The contents of the tree.
    closed spec fn contents(self) -> Entries {
        as_map(self.rows@)
    }

    /// A tree with nothing in it.
    pub fn new() -> (tree: Self)
        ensures
            tree.entries() == Entries::empty(),
    {
        MemTree { rows: Vec::new() }
    }

    /// The position at which a key stands, or at which it would be inserted.
    fn position(&self, key: &[u8]) -> (at: usize)
        ensures
            at <= self.rows@.len(),
            forall|i: int| 0 <= i < at ==> bytes_lt((#[trigger] self.rows@[i]).0@, key@),
            forall|i: int|
                at <= i < self.rows@.len() ==> !bytes_lt((#[trigger] self.rows@[i]).0@, key@),
    {
        proof {
            use_type_invariant(self);
        }
        let mut at: usize = 0;
        while at < self.rows.len() && bytes_below(&self.rows[at].0, key)
            invariant
                at <= self.rows@.len(),
                forall|i: int| 0 <= i < at ==> bytes_lt((#[trigger] self.rows@[i]).0@, key@),
            decreases self.rows@.len() - at,
        {
            at = at + 1;
        }
        proof {
            assert forall|i: int| at <= i < self.rows@.len() implies !bytes_lt(
                (#[trigger] self.rows@[i]).0@,
                key@,
            ) by {
                if i > at && bytes_lt(self.rows@[i].0@, key@) {
                    assert(bytes_lt(self.rows@[at as int].0@, self.rows@[i].0@));
                    lemma_bytes_lt_transitive(
                        self.rows@[at as int].0@,
                        self.rows@[i].0@,
                        key@,
                    );
                }
            }
        }
        at
    }

    /// Whether a key stands at the position where it would be inserted.
    fn found(&self, at: usize, key: &[u8]) -> (yes: bool)
        requires
            at <= self.rows@.len(),
            forall|i: int| 0 <= i < at ==> bytes_lt((#[trigger] self.rows@[i]).0@, key@),
            forall|i: int|
                at <= i < self.rows@.len() ==> !bytes_lt((#[trigger] self.rows@[i]).0@, key@),
        ensures
            yes == self.contents().contains_key(key@),
            yes ==> at < self.rows@.len() && self.rows@[at as int].0@ == key@
                && self.contents()[key@] == self.rows@[at as int].1@,
            !yes ==> forall|i: int|
                0 <= i < self.rows@.len() ==> (#[trigger] self.rows@[i]).0@ != key@,
            !yes ==> forall|i: int|
                at <= i < self.rows@.len() ==> bytes_lt(key@, (#[trigger] self.rows@[i]).0@),
    {
        let yes = at < self.rows.len() && equal_bytes(&self.rows[at].0, key);
        proof {
            use_type_invariant(self);
            let list = pairs(self.rows@);
            lemma_as_map(self.rows@);
            assert forall|i: int| 0 <= i < self.rows@.len() && !yes implies (
            #[trigger] self.rows@[i]).0@ != key@ by {
                if i < at {
                    lemma_bytes_lt_asymmetric(self.rows@[i].0@, key@);
                } else if i > at && self.rows@[i].0@ == key@ {
                    assert(bytes_lt(self.rows@[at as int].0@, self.rows@[i].0@));
                }
            }
            if yes {
                assert(list[at as int].0 == key@);
            } else if self.contents().contains_key(key@) {
                let i = choose|i: int| 0 <= i < list.len() && list[i].0 == key@;
                assert(self.rows@[i].0@ == key@);
            }
            assert forall|i: int| at <= i < self.rows@.len() && !yes implies bytes_lt(
                key@,
                (#[trigger] self.rows@[i]).0@,
            ) by {
                lemma_bytes_lt_total(key@, self.rows@[i].0@);
            }
        }
        yes
    }

    /// A copy of the tree.
    fn copy(&self) -> (tree: Self)
        ensures
            tree.contents() == self.contents(),
    {
        proof {
            use_type_invariant(self);
        }
        let rows = copy_pairs(&self.rows, 0, self.rows.len());
        proof {
            assert(self.rows@.subrange(0, self.rows@.len() as int) =~= self.rows@);
            assert(pairs(rows@) == pairs(self.rows@));
            assert(ascending(rows@)) by {
                assert forall|i: int, j: int| 0 <= i < j < rows@.len() implies bytes_lt(
                    (#[trigger] rows@[i]).0@,
                    (#[trigger] rows@[j]).0@,
                ) by {
                    assert(pairs(rows@)[i] == pairs(self.rows@)[i]);
                    assert(pairs(rows@)[j] == pairs(self.rows@)[j]);
                    assert(pairs(self.rows@).len() == self.rows@.len());
                    assert(bytes_lt(self.rows@[i].0@, self.rows@[j].0@));
                }
            }
            lemma_as_map(rows@);
            lemma_as_map(self.rows@);
            lemma_lists_unique(pairs(rows@), as_map(rows@), as_map(self.rows@));
        }
        MemTree { rows }
    }
}

/// Copies the pairs from one position to another.
fn copy_pairs(list: &Vec<(Vec<u8>, Vec<u8>)>, from: usize, to: usize) -> (out: KeyValuePairs)
    requires
        from <= to <= list@.len(),
    ensures
        pairs(out@) == pairs(list@.subrange(from as int, to as int)),
{
    let mut out: KeyValuePairs = Vec::new();
    let mut i: usize = from;
    while i < to
        invariant
            from <= i <= to <= list@.len(),
            out@.len() == i - from,
            forall|j: int| 0 <= j < i - from ==> pair(#[trigger] out@[j]) == pair(list@[from + j]),
        decreases to - i,
    {
        out.push((slice_to_vec(&list[i].0), slice_to_vec(&list[i].1)));
        i = i + 1;
    }
    proof {
        assert(pairs(out@) =~= pairs(list@.subrange(from as int, to as int)));
    }
    out
}

impl BaseMetaTree for MemTree {
    closed spec fn entries(&self) -> Entries {
        self.contents()
    }

    open spec fn healthy(&self) -> bool {
        true
    }

    fn insert(&mut self, key: &[u8], value: Vec<u8>) -> (out: Result<(), MetaError>) {
        proof {
            use_type_invariant(&*self);
        }
        let at: usize = self.position(key);
        let there = self.found(at, key);
        let ghost before = self.rows@;
        let mut rows: Vec<(Vec<u8>, Vec<u8>)> = Vec::new();
        std::mem::swap(&mut rows, &mut self.rows);
        let row = (slice_to_vec(key), value);
        let ghost added = row;
        if there {
            rows.set(at, row);
        } else {
            rows.insert(at, row);
        }
        proof {
            if there {
                assert(rows@ =~= before.update(at as int, added));
                assert(ascending(rows@)) by {
                    assert forall|i: int, j: int| 0 <= i < j < rows@.len() implies bytes_lt(
                        (#[trigger] rows@[i]).0@,
                        (#[trigger] rows@[j]).0@,
                    ) by {
                        assert(bytes_lt(before[i].0@, before[j].0@));
                    }
                }
            } else {
                assert(rows@ =~= before.insert(at as int, added));
                assert(ascending(rows@)) by {
                    assert forall|i: int, j: int| 0 <= i < j < rows@.len() implies bytes_lt(
                        (#[trigger] rows@[i]).0@,
                        (#[trigger] rows@[j]).0@,
                    ) by {
                        let bi = if i < at { i } else { i - 1 };
                        let bj = if j < at { j } else { j - 1 };
                        if i != at && j != at {
                            assert(bytes_lt(before[bi].0@, before[bj].0@));
                        } else if i == at {
                            assert(bytes_lt(key@, before[bj].0@));
                        } else {
                            assert(bytes_lt(before[bi].0@, key@));
                        }
                    }
                }
            }
            lemma_as_map(before);
            lemma_as_map(rows@);
            let old_map = as_map(before);
            let new_map = old_map.insert(key@, added.1@);
            let list = pairs(rows@);
            assert forall|i: int| 0 <= i < list.len() implies new_map.contains_key(
                (#[trigger] list[i]).0,
            ) && new_map[list[i].0] == list[i].1 by {
                if i != at {
                    let b = if there || i < at { i } else { i - 1 };
                    assert(pairs(before)[b] == list[i]);
                    assert(list[i].0 != key@) by {
                        if i < at {
                            assert(bytes_lt(before[b].0@, key@));
                            lemma_bytes_lt_asymmetric(before[b].0@, key@);
                        } else if there {
                            assert(bytes_lt(before[at as int].0@, before[b].0@));
                            lemma_bytes_lt_asymmetric(before[at as int].0@, before[b].0@);
                        } else {
                            assert(bytes_lt(key@, before[b].0@));
                            lemma_bytes_lt_asymmetric(key@, before[b].0@);
                        }
                    }
                }
            }
            assert forall|k: Seq<u8>| #[trigger] new_map.contains_key(k) implies exists|i: int|
                0 <= i < list.len() && list[i].0 == k by {
                if k == key@ {
                    assert(list[at as int].0 == k);
                } else {
                    assert(old_map.contains_key(k));
                    let b = choose|b: int|
                        0 <= b < pairs(before).len() && pairs(before)[b].0 == k;
                    let i = if there || b < at { b } else { b + 1 };
                    assert(list[i].0 == k);
                }
            }
            lemma_lists_unique(list, as_map(rows@), new_map);
        }
        self.rows = rows;
        Ok(())
    }

    fn remove(&mut self, key: &[u8]) -> (out: Result<bool, MetaError>) {
        proof {
            use_type_invariant(&*self);
        }
        let at: usize = self.position(key);
        let there = self.found(at, key);
        let ghost before = self.rows@;
        if !there {
            proof {
                assert(as_map(before).remove(key@) =~= as_map(before));
            }
            return Ok(false);
        }
        let mut rows: Vec<(Vec<u8>, Vec<u8>)> = Vec::new();
        std::mem::swap(&mut rows, &mut self.rows);
        let _gone = rows.remove(at);
        proof {
            assert(rows@ =~= before.remove(at as int));
            assert(ascending(rows@)) by {
                assert forall|i: int, j: int| 0 <= i < j < rows@.len() implies bytes_lt(
                    (#[trigger] rows@[i]).0@,
                    (#[trigger] rows@[j]).0@,
                ) by {
                    let bi = if i < at { i } else { i + 1 };
                    let bj = if j < at { j } else { j + 1 };
                    assert(bytes_lt(before[bi].0@, before[bj].0@));
                }
            }
            lemma_as_map(before);
            lemma_as_map(rows@);
            let old_map = as_map(before);
            let new_map = old_map.remove(key@);
            let list = pairs(rows@);
            assert forall|i: int| 0 <= i < list.len() implies new_map.contains_key(
                (#[trigger] list[i]).0,
            ) && new_map[list[i].0] == list[i].1 by {
                let b = if i < at { i } else { i + 1 };
                assert(pairs(before)[b] == list[i]);
                if i < at {
                    assert(bytes_lt(before[b].0@, before[at as int].0@));
                    lemma_bytes_lt_asymmetric(before[b].0@, before[at as int].0@);
                } else {
                    assert(bytes_lt(before[at as int].0@, before[b].0@));
                    lemma_bytes_lt_asymmetric(before[at as int].0@, before[b].0@);
                }
            }
            assert forall|k: Seq<u8>| #[trigger] new_map.contains_key(k) implies exists|i: int|
                0 <= i < list.len() && list[i].0 == k by {
                assert(old_map.contains_key(k));
                let b = choose|b: int| 0 <= b < pairs(before).len() && pairs(before)[b].0 == k;
                let i = if b < at { b } else { b - 1 };
                assert(list[i].0 == k);
            }
            lemma_lists_unique(list, as_map(rows@), new_map);
        }
        self.rows = rows;
        Ok(true)
    }

    fn contains_key(&self, key: &[u8]) -> (out: Result<bool, MetaError>) {
        let at: usize = self.position(key);
        Ok(self.found(at, key))
    }

    fn get(&self, key: &[u8]) -> (out: Result<Option<Vec<u8>>, MetaError>) {
        let at: usize = self.position(key);
        if self.found(at, key) {
            Ok(Some(slice_to_vec(&self.rows[at].1)))
        } else {
            Ok(None)
        }
    }

    fn len(&self) -> (out: Result<usize, MetaError>) {
        proof {
            use_type_invariant(self);
            lemma_as_map(self.rows@);
        }
        Ok(self.rows.len())
    }
}

/// The first position behind a key, or the end.
fn after_key(rows: &Vec<(Vec<u8>, Vec<u8>)>, key: &[u8]) -> (at: usize)
    requires
        ascending(rows@),
    ensures
        at <= rows@.len(),
        forall|i: int| 0 <= i < at ==> !bytes_lt(key@, (#[trigger] rows@[i]).0@),
        forall|i: int| at <= i < rows@.len() ==> bytes_lt(key@, (#[trigger] rows@[i]).0@),
{
    let mut at: usize = 0;
    while at < rows.len() && !bytes_below(key, &rows[at].0)
        invariant
            at <= rows@.len(),
            forall|i: int| 0 <= i < at ==> !bytes_lt(key@, (#[trigger] rows@[i]).0@),
        decreases rows@.len() - at,
    {
        at = at + 1;
    }
    proof {
        assert forall|i: int| at <= i < rows@.len() implies bytes_lt(
            key@,
            (#[trigger] rows@[i]).0@,
        ) by {
            if i > at {
                assert(bytes_lt(rows@[at as int].0@, rows@[i].0@));
                lemma_bytes_lt_transitive(key@, rows@[at as int].0@, rows@[i].0@);
            }
        }
    }
    at
}

/// A stretch of an ascending list stands for the entries whose keys lie in it.
proof fn lemma_stretch(rows: Seq<(Vec<u8>, Vec<u8>)>, from: int, to: int, part: Entries)
    requires
        ascending(rows),
        0 <= from <= to <= rows.len(),
        forall|key: Seq<u8>| #[trigger]
            part.contains_key(key) ==> as_map(rows).contains_key(key) && part[key] == as_map(
                rows,
            )[key],
        forall|i: int|
            0 <= i < rows.len() ==> (part.contains_key((#[trigger] rows[i]).0@) <==> from <= i
                < to),
    ensures
        lists(pairs(rows.subrange(from, to)), part),
{
    lemma_as_map(rows);
    let all = pairs(rows);
    let list = pairs(rows.subrange(from, to));
    assert forall|i: int| 0 <= i < list.len() implies part.contains_key((#[trigger] list[i]).0)
        && part[list[i].0] == list[i].1 by {
        assert(list[i] == all[from + i]);
        assert(part.contains_key(rows[from + i].0@));
    }
    assert forall|i: int, j: int| 0 <= i < j < list.len() implies bytes_lt(
        (#[trigger] list[i]).0,
        (#[trigger] list[j]).0,
    ) by {
        assert(bytes_lt(rows[from + i].0@, rows[from + j].0@));
    }
    assert forall|key: Seq<u8>| #[trigger] part.contains_key(key) implies exists|i: int|
        0 <= i < list.len() && list[i].0 == key by {
        assert(as_map(rows).contains_key(key));
        let i = choose|i: int| 0 <= i < all.len() && all[i].0 == key;
        assert(part.contains_key(rows[i].0@));
        assert(list[i - from].0 == key);
    }
}

/// Turns a list of pairs around.
fn reversed(list: KeyValuePairs) -> (out: KeyValuePairs)
    ensures
        pairs(out@) == pairs(list@).reverse(),
{
    let mut rest = list;
    let mut out: KeyValuePairs = Vec::new();
    while rest.len() > 0
        invariant
            rest@.len() + out@.len() == list@.len(),
            rest@ == list@.subrange(0, rest@.len() as int),
            forall|j: int|
                0 <= j < out@.len() ==> #[trigger] out@[j] == list@[list@.len() - 1 - j],
        decreases rest@.len(),
    {
        match rest.pop() {
            Some(kv) => {
                out.push(kv);
            },
            None => {},
        }
        proof {
            assert(rest@ =~= list@.subrange(0, rest@.len() as int));
        }
    }
    proof {
        assert(pairs(out@) =~= pairs(list@).reverse());
    }
    out
}

impl MetaTreeExt for MemTree {
    fn iter_all(&self) -> (out: Result<KeyValuePairs, MetaError>) {
        proof {
            use_type_invariant(self);
            lemma_as_map(self.rows@);
            assert(self.rows@.subrange(0, self.rows@.len() as int) =~= self.rows@);
        }
        Ok(copy_pairs(&self.rows, 0, self.rows.len()))
    }

    fn iter_kv(&self, start_after: Option<Vec<u8>>) -> (out: Result<KeyValuePairs, MetaError>) {
        proof {
            use_type_invariant(self);
        }
        match &start_after {
            None => self.iter_all(),
            Some(key) => {
                let at: usize = after_key(&self.rows, key);
                proof {
                    lemma_as_map(self.rows@);
                    let part = entries_after(self.contents(), opt_bytes(start_after));
                    assert forall|i: int| 0 <= i < self.rows@.len() implies (part.contains_key(
                        (#[trigger] self.rows@[i]).0@,
                    ) <==> at <= i < self.rows@.len()) by {
                        assert(pairs(self.rows@)[i].0 == self.rows@[i].0@);
                    }
                    lemma_stretch(self.rows@, at as int, self.rows@.len() as int, part);
                }
                Ok(copy_pairs(&self.rows, at, self.rows.len()))
            },
        }
    }

    fn iter_kv_backward(&self, start_key: Option<Vec<u8>>) -> (out: Result<
        KeyValuePairs,
        MetaError,
    >) {
        proof {
            use_type_invariant(self);
        }
        let to: usize = match &start_key {
            None => self.rows.len(),
            Some(key) => self.position(key),
        };
        proof {
            lemma_as_map(self.rows@);
            let part = entries_before(self.contents(), opt_bytes(start_key));
            assert forall|i: int| 0 <= i < self.rows@.len() implies (part.contains_key(
                (#[trigger] self.rows@[i]).0@,
            ) <==> 0 <= i < to) by {
                assert(pairs(self.rows@)[i].0 == self.rows@[i].0@);
            }
            lemma_stretch(self.rows@, 0, to as int, part);
        }
        let list = copy_pairs(&self.rows, 0, to);
        let ghost forward = pairs(list@);
        let out = reversed(list);
        proof {
            assert(pairs(out@).reverse() =~= forward);
        }
        Ok(out)
    }

    fn range_filter(
        &self,
        start_after: Option<String>,
        prefix: Option<String>,
        continuation_token: Option<String>,
    ) -> (out: Result<Vec<(String, Object)>, MetaError>) {
        proof {
            use_type_invariant(self);
            lemma_as_map(self.rows@);
            lemma_listing(pairs(self.rows@), self.entries());
        }
        Ok(filter_objects(&self.rows, start_after, prefix, continuation_token))
    }
}

/// Whether a listing with a prefix and a cursor takes a key.
pub fn filter_takes(key: &[u8], prefix: &Option<String>, cursor: &Option<String>) -> (yes: bool)
    ensures
        yes == takes_key(key@, opt_text(*prefix), opt_text(*cursor)),
{
    match (prefix, cursor) {
        (None, None) => true,
        (None, Some(cursor)) => bytes_below(cursor.as_str().as_bytes(), key),
        (Some(prefix), None) => has_prefix(key, prefix.as_str().as_bytes()),
        (Some(prefix), Some(cursor)) => {
            let p = prefix.as_str().as_bytes();
            let c = cursor.as_str().as_bytes();
            has_prefix(key, p) && (bytes_below(c, p) || (has_prefix(c, p) && bytes_below(c, key)))
        },
    }
}

/// The later of two texts; where only one is there, that one.
fn later_text(a: Option<String>, b: Option<String>) -> (out: Option<String>)
    ensures
        opt_text(out) == later(opt_text(a), opt_text(b)),
{
    match (a, b) {
        (Some(a), Some(b)) => if text_below(&b, &a) {
            Some(a)
        } else {
            Some(b)
        },
        (Some(a), None) => Some(a),
        (None, b) => b,
    }
}

/// What a listing with a prefix and a cursor shows of pairs in ascending key
/// order: the objects whose keys the filter takes. Keys that are not text and
/// values that are no object records are left out.
pub fn filter_objects(
    rows: &Vec<(Vec<u8>, Vec<u8>)>,
    start_after: Option<String>,
    prefix: Option<String>,
    continuation_token: Option<String>,
) -> (out: Vec<(String, Object)>)
    ensures
        listed(out@) == shown_all(
            pairs(rows@),
            opt_text(prefix),
            later(opt_text(continuation_token), opt_text(start_after)),
        ),
{
    let cursor = later_text(continuation_token, start_after);
    let ghost p = opt_text(prefix);
    let ghost c = opt_text(cursor);
    let ghost all = pairs(rows@);
    let mut out: Vec<(String, Object)> = Vec::new();
    let mut i: usize = 0;
    proof {
        assert(all.subrange(0, 0) =~= Seq::<(Seq<u8>, Seq<u8>)>::empty());
        assert(listed(out@) =~= Seq::<(Seq<char>, ObjectView)>::empty());
    }
    while i < rows.len()
        invariant
            i <= rows@.len(),
            all == pairs(rows@),
            p == opt_text(prefix),
            c == opt_text(cursor),
            listed(out@) == shown_all(all.subrange(0, i as int), p, c),
        decreases rows@.len() - i,
    {
        let ghost before = listed(out@);
        proof {
            let longer = all.subrange(0, i + 1);
            assert(longer.drop_last() =~= all.subrange(0, i as int));
            assert(longer.last() == (rows@[i as int].0@, rows@[i as int].1@));
        }
        if filter_takes(&rows[i].0, &prefix, &cursor) {
            match utf8_text(slice_to_vec(&rows[i].0)) {
                Ok(key) => match Object::try_from(&rows[i].1) {
                    Ok(object) => {
                        out.push((key, object));
                        proof {
                            assert(listed(out@) =~= before.push((key@, object@)));
                        }
                    },
                    Err(_) => {},
                },
                Err(_) => {},
            }
        }
        i = i + 1;
    }
    proof {
        assert(all.subrange(0, all.len() as int) =~= all);
    }
    out
}

/// A tree and the name it goes by.
struct NamedTree {
    name: String,
    tree: MemTree,
}

/// Where a tree of some name stands: the first place, where there are several.
spec fn find(trees: Seq<NamedTree>, name: Seq<char>) -> Option<int>
    decreases trees.len(),
{
    if trees.len() == 0 {
        None
    } else {
        match find(trees.drop_last(), name) {
            Some(i) => Some(i),
            None => if trees.last().name@ == name {
                Some(trees.len() - 1)
            } else {
                None
            },
        }
    }
}

/// The rows of all trees.
spec fn rows_of(trees: Seq<NamedTree>) -> Rows {
    Map::new(
        |at: (Seq<char>, Seq<u8>)|
            find(trees, at.0) is Some && trees[find(
                trees,
                at.0,
            ).unwrap()].tree.contents().contains_key(at.1),
        |at: (Seq<char>, Seq<u8>)| trees[find(trees, at.0).unwrap()].tree.contents()[at.1],
    )
}

/// The names of all trees.
spec fn names_of(trees: Seq<NamedTree>) -> Set<Seq<char>> {
    Set::new(|name: Seq<char>| find(trees, name) is Some)
}

proof fn lemma_find(trees: Seq<NamedTree>, name: Seq<char>)
    ensures
        match find(trees, name) {
            Some(i) => 0 <= i < trees.len() && trees[i].name@ == name && forall|j: int|
                0 <= j < i ==> (#[trigger] trees[j]).name@ != name,
            None => forall|j: int| 0 <= j < trees.len() ==> (#[trigger] trees[j]).name@ != name,
        },
    decreases trees.len(),
{
    if trees.len() > 0 {
        let init = trees.drop_last();
        lemma_find(init, name);
        match find(init, name) {
            Some(i) => {
                assert(init[i] == trees[i]);
                assert forall|j: int| 0 <= j < i implies (#[trigger] trees[j]).name@ != name by {
                    assert(init[j] == trees[j]);
                }
            },
            None => {
                assert forall|j: int| 0 <= j < trees.len() - 1 implies (
                #[trigger] trees[j]).name@ != name by {
                    assert(init[j] == trees[j]);
                }
            },
        }
    }
}

/// The place of a tree is fixed by what stands there and before it.
proof fn lemma_find_at(trees: Seq<NamedTree>, name: Seq<char>, i: int)
    requires
        0 <= i < trees.len(),
        trees[i].name@ == name,
        forall|j: int| 0 <= j < i ==> (#[trigger] trees[j]).name@ != name,
    ensures
        find(trees, name) == Some(i),
{
    lemma_find(trees, name);
}

/// Lists of trees with the same names in the same places agree on where a tree
/// stands.
proof fn lemma_find_same_names(a: Seq<NamedTree>, b: Seq<NamedTree>, name: Seq<char>)
    requires
        a.len() == b.len(),
        forall|i: int| 0 <= i < a.len() ==> (#[trigger] a[i]).name@ == (#[trigger] b[i]).name@,
    ensures
        find(a, name) == find(b, name),
{
    lemma_find(a, name);
    lemma_find(b, name);
    match find(a, name) {
        Some(i) => {
            assert(b[i].name@ == name);
            assert forall|j: int| 0 <= j < i implies (#[trigger] b[j]).name@ != name by {
                assert(a[j].name@ != name);
            }
            lemma_find_at(b, name, i);
        },
        None => {
            if let Some(i) = find(b, name) {
                assert(a[i].name@ == name);
            }
        },
    }
}

/// Looks for a tree by its name.
fn locate(trees: &Vec<NamedTree>, name: &str) -> (out: Option<usize>)
    ensures
        match out {
            Some(i) => find(trees@, name@) == Some(i as int) && i < trees@.len(),
            None => find(trees@, name@) is None,
        },
{
    let mut i: usize = 0;
    while i < trees.len()
        invariant
            i <= trees@.len(),
            forall|j: int| 0 <= j < i ==> (#[trigger] trees@[j]).name@ != name@,
        decreases trees@.len() - i,
    {
        if equal_text(&trees[i].name, name) {
            proof {
                lemma_find_at(trees@, name@, i as int);
            }
            return Some(i);
        }
        i = i + 1;
    }
    proof {
        lemma_find(trees@, name@);
    }
    None
}

/// A further tree with nothing in it adds its name and no row.
proof fn lemma_push_empty(trees: Seq<NamedTree>, added: NamedTree)
    requires
        find(trees, added.name@) is None,
        added.tree.contents() == Entries::empty(),
    ensures
        rows_of(trees.push(added)) == rows_of(trees),
        names_of(trees.push(added)) == names_of(trees).insert(added.name@),
        find(trees.push(added), added.name@) == Some(trees.len() as int),
{
    let longer = trees.push(added);
    assert(longer.drop_last() =~= trees);
    assert forall|name: Seq<char>| find(trees, name) is Some implies find(longer, name)
        == find(trees, name) by {}
    assert forall|at: (Seq<char>, Seq<u8>)|
        rows_of(longer).contains_key(at) <==> rows_of(trees).contains_key(at) by {
        lemma_find(trees, at.0);
    }
    assert forall|at: (Seq<char>, Seq<u8>)| rows_of(trees).contains_key(at) implies rows_of(
        longer,
    )[at] == rows_of(trees)[at] by {
        lemma_find(trees, at.0);
    }
    assert(rows_of(longer) =~= rows_of(trees));
    assert(names_of(longer) =~= names_of(trees).insert(added.name@));
}

/// Looks for a tree by its name, and adds an empty one where there is none.
fn ensure_tree(trees: &mut Vec<NamedTree>, name: &str) -> (at: usize)
    ensures
        at < final(trees)@.len(),
        find(final(trees)@, name@) == Some(at as int),
        rows_of(final(trees)@) == rows_of(old(trees)@),
        names_of(final(trees)@) == names_of(old(trees)@).insert(name@),
{
    match locate(trees, name) {
        Some(i) => {
            proof {
                assert(names_of(trees@) =~= names_of(trees@).insert(name@));
            }
            i
        },
        None => {
            let at: usize = trees.len();
            let added = NamedTree { name: name.to_owned(), tree: MemTree::new() };
            proof {
                lemma_push_empty(trees@, added);
            }
            trees.push(added);
            at
        },
    }
}

/// Replacing what a tree holds replaces its rows and nothing else.
proof fn lemma_replace_tree(before: Seq<NamedTree>, after: Seq<NamedTree>, name: Seq<char>, i: int)
    requires
        find(before, name) == Some(i),
        0 <= i < before.len(),
        before.len() == after.len(),
        forall|j: int|
            0 <= j < before.len() && j != i ==> #[trigger] after[j] == #[trigger] before[j],
        after[i].name == before[i].name,
    ensures
        rows_of(after) == with_tree(rows_of(before), name, after[i].tree.contents()),
        names_of(after) == names_of(before),
        tree_of(rows_of(before), name) == before[i].tree.contents(),
        find(after, name) == Some(i),
{
    assert forall|other: Seq<char>| find(after, other) == find(before, other) by {
        assert forall|j: int| 0 <= j < after.len() implies (#[trigger] after[j]).name@ == (
        #[trigger] before[j]).name@ by {
            if j == i {
                assert(after[i].name == before[i].name);
            }
        }
        lemma_find_same_names(after, before, other);
    }
    lemma_find(before, name);
    let want = with_tree(rows_of(before), name, after[i].tree.contents());
    assert forall|at: (Seq<char>, Seq<u8>)|
        rows_of(after).contains_key(at) <==> want.contains_key(at) by {
        lemma_find(before, at.0);
    }
    assert forall|at: (Seq<char>, Seq<u8>)| want.contains_key(at) implies rows_of(after)[at]
        == want[at] by {
        lemma_find(before, at.0);
    }
    assert(rows_of(after) =~= want);
    assert(names_of(after) =~= names_of(before));
    assert(tree_of(rows_of(before), name) =~= before[i].tree.contents());
}

/// Taking a tree out leaves the trees of other names.
proof fn lemma_remove_other(trees: Seq<NamedTree>, i: int, other: Seq<char>)
    requires
        0 <= i < trees.len(),
        trees[i].name@ != other,
    ensures
        match find(trees, other) {
            Some(j) => {
                let k = if j < i {
                    j
                } else {
                    j - 1
                };
                find(trees.remove(i), other) == Some(k) && trees.remove(i)[k] == trees[j]
            },
            None => find(trees.remove(i), other) is None,
        },
{
    let rest = trees.remove(i);
    lemma_find(trees, other);
    lemma_find(rest, other);
    match find(trees, other) {
        Some(j) => {
            let k = if j < i {
                j
            } else {
                j - 1
            };
            assert(rest[k] == trees[j]);
            assert forall|l: int| 0 <= l < k implies (#[trigger] rest[l]).name@ != other by {
                let m = if l < i {
                    l
                } else {
                    l + 1
                };
                assert(rest[l] == trees[m]);
            }
            lemma_find_at(rest, other, k);
        },
        None => {
            if let Some(k) = find(rest, other) {
                let m = if k < i {
                    k
                } else {
                    k + 1
                };
                assert(rest[k] == trees[m]);
            }
        },
    }
}

/// Copies trees.
fn copy_trees(trees: &Vec<NamedTree>) -> (out: Vec<NamedTree>)
    ensures
        rows_of(out@) == rows_of(trees@),
        names_of(out@) == names_of(trees@),
{
    let mut out: Vec<NamedTree> = Vec::new();
    let mut i: usize = 0;
    while i < trees.len()
        invariant
            i <= trees@.len(),
            out@.len() == i,
            forall|j: int|
                0 <= j < i ==> (#[trigger] out@[j]).name@ == trees@[j].name@
                    && out@[j].tree.contents() == trees@[j].tree.contents(),
        decreases trees@.len() - i,
    {
        out.push(NamedTree { name: trees[i].name.as_str().to_owned(), tree: trees[i].tree.copy() });
        i = i + 1;
    }
    proof {
        assert forall|name: Seq<char>| find(out@, name) == find(trees@, name) by {
            lemma_find_same_names(out@, trees@, name);
        }
        assert forall|at: (Seq<char>, Seq<u8>)|
            rows_of(out@).contains_key(at) <==> rows_of(trees@).contains_key(at) by {
            lemma_find(trees@, at.0);
        }
        assert forall|at: (Seq<char>, Seq<u8>)| rows_of(out@).contains_key(at) implies rows_of(
            out@,
        )[at] == rows_of(trees@)[at] by {
            lemma_find(trees@, at.0);
        }
        assert(rows_of(out@) =~= rows_of(trees@));
        assert(names_of(out@) =~= names_of(trees@));
    }
    out
}

/// A store that lives in memory: the committed trees, and the working copy of
/// an open transaction.
pub struct MemStore {
    base: Vec<NamedTree>,
    work: Vec<NamedTree>,
}

impl MemStore {
    /// A store with no trees.
    pub fn new() -> (store: Self)
        ensures
            store.committed() == Rows::empty(),
            store.names() == Set::<Seq<char>>::empty(),
    {
        let store = MemStore { base: Vec::new(), work: Vec::new() };
        proof {
            assert(store.committed() =~= Rows::empty());
            assert(store.names() =~= Set::<Seq<char>>::empty());
        }
        store
    }
}

impl TransactionBackend for MemStore {
    closed spec fn committed(&self) -> Rows {
        rows_of(self.base@)
    }

    closed spec fn staged(&self) -> Rows {
        rows_of(self.work@)
    }

    closed spec fn names(&self) -> Set<Seq<char>> {
        names_of(self.base@)
    }

    open spec fn healthy(&self) -> bool {
        true
    }

    fn begin(&mut self) {
        self.work = copy_trees(&self.base);
    }

    fn commit(&mut self) -> (out: Result<(), MetaError>) {
        let mut i: usize = 0;
        while i < self.base.len()
            invariant
                i <= self.base@.len(),
                self.base == old(self).base,
                rows_of(self.work@) == rows_of(old(self).work@),
                forall|j: int|
                    0 <= j < i ==> names_of(self.work@).contains((#[trigger] self.base@[j]).name@),
            decreases self.base@.len() - i,
        {
            let _at = ensure_tree(&mut self.work, &self.base[i].name);
            i = i + 1;
        }
        proof {
            assert forall|name: Seq<char>| names_of(self.base@).contains(name) implies names_of(
                self.work@,
            ).contains(name) by {
                lemma_find(self.base@, name);
            }
        }
        let mut trees: Vec<NamedTree> = Vec::new();
        std::mem::swap(&mut trees, &mut self.work);
        self.base = trees;
        Ok(())
    }

    fn rollback(&mut self) {
        self.work = copy_trees(&self.base);
    }

    fn get(&mut self, tree_name: &str, key: &[u8]) -> (out: Result<Option<Vec<u8>>, MetaError>) {
        let _at: usize = ensure_tree(&mut self.base, tree_name);
        match locate(&self.work, tree_name) {
            Some(i) => self.work[i].tree.get(key),
            None => Ok(None),
        }
    }

    fn insert(&mut self, tree_name: &str, key: &[u8], data: Vec<u8>) -> (out: Result<
        (),
        MetaError,
    >) {
        let _at: usize = ensure_tree(&mut self.base, tree_name);
        let i: usize = ensure_tree(&mut self.work, tree_name);
        let ghost before = self.work@;
        let ghost value = data@;
        let out = self.work[i].tree.insert(key, data);
        proof {
            lemma_replace_tree(before, self.work@, tree_name@, i as int);
            assert(rows_of(self.work@) =~= rows_of(before).insert((tree_name@, key@), value));
        }
        out
    }

    fn remove(&mut self, tree_name: &str, key: &[u8]) -> (out: Result<(), MetaError>) {
        let _at: usize = ensure_tree(&mut self.base, tree_name);
        let ghost before = self.work@;
        match locate(&self.work, tree_name) {
            Some(i) => {
                let _gone = self.work[i].tree.remove(key);
                proof {
                    lemma_replace_tree(before, self.work@, tree_name@, i as int);
                    assert(rows_of(self.work@) =~= rows_of(before).remove((tree_name@, key@)));
                }
            },
            None => {
                proof {
                    assert(rows_of(self.work@) =~= rows_of(before).remove((tree_name@, key@)));
                }
            },
        }
        Ok(())
    }
}

impl Store for MemStore {
    type Tree = MemTree;

    fn tree_open(&mut self, name: &str) -> (out: Result<&mut MemTree, MetaError>) {
        let i: usize = ensure_tree(&mut self.base, name);
        proof {
            let before = self.base@;
            lemma_replace_tree(before, before, name@, i as int);
            assert forall|after: Seq<NamedTree>, tree: MemTree|
                after == before.update(i as int, NamedTree { tree, ..before[i as int] }) implies (
            #[trigger] rows_of(after)) == #[trigger] with_tree(
                rows_of(before),
                name@,
                tree.contents(),
            ) && names_of(after) == names_of(before) by {
                lemma_replace_tree(before, after, name@, i as int);
            }
        }
        Ok(&mut self.base[i].tree)
    }

    fn tree_ext_open(&mut self, name: &str) -> (out: Result<&MemTree, MetaError>) {
        let i: usize = ensure_tree(&mut self.base, name);
        proof {
            lemma_replace_tree(self.base@, self.base@, name@, i as int);
        }
        Ok(&self.base[i].tree)
    }

    fn tree_find(&self, name: &str) -> (out: Result<Option<&MemTree>, MetaError>) {
        match locate(&self.base, name) {
            Some(i) => {
                proof {
                    lemma_replace_tree(self.base@, self.base@, name@, i as int);
                }
                Ok(Some(&self.base[i].tree))
            },
            None => {
                proof {
                    assert(tree_of(self.committed(), name@) =~= Entries::empty());
                }
                Ok(None)
            },
        }
    }

    fn tree_exists(&self, name: &str) -> (out: Result<bool, MetaError>) {
        match locate(&self.base, name) {
            Some(_) => Ok(true),
            None => Ok(false),
        }
    }

    fn num_keys(&mut self, tree_name: &str) -> (out: Result<usize, MetaError>) {
        let i: usize = ensure_tree(&mut self.base, tree_name);
        proof {
            lemma_replace_tree(self.base@, self.base@, tree_name@, i as int);
        }
        self.base[i].tree.len()
    }

    fn list_trees(&self) -> (out: Result<Vec<String>, MetaError>) {
        let mut out: Vec<String> = Vec::new();
        let mut i: usize = 0;
        while i < self.base.len()
            invariant
                i <= self.base@.len(),
                forall|j: int|
                    0 <= j < out@.len() ==> self.names().contains((#[trigger] out@[j])@),
                forall|j: int|
                    0 <= j < i ==> exists|k: int|
                        0 <= k < out@.len() && (#[trigger] out@[k])@ == (
                        #[trigger] self.base@[j]).name@,
                forall|j: int, k: int|
                    0 <= j < k < out@.len() ==> (#[trigger] out@[j])@ != (#[trigger] out@[k])@,
            decreases self.base@.len() - i,
        {
            let ghost before = out@;
            let name = self.base[i].name.as_str();
            proof {
                lemma_find(self.base@, name@);
            }
            if !contains_text(&out, name) {
                out.push(name.to_owned());
                proof {
                    assert forall|j: int, k: int| 0 <= j < k < out@.len() implies (
                    #[trigger] out@[j])@ != (#[trigger] out@[k])@ by {
                        if k == out@.len() - 1 {
                            assert(out@[j] == before[j]);
                        }
                    }
                    assert forall|j: int| 0 <= j < i + 1 implies exists|k: int|
                        0 <= k < out@.len() && (#[trigger] out@[k])@ == (
                        #[trigger] self.base@[j]).name@ by {
                        if j < i {
                            let k = choose|k: int|
                                0 <= k < before.len() && (#[trigger] before[k])@
                                    == self.base@[j].name@;
                            assert(out@[k] == before[k]);
                        } else {
                            assert(out@[out@.len() - 1]@ == name@);
                        }
                    }
                }
            }
            i = i + 1;
        }
        proof {
            assert forall|name: Seq<char>| #[trigger] self.names().contains(name) implies exists|
                k: int,
            |
                0 <= k < out@.len() && (#[trigger] out@[k])@ == name by {
                lemma_find(self.base@, name);
                let at = find(self.base@, name).unwrap();
                assert(self.base@[at].name@ == name);
            }
            assert forall|at: (Seq<char>, Seq<u8>)| #[trigger]
                self.committed().contains_key(at) implies self.names().contains(at.0) by {}
            assert(lists_names(out@, self.names()));
        }
        Ok(out)
    }

    fn tree_delete(&mut self, name: &str) -> (out: Result<(), MetaError>) {
        let ghost rows = rows_of(self.base@);
        let ghost names = names_of(self.base@);
        let mut more = true;
        while more
            invariant
                forall|at: (Seq<char>, Seq<u8>)|
                    at.0 != name@ ==> (#[trigger] rows_of(self.base@).contains_key(at)
                        <==> rows.contains_key(at)),
                forall|at: (Seq<char>, Seq<u8>)|
                    at.0 != name@ && #[trigger] rows_of(self.base@).contains_key(at) ==> rows_of(
                        self.base@,
                    )[at] == rows[at],
                forall|other: Seq<char>|
                    other != name@ ==> (#[trigger] names_of(self.base@).contains(other)
                        <==> names.contains(other)),
                !more ==> find(self.base@, name@) is None,
            decreases self.base@.len() + (if more { 1int } else { 0 }),
        {
            match locate(&self.base, name) {
                Some(i) => {
                    proof {
                        lemma_find(self.base@, name@);
                        assert forall|at: (Seq<char>, Seq<u8>)| at.0 != name@ implies (
                        #[trigger] rows_of(self.base@.remove(i as int)).contains_key(at)
                            <==> rows.contains_key(at)) && (rows_of(
                            self.base@.remove(i as int),
                        ).contains_key(at) ==> rows_of(self.base@.remove(i as int))[at]
                            == rows[at]) by {
                            lemma_remove_other(self.base@, i as int, at.0);
                            assert(rows_of(self.base@).contains_key(at) <==> rows.contains_key(at));
                        }
                        assert forall|other: Seq<char>| other != name@ implies (
                        #[trigger] names_of(self.base@.remove(i as int)).contains(other)
                            <==> names.contains(other)) by {
                            lemma_remove_other(self.base@, i as int, other);
                            assert(names_of(self.base@).contains(other) <==> names.contains(other));
                        }
                    }
                    let _gone = self.base.remove(i);
                },
                None => {
                    more = false;
                },
            }
        }
        proof {
            assert(rows_of(self.base@) =~= with_tree(rows, name@, Entries::empty()));
            assert(names_of(self.base@) =~= names.remove(name@));
        }
        Ok(())
    }

    fn disk_space(&self) -> (bytes: u64)
        ensures
            bytes == 0,
    {
        0
    }
}

/// Whether a list of texts holds a text.
pub fn contains_text(list: &Vec<String>, text: &str) -> (yes: bool)
    ensures
        yes == exists|i: int| 0 <= i < list@.len() && (#[trigger] list@[i])@ == text@,
{
    let mut i: usize = 0;
    while i < list.len()
        invariant
            i <= list@.len(),
            forall|j: int| 0 <= j < i ==> (#[trigger] list@[j])@ != text@,
        decreases list@.len() - i,
    {
        if equal_text(&list[i], text) {
            return true;
        }
        i = i + 1;
    }
    false
}

} // verus!
