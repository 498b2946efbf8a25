//! The trees of a store as the walkers see them: their names in order, and
//! their rows.

use vstd::prelude::*;
use vstd::string::*;
use vstd::utf8::*;

use crate::bytes::{
    ascending, bytes_lt, lemma_ascending_same, lemma_bytes_lt_total, lemma_bytes_lt_transitive,
};
use crate::metastore::errors::MetaError;
use crate::metastore::meta_store::ops::{has_reserved_prefix, is_reserved_name};
use crate::metastore::meta_store::MetaStore;
use crate::metastore::traits::{
    is_listed, lemma_listing, listing, lists, lists_names, pairs, rows_in, tree_of, KeyValuePairs,
    MetaTreeExt, Store, TransactionBackend,
};
use crate::text::{equal_text, text_below, text_lt};

verus! {

/// A prefix that is one longer ends in the next element.
pub proof fn lemma_prefix<T>(list: Seq<T>, i: int)
    requires
        0 <= i < list.len(),
    ensures
        list.subrange(0, i + 1).drop_last() == list.subrange(0, i),
        list.subrange(0, i + 1).last() == list[i],
{
    assert(list.subrange(0, i + 1).drop_last() =~= list.subrange(0, i));
}

/// Texts by their contents.
pub open spec fn text_views(list: Seq<String>) -> Seq<Seq<char>> {
    list.map_values(|t: String| t@)
}

/// Whether texts stand in strictly ascending order.
pub open spec fn text_order(list: Seq<Seq<char>>) -> bool {
    forall|i: int, j: int|
        0 <= i < j < list.len() ==> text_lt(#[trigger] list[i], #[trigger] list[j])
}

/// Whether a list names each text of a set once, in ascending order.
pub open spec fn lists_sorted(list: Seq<Seq<char>>, set: Set<Seq<char>>) -> bool {
    &&& text_order(list)
    &&& forall|t: Seq<char>| #[trigger] list.contains(t) <==> set.contains(t)
}

/// The texts of a set in ascending order.
pub open spec fn sorted(set: Set<Seq<char>>) -> Seq<Seq<char>> {
    choose|list: Seq<Seq<char>>| lists_sorted(list, set)
}

/// A set has one ascending list.
pub proof fn lemma_sorted(list: Seq<Seq<char>>, set: Set<Seq<char>>)
    requires
        lists_sorted(list, set),
    ensures
        sorted(set) == list,
{
    let other = sorted(set);
    assert(lists_sorted(other, set));
    let a = list.map_values(|t: Seq<char>| encode_utf8(t));
    let b = other.map_values(|t: Seq<char>| encode_utf8(t));
    assert(ascending(a)) by {
        assert forall|i: int, j: int| 0 <= i < j < a.len() implies bytes_lt(
            #[trigger] a[i],
            #[trigger] a[j],
        ) by {
            assert(text_lt(list[i], list[j]));
        }
    }
    assert(ascending(b)) by {
        assert forall|i: int, j: int| 0 <= i < j < b.len() implies bytes_lt(
            #[trigger] b[i],
            #[trigger] b[j],
        ) by {
            assert(text_lt(other[i], other[j]));
        }
    }
    assert forall|key: Seq<u8>| #[trigger] a.contains(key) <==> b.contains(key) by {
        if a.contains(key) {
            let i = choose|i: int| 0 <= i < a.len() && a[i] == key;
            assert(list.contains(list[i]));
            assert(other.contains(list[i]));
            let j = choose|j: int| 0 <= j < other.len() && other[j] == list[i];
            assert(b[j] == key);
        }
        if b.contains(key) {
            let i = choose|i: int| 0 <= i < b.len() && b[i] == key;
            assert(other.contains(other[i]));
            assert(list.contains(other[i]));
            let j = choose|j: int| 0 <= j < list.len() && list[j] == other[i];
            assert(a[j] == key);
        }
    }
    lemma_ascending_same(a, b);
    assert forall|i: int| 0 <= i < list.len() implies list[i] == other[i] by {
        assert(a[i] == b[i]);
        encode_utf8_decode_utf8(list[i]);
        encode_utf8_decode_utf8(other[i]);
    }
    assert(list =~= other);
}

/// Puts a text into an ascending list, where it is not there yet.
pub fn put_sorted(list: &mut Vec<String>, text: String)
    requires
        text_order(text_views(old(list)@)),
    ensures
        text_order(text_views(final(list)@)),
        forall|t: Seq<char>| #[trigger]
            text_views(final(list)@).contains(t) <==> text_views(old(list)@).contains(t) || t
                == text@,
{
    let ghost before = text_views(list@);
    let mut at: usize = 0;
    while at < list.len() && text_below(&list[at], &text)
        invariant
            at <= list@.len(),
            *list == *old(list),
            forall|i: int| 0 <= i < at ==> text_lt((#[trigger] list@[i])@, text@),
        decreases list@.len() - at,
    {
        at = at + 1;
    }
    if at < list.len() && equal_text(&list[at], &text) {
        proof {
            assert(before[at as int] == text@);
        }
        return;
    }
    proof {
        assert forall|i: int| at <= i < before.len() implies text_lt(
            text@,
            #[trigger] before[i],
        ) by {
            lemma_bytes_lt_total(encode_utf8(text@), encode_utf8(before[at as int]));
            encode_utf8_decode_utf8(text@);
            encode_utf8_decode_utf8(before[at as int]);
            if i > at {
                assert(text_lt(before[at as int], before[i]));
                lemma_bytes_lt_transitive(
                    encode_utf8(text@),
                    encode_utf8(before[at as int]),
                    encode_utf8(before[i]),
                );
            }
        }
    }
    list.insert(at, text);
    proof {
        let after = text_views(list@);
        assert(after =~= before.insert(at as int, text@));
        assert forall|i: int, j: int| 0 <= i < j < after.len() implies text_lt(
            #[trigger] after[i],
            #[trigger] after[j],
        ) by {
            let bi = if i < at { i } else { i - 1 };
            let bj = if j < at { j } else { j - 1 };
            if i != at && j != at {
                assert(text_lt(before[bi], before[bj]));
            } else if i == at {
                assert(text_lt(text@, before[bj]));
            } else {
                assert(before[i] == old(list)@[i]@);
                assert(text_lt(before[i], text@));
            }
        }
        assert forall|t: Seq<char>| #[trigger] after.contains(t) <==> before.contains(t) || t
            == text@ by {
            if before.contains(t) {
                let b = choose|b: int| 0 <= b < before.len() && before[b] == t;
                let i = if b < at { b } else { b + 1 };
                assert(after[i] == t);
            }
            if t == text@ {
                assert(after[at as int] == t);
            }
            if after.contains(t) {
                let i = choose|i: int| 0 <= i < after.len() && after[i] == t;
                if i < at {
                    assert(before[i] == t);
                } else if i > at {
                    assert(before[i - 1] == t);
                }
            }
        }
    }
}

/// The trees of a namespace that are not the store's own.
pub open spec fn object_names(names: Set<Seq<char>>) -> Set<Seq<char>> {
    names.filter(|name: Seq<char>| !is_reserved_name(name))
}

/// The names of the object trees of a namespace, in ascending order. A bucket
/// whose row is gone still has its tree, so the trees are asked for and not the
/// bucket rows.
pub fn object_trees<S: Store>(namespace: &MetaStore<S>) -> (out: Result<Vec<String>, MetaError>)
    ensures
        out matches Ok(list) ==> text_views(list@) == sorted(object_names(namespace.store.names()))
            && text_order(text_views(list@)) && (forall|name: Seq<char>| #[trigger]
            text_views(list@).contains(name) <==> object_names(namespace.store.names()).contains(
                name,
            )) && rows_in(namespace.store.committed(), namespace.store.names()),
        namespace.store.healthy() ==> out is Ok,
{
    let all = match namespace.list_trees() {
        Ok(all) => all,
        Err(e) => {
            return Err(e);
        },
    };
    let ghost names = namespace.store.names();
    let mut list: Vec<String> = Vec::new();
    let mut i: usize = 0;
    while i < all.len()
        invariant
            i <= all@.len(),
            lists_names(all@, names),
            text_order(text_views(list@)),
            forall|t: Seq<char>| #[trigger]
                text_views(list@).contains(t) ==> object_names(names).contains(t),
            forall|j: int|
                0 <= j < i && !is_reserved_name((#[trigger] all@[j])@) ==> text_views(
                    list@,
                ).contains(all@[j]@),
        decreases all@.len() - i,
    {
        if !has_reserved_prefix(&all[i]) {
            put_sorted(&mut list, all[i].as_str().to_owned());
        }
        i = i + 1;
    }
    proof {
        assert forall|t: Seq<char>| #[trigger] text_views(list@).contains(t) <==> object_names(
            names,
        ).contains(t) by {
            if object_names(names).contains(t) {
                assert(names.contains(t));
                let j = choose|j: int| 0 <= j < all@.len() && (#[trigger] all@[j])@ == t;
                assert(all@[j]@ == t);
            }
        }
        lemma_sorted(text_views(list@), object_names(names));
    }
    Ok(list)
}

/// The rows of a tree in ascending key order; none where the store does not
/// have it.
pub fn tree_rows<S: Store>(meta: &MetaStore<S>, name: &str) -> (out: Result<
    KeyValuePairs,
    MetaError,
>)
    ensures
        out matches Ok(list) ==> pairs(list@) == listing(tree_of(meta.store.committed(), name@))
            && is_listed(tree_of(meta.store.committed(), name@)),
        meta.store.healthy() ==> out is Ok,
{
    let ghost entries = tree_of(meta.store.committed(), name@);
    match meta.find_tree(name) {
        Err(e) => Err(e),
        Ok(None) => {
            let none: KeyValuePairs = Vec::new();
            proof {
                assert(lists(pairs(none@), entries));
                lemma_listing(pairs(none@), entries);
            }
            Ok(none)
        },
        Ok(Some(tree)) => match tree.iter_all() {
            Err(e) => Err(e),
            Ok(rows) => {
                proof {
                    lemma_listing(pairs(rows@), entries);
                }
                Ok(rows)
            },
        },
    }
}

} // verus!
