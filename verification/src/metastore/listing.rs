//! What holds of walks and listings with a cursor.

use vstd::prelude::*;
use vstd::utf8::*;

use super::errors::FsError;
use super::object::{decode_object, ObjectView};
use super::traits::{
    entries_after, entries_before, later, listing, lists, shown, shown_all, takes_key, Entries,
};
use crate::answers::{
    answers, lemma_answers_grow, lemma_item_asked, lemma_items_apart, lemma_place_answered,
};
use crate::bytes::{
    bytes_lt, differs_below, lemma_bytes_lt_asymmetric, lemma_bytes_lt_irreflexive,
    lemma_bytes_lt_total, lemma_bytes_lt_transitive, starts_with,
};
use crate::scrub::trees::lemma_prefix;

verus! {

/// A cursor is exclusive in both directions: the entries behind a key, those
/// before it and the one at it are all entries, and none of them twice.
pub proof fn lemma_cursor_splits(entries: Entries, at: Seq<u8>, key: Seq<u8>)
    ensures
        ({
            let after = entries_after(entries, Some(at));
            let before = entries_before(entries, Some(at));
            &&& entries.contains_key(key) <==> after.contains_key(key) || before.contains_key(key)
                || (key == at && entries.contains_key(at))
            &&& !(after.contains_key(key) && before.contains_key(key))
            &&& !after.contains_key(at) && !before.contains_key(at)
        }),
{
    lemma_bytes_lt_total(at, key);
    lemma_bytes_lt_irreflexive(at);
    if bytes_lt(at, key) {
        lemma_bytes_lt_asymmetric(at, key);
    }
}

proof fn lemma_below_prefix(cursor: Seq<u8>, prefix: Seq<u8>, key: Seq<u8>)
    requires
        bytes_lt(cursor, prefix),
        starts_with(key, prefix),
    ensures
        bytes_lt(cursor, key),
{
    let k = choose|k: int| differs_below(cursor, prefix, k);
    assert forall|i: int| 0 <= i < prefix.len() implies key[i] == prefix[i] by {
        assert(key.subrange(0, prefix.len() as int)[i] == prefix[i]);
    }
    assert(differs_below(cursor, key, k));
}

proof fn lemma_behind_prefix(cursor: Seq<u8>, prefix: Seq<u8>, key: Seq<u8>)
    requires
        bytes_lt(prefix, cursor),
        !starts_with(cursor, prefix),
        starts_with(key, prefix),
    ensures
        bytes_lt(key, cursor),
{
    let k = choose|k: int| differs_below(prefix, cursor, k);
    assert forall|i: int| 0 <= i < prefix.len() implies key[i] == prefix[i] by {
        assert(key.subrange(0, prefix.len() as int)[i] == prefix[i]);
    }
    if k == prefix.len() {
        assert(cursor.subrange(0, prefix.len() as int) =~= prefix);
    }
    assert(differs_below(key, cursor, k));
}

/// A listing takes the keys that carry its prefix and lie behind its cursor,
/// wherever the cursor lies.
pub proof fn lemma_takes_key(key: Seq<u8>, prefix: Option<Seq<char>>, cursor: Seq<char>)
    ensures
        takes_key(key, prefix, Some(cursor)) <==> takes_key(key, prefix, None) && bytes_lt(
            encode_utf8(cursor),
            key,
        ),
{
    match prefix {
        None => {},
        Some(prefix) => {
            let p = encode_utf8(prefix);
            let c = encode_utf8(cursor);
            if starts_with(key, p) {
                lemma_bytes_lt_total(c, p);
                if bytes_lt(c, p) {
                    lemma_below_prefix(c, p, key);
                } else if c == p {
                    assert(c.subrange(0, p.len() as int) =~= p);
                } else if !starts_with(c, p) {
                    lemma_behind_prefix(c, p, key);
                    lemma_bytes_lt_asymmetric(key, c);
                }
            }
        },
    }
}

/// Whether what is shown of a list starts at position `n` where there is a
/// cursor.
spec fn cut(
    full: Seq<(Seq<char>, ObjectView)>,
    part: Seq<(Seq<char>, ObjectView)>,
    cursor: Seq<u8>,
    n: int,
) -> bool {
    &&& 0 <= n <= full.len()
    &&& part == full.subrange(n, full.len() as int)
    &&& forall|j: int|
        0 <= j < full.len() ==> (n <= j <==> bytes_lt(cursor, encode_utf8((#[trigger] full[j]).0)))
}

/// Whether everything shown of a list is below a key.
spec fn all_below(full: Seq<(Seq<char>, ObjectView)>, key: Seq<u8>) -> bool {
    forall|j: int|
        0 <= j < full.len() ==> bytes_lt(encode_utf8((#[trigger] full[j]).0), key)
}

spec fn keys_ascend(list: Seq<(Seq<u8>, Seq<u8>)>) -> bool {
    forall|i: int, j: int|
        0 <= i < j < list.len() ==> bytes_lt((#[trigger] list[i]).0, (#[trigger] list[j]).0)
}

proof fn lemma_shown_below(list: Seq<(Seq<u8>, Seq<u8>)>, prefix: Option<Seq<char>>, key: Seq<u8>)
    requires
        forall|i: int| 0 <= i < list.len() ==> bytes_lt((#[trigger] list[i]).0, key),
    ensures
        all_below(shown_all(list, prefix, None), key),
    decreases list.len(),
{
    if list.len() > 0 {
        let init = list.drop_last();
        assert forall|i: int| 0 <= i < init.len() implies bytes_lt(
            (#[trigger] init[i]).0,
            key,
        ) by {
            assert(init[i] == list[i]);
        }
        lemma_shown_below(init, prefix, key);
        let last = list[list.len() - 1];
        assert(bytes_lt(last.0, key));
        if shown(last, prefix, None) is Some {
            decode_utf8_encode_utf8(last.0);
        }
    }
}

proof fn lemma_shown_ascends(list: Seq<(Seq<u8>, Seq<u8>)>, prefix: Option<Seq<char>>)
    requires
        keys_ascend(list),
    ensures
        ({
            let full = shown_all(list, prefix, None);
            forall|i: int, j: int|
                0 <= i < j < full.len() ==> bytes_lt(
                    encode_utf8((#[trigger] full[i]).0),
                    encode_utf8((#[trigger] full[j]).0),
                )
        }),
    decreases list.len(),
{
    if list.len() > 0 {
        let init = list.drop_last();
        let last = list[list.len() - 1];
        assert(keys_ascend(init)) by {
            assert forall|i: int, j: int| 0 <= i < j < init.len() implies bytes_lt(
                (#[trigger] init[i]).0,
                (#[trigger] init[j]).0,
            ) by {
                assert(init[i] == list[i] && init[j] == list[j]);
            }
        }
        lemma_shown_ascends(init, prefix);
        assert forall|i: int| 0 <= i < init.len() implies bytes_lt(
            (#[trigger] init[i]).0,
            last.0,
        ) by {
            assert(init[i] == list[i]);
        }
        lemma_shown_below(init, prefix, last.0);
        if shown(last, prefix, None) is Some {
            decode_utf8_encode_utf8(last.0);
        }
    }
}

proof fn lemma_cut(
    list: Seq<(Seq<u8>, Seq<u8>)>,
    prefix: Option<Seq<char>>,
    cursor: Seq<char>,
) -> (n: int)
    requires
        keys_ascend(list),
    ensures
        cut(
            shown_all(list, prefix, None),
            shown_all(list, prefix, Some(cursor)),
            encode_utf8(cursor),
            n,
        ),
    decreases list.len(),
{
    let full = shown_all(list, prefix, None);
    let part = shown_all(list, prefix, Some(cursor));
    let c = encode_utf8(cursor);
    if list.len() == 0 {
        assert(part =~= full.subrange(0, 0));
        0
    } else {
        let init = list.drop_last();
        let last = list[list.len() - 1];
        assert(keys_ascend(init)) by {
            assert forall|i: int, j: int| 0 <= i < j < init.len() implies bytes_lt(
                (#[trigger] init[i]).0,
                (#[trigger] init[j]).0,
            ) by {
                assert(init[i] == list[i] && init[j] == list[j]);
            }
        }
        let n = lemma_cut(init, prefix, cursor);
        let full_init = shown_all(init, prefix, None);
        let part_init = shown_all(init, prefix, Some(cursor));
        lemma_takes_key(last.0, prefix, cursor);
        assert forall|i: int| 0 <= i < init.len() implies bytes_lt(
            (#[trigger] init[i]).0,
            last.0,
        ) by {
            assert(init[i] == list[i]);
        }
        lemma_shown_below(init, prefix, last.0);
        match shown(last, prefix, None) {
            None => {
                assert(full == full_init && part == part_init);
                n
            },
            Some(item) => {
                decode_utf8_encode_utf8(last.0);
                assert(full == full_init.push(item));
                if bytes_lt(c, last.0) {
                    assert(part == part_init.push(item));
                    assert(part =~= full.subrange(n, full.len() as int));
                    assert(cut(full, part, c, n)) by {
                        assert forall|j: int| 0 <= j < full.len() implies (n <= j <==> bytes_lt(
                            c,
                            encode_utf8((#[trigger] full[j]).0),
                        )) by {
                            if j < full_init.len() {
                                assert(full[j] == full_init[j]);
                            }
                        }
                    }
                    n
                } else {
                    if n < full_init.len() {
                        assert(bytes_lt(c, encode_utf8(full_init[n].0)));
                        assert(bytes_lt(encode_utf8(full_init[n].0), last.0));
                        lemma_bytes_lt_transitive(c, encode_utf8(full_init[n].0), last.0);
                    }
                    assert(part =~= full.subrange(full.len() as int, full.len() as int));
                    assert forall|j: int| 0 <= j < full.len() implies !bytes_lt(
                        c,
                        encode_utf8((#[trigger] full[j]).0),
                    ) by {
                        if j < full_init.len() {
                            assert(full[j] == full_init[j]);
                        }
                    }
                    full.len() as int
                }
            },
        }
    }
}

/// A listing that is resumed at a key it has shown goes on with what came behind
/// that key: page after page, everything is shown once.
pub proof fn lemma_listing_resumes(entries: Entries, prefix: Option<Seq<char>>, i: int)
    requires
        lists(listing(entries), entries),
        0 <= i < shown_all(listing(entries), prefix, None).len(),
    ensures
        ({
            let full = shown_all(listing(entries), prefix, None);
            shown_all(listing(entries), prefix, Some(full[i].0)) == full.subrange(
                i + 1,
                full.len() as int,
            )
        }),
{
    let list = listing(entries);
    let full = shown_all(list, prefix, None);
    let at = encode_utf8(full[i].0);
    assert(keys_ascend(list));
    let n = lemma_cut(list, prefix, full[i].0);
    lemma_shown_ascends(list, prefix);
    lemma_bytes_lt_irreflexive(at);
    assert(!(n <= i));
    if i + 1 < full.len() {
        assert(bytes_lt(encode_utf8(full[i].0), encode_utf8(full[i + 1].0)));
    }
    assert(n == i + 1);
}

proof fn lemma_shown_answer(
    list: Seq<(Seq<u8>, Seq<u8>)>,
    prefix: Option<Seq<char>>,
    cursor: Option<Seq<char>>,
)
    ensures
        answers(
            shown_all(list, prefix, cursor),
            list.len() as int,
            |i: int| shown(list[i], prefix, cursor) is Some,
            |i: int, y: (Seq<char>, ObjectView)| shown(list[i], prefix, cursor) == Some(y),
        ),
{
    let n = list.len() as int;
    let asked = |i: int| shown(list[i], prefix, cursor) is Some;
    let fits = |i: int, y: (Seq<char>, ObjectView)| shown(list[i], prefix, cursor) == Some(y);
    let grown = |i: int| shown_all(list.subrange(0, i), prefix, cursor);
    assert forall|i: int| 0 <= i < n implies if asked(i) {
        &&& (#[trigger] grown(i + 1)) == grown(i).push(grown(i + 1).last())
        &&& fits(i, grown(i + 1).last())
    } else {
        grown(i + 1) == grown(i)
    } by {
        lemma_prefix(list, i);
    }
    assert(list.subrange(0, 0) =~= Seq::<(Seq<u8>, Seq<u8>)>::empty());
    lemma_answers_grow(grown, n, asked, fits);
    assert(list.subrange(0, n) =~= list);
}

/// Whether bytes begin with others.
pub open spec fn begins(bytes: Seq<u8>, with: Seq<u8>) -> bool {
    with.len() <= bytes.len() && forall|i: int| 0 <= i < with.len() ==> bytes[i] == with[i]
}

/// A listing is complete and shows nothing else: a key stands in it with an object
/// exactly where the tree has an entry under the bytes of that key whose value
/// decodes to that object, of whatever kind; the key begins with the prefix, where
/// there is one; and it lies behind each of the two cursors, where there are any.
/// Keys ascend, so that none is there twice.
pub proof fn lemma_listing_complete(
    entries: Entries,
    start_after: Option<Seq<char>>,
    prefix: Option<Seq<char>>,
    token: Option<Seq<char>>,
)
    requires
        lists(listing(entries), entries),
    ensures
        forall|key: Seq<char>, object: ObjectView| #[trigger]
            shown_all(listing(entries), prefix, later(token, start_after)).contains(
                (key, object),
            ) <==> {
                let at = encode_utf8(key);
                &&& entries.contains_key(at)
                &&& decode_object(entries[at]) == Ok::<ObjectView, FsError>(object)
                &&& prefix matches Some(p) ==> begins(at, encode_utf8(p))
                &&& start_after matches Some(c) ==> bytes_lt(encode_utf8(c), at)
                &&& token matches Some(c) ==> bytes_lt(encode_utf8(c), at)
            },
        forall|i: int, j: int|
            0 <= i < j < shown_all(listing(entries), prefix, later(token, start_after)).len()
                ==> bytes_lt(
                encode_utf8(
                    (#[trigger] shown_all(listing(entries), prefix, later(token, start_after))[i]).0,
                ),
                encode_utf8(
                    (#[trigger] shown_all(listing(entries), prefix, later(token, start_after))[j]).0,
                ),
            ),
{
    let list = listing(entries);
    let cursor = later(token, start_after);
    let out = shown_all(list, prefix, cursor);
    let n = list.len() as int;
    let asked = |i: int| shown(list[i], prefix, cursor) is Some;
    let fits = |i: int, y: (Seq<char>, ObjectView)| shown(list[i], prefix, cursor) == Some(y);
    lemma_shown_answer(list, prefix, cursor);
    assert forall|key: Seq<char>, object: ObjectView| #[trigger] out.contains((key, object)) <==> {
        let at = encode_utf8(key);
        &&& entries.contains_key(at)
        &&& decode_object(entries[at]) == Ok::<ObjectView, FsError>(object)
        &&& prefix matches Some(p) ==> begins(at, encode_utf8(p))
        &&& start_after matches Some(c) ==> bytes_lt(encode_utf8(c), at)
        &&& token matches Some(c) ==> bytes_lt(encode_utf8(c), at)
    } by {
        let at = encode_utf8(key);
        lemma_taken(at, prefix, start_after, token);
        encode_utf8_decode_utf8(key);
        encode_utf8_valid_utf8(key);
        if out.contains((key, object)) {
            let k = choose|k: int| 0 <= k < out.len() && out[k] == (key, object);
            let i = lemma_item_asked(out, n, asked, fits, k);
            decode_utf8_encode_utf8(list[i].0);
            assert(list[i].0 == at);
            assert(entries[list[i].0] == list[i].1);
        }
        if entries.contains_key(at) && decode_object(entries[at]) == Ok::<ObjectView, FsError>(
            object,
        ) && takes_key(at, prefix, cursor) {
            let i = choose|i: int| 0 <= i < list.len() && list[i].0 == at;
            assert(entries[list[i].0] == list[i].1);
            assert(asked(i));
            let k = lemma_place_answered(out, n, asked, fits, i);
            assert(out[k] == (key, object));
        }
    }
    assert forall|i: int, j: int| 0 <= i < j < out.len() implies bytes_lt(
        encode_utf8((#[trigger] out[i]).0),
        encode_utf8((#[trigger] out[j]).0),
    ) by {
        let (a, b) = lemma_items_apart(out, n, asked, fits, i, j);
        decode_utf8_encode_utf8(list[a].0);
        decode_utf8_encode_utf8(list[b].0);
        assert(bytes_lt(list[a].0, list[b].0));
    }
}

/// A key is taken where it begins with the prefix and lies behind both cursors.
proof fn lemma_taken(
    key: Seq<u8>,
    prefix: Option<Seq<char>>,
    start_after: Option<Seq<char>>,
    token: Option<Seq<char>>,
)
    ensures
        takes_key(key, prefix, later(token, start_after)) <==> {
            &&& prefix matches Some(p) ==> begins(key, encode_utf8(p))
            &&& start_after matches Some(c) ==> bytes_lt(encode_utf8(c), key)
            &&& token matches Some(c) ==> bytes_lt(encode_utf8(c), key)
        },
{
    if let Some(p) = prefix {
        let bytes = encode_utf8(p);
        if bytes.len() <= key.len() {
            if begins(key, bytes) {
                assert(key.subrange(0, bytes.len() as int) =~= bytes);
            }
            if key.subrange(0, bytes.len() as int) == bytes {
                assert forall|i: int| 0 <= i < bytes.len() implies key[i] == bytes[i] by {
                    assert(key.subrange(0, bytes.len() as int)[i] == bytes[i]);
                }
            }
        }
    }
    match later(token, start_after) {
        None => {},
        Some(cursor) => {
            lemma_takes_key(key, prefix, cursor);
            match (token, start_after) {
                (Some(a), Some(b)) => {
                    let (x, y) = (encode_utf8(a), encode_utf8(b));
                    lemma_bytes_lt_total(x, y);
                    if bytes_lt(x, y) && bytes_lt(y, key) {
                        lemma_bytes_lt_transitive(x, y, key);
                    }
                    if bytes_lt(y, x) && bytes_lt(x, key) {
                        lemma_bytes_lt_transitive(y, x, key);
                    }
                },
                _ => {},
            }
        },
    }
}

/// A walk behind a key yields exactly the entries behind it, a walk before a key
/// exactly those before it, with their values; without a key both yield all.
pub proof fn lemma_walk_bounds(entries: Entries, at: Seq<u8>, key: Seq<u8>)
    ensures
        entries_after(entries, Some(at)).contains_key(key) <==> entries.contains_key(key)
            && bytes_lt(at, key),
        entries_before(entries, Some(at)).contains_key(key) <==> entries.contains_key(key)
            && bytes_lt(key, at),
        entries_after(entries, Some(at)).contains_key(key) ==> entries_after(
            entries,
            Some(at),
        )[key] == entries[key],
        entries_before(entries, Some(at)).contains_key(key) ==> entries_before(
            entries,
            Some(at),
        )[key] == entries[key],
        entries_after(entries, None) == entries,
        entries_before(entries, None) == entries,
{
}

} // verus!
