//! What the holders say versus what the block records say.

use vstd::prelude::*;
use vstd::string::*;

use crate::metastore::block::Block;
use crate::scrub::findings::{add_finding, finding_views, Finding, FindingClass, FindingView};
use crate::scrub::holders::ExpectedCounts;
use crate::scrub::id_map::{key_order, lists_keys};
use crate::scrub::records::RecordWalk;
use crate::scrub::trees::lemma_prefix;
use crate::text::{dec, put_dec, put_len_dec};

verus! {

/// What is wrong with the count of a referenced block, if anything is: it has
/// no record, or the record's count is too high or too low.
pub open spec fn miscount(id: Seq<u8>, holders: u64, records: Map<Seq<u8>, Block>) -> Option<
    FindingView,
> {
    if !records.contains_key(id) {
        Some(
            FindingView::new(
                FindingClass::MissingBlockRecord,
                dec(holders as nat) + " holder reference(s), but no block record"@,
            ).with_block(id),
        )
    } else {
        let rc = records[id].rc as nat;
        if rc > holders {
            Some(
                FindingView::new(
                    FindingClass::RefcountOverCount,
                    "record rc "@ + dec(rc) + ", holders "@ + dec(holders as nat) + ": "@ + dec(
                        (rc - holders) as nat,
                    ) + " reference(s) leaked"@,
                ).with_block(id),
            )
        } else if rc < holders {
            Some(
                FindingView::new(
                    FindingClass::RefcountUnderCount,
                    "record rc "@ + dec(rc) + ", holders "@ + dec(holders as nat) + ": "@ + dec(
                        (holders - rc) as nat,
                    )
                        + " reference(s) unaccounted, so the block can be freed while they still point at it"@,
                ).with_block(id),
            )
        } else {
            None
        }
    }
}

/// What is wrong with a record that no holder mentions, if nothing does.
pub open spec fn unheld(id: Seq<u8>, block: Block, expected: Map<Seq<u8>, u64>) -> Option<
    FindingView,
> {
    if expected.contains_key(id) {
        None
    } else {
        Some(
            FindingView::new(
                FindingClass::RefcountOverCount,
                "record rc "@ + dec(block.rc as nat)
                    + ", holders 0: nothing references this block"@,
            ).with_block(id),
        )
    }
}

/// What is wrong with the counts of referenced blocks, in order.
pub open spec fn miscounts(
    ids: Seq<Seq<u8>>,
    expected: Map<Seq<u8>, u64>,
    records: Map<Seq<u8>, Block>,
) -> Seq<FindingView>
    decreases ids.len(),
{
    if ids.len() == 0 {
        Seq::empty()
    } else {
        let init = miscounts(ids.drop_last(), expected, records);
        match miscount(ids.last(), expected[ids.last()], records) {
            Some(finding) => init.push(finding),
            None => init,
        }
    }
}

/// What is wrong with records that no holder mentions, in order.
pub open spec fn unheld_all(
    ids: Seq<Seq<u8>>,
    expected: Map<Seq<u8>, u64>,
    records: Map<Seq<u8>, Block>,
) -> Seq<FindingView>
    decreases ids.len(),
{
    if ids.len() == 0 {
        Seq::empty()
    } else {
        let init = unheld_all(ids.drop_last(), expected, records);
        match unheld(ids.last(), records[ids.last()], expected) {
            Some(finding) => init.push(finding),
            None => init,
        }
    }
}

/// What a recount finds.
pub open spec fn recounted(
    expected: Map<Seq<u8>, u64>,
    records: Map<Seq<u8>, Block>,
) -> Seq<FindingView> {
    miscounts(key_order(expected), expected, records) + unheld_all(
        key_order(records),
        expected,
        records,
    )
}

/// The text of a wrong count.
fn count_text(rc: u64, holders: u64, difference: u64, tail: &str) -> (text: String)
    ensures
        text@ == "record rc "@ + dec(rc as nat) + ", holders "@ + dec(holders as nat) + ": "@
            + dec(difference as nat) + tail@,
{
    let mut text = "record rc ".to_owned();
    put_dec(&mut text, rc);
    text.append(", holders ");
    put_dec(&mut text, holders);
    text.append(": ");
    put_dec(&mut text, difference);
    text.append(tail);
    text
}

/// Compares what the holders reference with what the records count.
///
/// Over-counts cost only space. Under-counts are the dangerous direction: a
/// block will be freed while something still references it. A holder reference
/// with no record at all means the data is already unreachable.
pub fn recount(expected: &ExpectedCounts, records: &RecordWalk) -> (findings: Vec<Finding>)
    ensures
        finding_views(findings@) == recounted(expected@, records.records@),
        lists_keys(key_order(expected@), expected@),
        lists_keys(key_order(records.records@), records.records@),
{
    let ghost counts = expected@;
    let ghost blocks = records.records@;
    let mut findings: Vec<Finding> = Vec::new();
    let n: usize = expected.len();
    let ghost ids = expected.order();
    let mut i: usize = 0;
    proof {
        assert(ids.subrange(0, 0) =~= Seq::<Seq<u8>>::empty());
        assert(finding_views(findings@) =~= Seq::<FindingView>::empty());
    }
    while i < n
        invariant
            i <= n,
            n == ids.len(),
            ids == expected.order(),
            counts == expected@,
            blocks == records.records@,
            finding_views(findings@) == miscounts(ids.subrange(0, i as int), counts, blocks),
        decreases n - i,
    {
        let id = expected.key_at(i);
        let holders: u64 = *expected.value_at(i);
        proof {
            lemma_prefix(ids, i as int);
        }
        match records.records.get(&id) {
            None => {
                let mut text = String::new();
                put_dec(&mut text, holders);
                text.append(" holder reference(s), but no block record");
                proof {
                    assert(text@ =~= dec(holders as nat)
                        + " holder reference(s), but no block record"@);
                }
                add_finding(
                    &mut findings,
                    Finding::new(FindingClass::MissingBlockRecord, text).with_block(&id),
                );
            },
            Some(block) => {
                let rc: u64 = block.rc() as u64;
                if rc > holders {
                    let text = count_text(rc, holders, rc - holders, " reference(s) leaked");
                    add_finding(
                        &mut findings,
                        Finding::new(FindingClass::RefcountOverCount, text).with_block(&id),
                    );
                } else if rc < holders {
                    let text = count_text(
                        rc,
                        holders,
                        holders - rc,
                        " reference(s) unaccounted, so the block can be freed while they still point at it",
                    );
                    add_finding(
                        &mut findings,
                        Finding::new(FindingClass::RefcountUnderCount, text).with_block(&id),
                    );
                }
            },
        }
        i = i + 1;
    }
    proof {
        assert(ids.subrange(0, ids.len() as int) =~= ids);
    }
    let ghost first = finding_views(findings@);
    let m: usize = records.records.len();
    let ghost names = records.records.order();
    let mut j: usize = 0;
    proof {
        assert(names.subrange(0, 0) =~= Seq::<Seq<u8>>::empty());
        assert(first + Seq::<FindingView>::empty() =~= first);
    }
    while j < m
        invariant
            j <= m,
            m == names.len(),
            names == records.records.order(),
            counts == expected@,
            blocks == records.records@,
            finding_views(findings@) == first + unheld_all(
                names.subrange(0, j as int),
                counts,
                blocks,
            ),
        decreases m - j,
    {
        let id = records.records.key_at(j);
        let ghost before = unheld_all(names.subrange(0, j as int), counts, blocks);
        proof {
            lemma_prefix(names, j as int);
        }
        let rc: usize = records.records.value_at(j).rc();
        if !expected.contains_key(&id) {
            let mut text = "record rc ".to_owned();
            put_len_dec(&mut text, rc);
            text.append(", holders 0: nothing references this block");
            let finding = Finding::new(FindingClass::RefcountOverCount, text).with_block(&id);
            add_finding(&mut findings, finding);
            proof {
                assert((first + before).push(finding@) =~= first + before.push(finding@));
            }
        }
        j = j + 1;
    }
    proof {
        assert(names.subrange(0, names.len() as int) =~= names);
    }
    findings
}

/// Whether the records count exactly what the holders reference.
pub open spec fn counts_agree(
    expected: Map<Seq<u8>, u64>,
    records: Map<Seq<u8>, Block>,
) -> bool {
    &&& forall|id: Seq<u8>| #[trigger]
        expected.contains_key(id) ==> records.contains_key(id) && records[id].rc == expected[id]
    &&& forall|id: Seq<u8>| #[trigger] records.contains_key(id) ==> expected.contains_key(id)
}

proof fn lemma_miscounts_clean(
    ids: Seq<Seq<u8>>,
    expected: Map<Seq<u8>, u64>,
    records: Map<Seq<u8>, Block>,
)
    ensures
        miscounts(ids, expected, records).len() == 0 <==> forall|i: int|
            0 <= i < ids.len() ==> miscount(#[trigger] ids[i], expected[ids[i]], records) is None,
    decreases ids.len(),
{
    if ids.len() > 0 {
        let init = ids.drop_last();
        lemma_miscounts_clean(init, expected, records);
        assert forall|i: int| 0 <= i < init.len() implies #[trigger] init[i] == ids[i] by {}
        assert(ids.last() == ids[ids.len() - 1]);
        if miscounts(ids, expected, records).len() == 0 {
            assert forall|i: int| 0 <= i < ids.len() implies miscount(
                #[trigger] ids[i],
                expected[ids[i]],
                records,
            ) is None by {
                if i < init.len() {
                    assert(init[i] == ids[i]);
                }
            }
        }
    }
}

proof fn lemma_unheld_clean(
    ids: Seq<Seq<u8>>,
    expected: Map<Seq<u8>, u64>,
    records: Map<Seq<u8>, Block>,
)
    ensures
        unheld_all(ids, expected, records).len() == 0 <==> forall|i: int|
            0 <= i < ids.len() ==> expected.contains_key(#[trigger] ids[i]),
    decreases ids.len(),
{
    if ids.len() > 0 {
        let init = ids.drop_last();
        lemma_unheld_clean(init, expected, records);
        assert forall|i: int| 0 <= i < init.len() implies #[trigger] init[i] == ids[i] by {}
        assert(ids.last() == ids[ids.len() - 1]);
        if unheld_all(ids, expected, records).len() == 0 {
            assert forall|i: int| 0 <= i < ids.len() implies expected.contains_key(
                #[trigger] ids[i],
            ) by {
                if i < init.len() {
                    assert(init[i] == ids[i]);
                }
            }
        }
    }
}

/// A recount finds nothing exactly where the records count what the holders
/// reference.
pub proof fn lemma_recount_clean(expected: Map<Seq<u8>, u64>, records: Map<Seq<u8>, Block>)
    requires
        lists_keys(key_order(expected), expected),
        lists_keys(key_order(records), records),
    ensures
        recounted(expected, records).len() == 0 <==> counts_agree(expected, records),
{
    let (a, b) = (key_order(expected), key_order(records));
    lemma_miscounts_clean(a, expected, records);
    lemma_unheld_clean(b, expected, records);
    if recounted(expected, records).len() == 0 {
        assert forall|id: Seq<u8>| #[trigger] expected.contains_key(
            id,
        ) implies records.contains_key(id) && records[id].rc == expected[id] by {
            assert(a.contains(id));
            let i = choose|i: int| 0 <= i < a.len() && a[i] == id;
            assert(miscount(a[i], expected[a[i]], records) is None);
        }
        assert forall|id: Seq<u8>| #[trigger] records.contains_key(
            id,
        ) implies expected.contains_key(id) by {
            assert(b.contains(id));
            let i = choose|i: int| 0 <= i < b.len() && b[i] == id;
            assert(expected.contains_key(b[i]));
        }
    }
    if counts_agree(expected, records) {
        assert forall|i: int| 0 <= i < a.len() implies miscount(
            #[trigger] a[i],
            expected[a[i]],
            records,
        ) is None by {
            assert(a.contains(a[i]));
            assert(expected.contains_key(a[i]));
        }
        assert forall|i: int| 0 <= i < b.len() implies expected.contains_key(#[trigger] b[i]) by {
            assert(b.contains(b[i]));
            assert(records.contains_key(b[i]));
        }
    }
}

} // verus!
