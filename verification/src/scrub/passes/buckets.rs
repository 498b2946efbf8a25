//! Object trees whose bucket is gone.

use vstd::prelude::*;
use vstd::string::*;
use vstd::utf8::*;

use crate::metastore::errors::MetaError;
use crate::metastore::meta_store::ops::{bucket_names, bucket_row, lists_bucket_names};
use crate::metastore::meta_store::{MetaStore, DEFAULT_BUCKET_TREE};
use crate::metastore::traits::{
    is_listed, listing, tree_of, BaseMetaTree, Rows, Store, TransactionBackend,
};
use crate::scrub::findings::{add_finding, finding_views, Finding, FindingClass, FindingView};
use crate::scrub::trees::{
    lemma_sorted, lists_sorted, object_names, object_trees, put_sorted, sorted, text_order,
    text_views, tree_rows,
};
use crate::scrub::ScrubContext;
use crate::text::{dec, equal_text, put_len_dec};

verus! {

/// The object trees without a bucket row.
pub open spec fn stranded(names: Set<Seq<char>>, rows: Rows) -> Set<Seq<char>> {
    object_names(names).filter(|name: Seq<char>| !rows.contains_key(bucket_row(name)))
}

/// Whether a text stands in a list.
fn names_bucket(list: &Vec<String>, name: &str) -> (yes: bool)
    ensures
        yes == exists|i: int| 0 <= i < list@.len() && (#[trigger] list@[i])@ == name@,
{
    let mut i: usize = 0;
    while i < list.len()
        invariant
            i <= list@.len(),
            forall|j: int| 0 <= j < i ==> (#[trigger] list@[j])@ != name@,
        decreases list@.len() - i,
    {
        if equal_text(&list[i], name) {
            return true;
        }
        i = i + 1;
    }
    false
}

/// A list of the bucket names holds a name where there is a row for it.
proof fn lemma_names_rows(rows: Rows, list: Seq<String>, name: Seq<char>)
    requires
        ({
            let all = listing(tree_of(rows, DEFAULT_BUCKET_TREE@));
            &&& is_listed(tree_of(rows, DEFAULT_BUCKET_TREE@))
            &&& list.len() == all.len()
            &&& forall|i: int|
                0 <= i < all.len() ==> valid_utf8((#[trigger] all[i]).0) && list[i]@ == decode_utf8(
                    all[i].0,
                )
        }),
    ensures
        (exists|i: int| 0 <= i < list.len() && (#[trigger] list[i])@ == name)
            <==> rows.contains_key(bucket_row(name)),
{
    let entries = tree_of(rows, DEFAULT_BUCKET_TREE@);
    let all = listing(entries);
    encode_utf8_decode_utf8(name);
    if exists|i: int| 0 <= i < list.len() && (#[trigger] list[i])@ == name {
        let i = choose|i: int| 0 <= i < list.len() && (#[trigger] list[i])@ == name;
        decode_utf8_encode_utf8(all[i].0);
        assert(all[i].0 == encode_utf8(name));
        assert(entries.contains_key(all[i].0));
    }
    if rows.contains_key(bucket_row(name)) {
        assert(entries.contains_key(encode_utf8(name)));
        let i = choose|i: int| 0 <= i < all.len() && all[i].0 == encode_utf8(name);
        assert(list[i]@ == decode_utf8(all[i].0));
    }
}

/// Whether an error says that a bucket row's key is not text, the first such row.
pub open spec fn bucket_names_refused<S: Store>(namespace: MetaStore<S>, e: MetaError) -> bool {
    let entries = tree_of(namespace.store.committed(), DEFAULT_BUCKET_TREE@);
    &&& is_listed(entries)
    &&& lists_bucket_names(listing(entries), Err::<Vec<String>, MetaError>(e), true)
}

/// Whether the names of the buckets can be read: the key of every bucket row is
/// text.
pub open spec fn bucket_names_read<S: Store>(namespace: MetaStore<S>) -> bool {
    let entries = tree_of(namespace.store.committed(), DEFAULT_BUCKET_TREE@);
    &&& is_listed(entries)
    &&& forall|i: int|
        0 <= i < listing(entries).len() ==> valid_utf8((#[trigger] listing(entries)[i]).0)
}

/// Object trees with no bucket row, in ascending order.
///
/// Bucket rows are told apart by their keys alone: what a bucket row's value
/// holds is the service's business.
pub fn stranded_trees<S: Store>(namespace: &MetaStore<S>) -> (out: Result<Vec<String>, MetaError>)
    ensures
        match out {
            Ok(list) => {
                let trees = stranded(namespace.store.names(), namespace.store.committed());
                &&& text_views(list@) == sorted(trees)
                &&& lists_sorted(text_views(list@), trees)
                &&& bucket_names_read(*namespace)
            },
            Err(e) => namespace.store.healthy() ==> bucket_names_refused(*namespace, e),
        },
{
    let ghost rows = namespace.store.committed();
    let ghost names = namespace.store.names();
    let ghost entries = tree_of(rows, DEFAULT_BUCKET_TREE@);
    let bucket_rows = match tree_rows(namespace, DEFAULT_BUCKET_TREE) {
        Ok(bucket_rows) => bucket_rows,
        Err(e) => {
            return Err(e);
        },
    };
    let named = match bucket_names(&bucket_rows) {
        Ok(named) => named,
        Err(e) => {
            return Err(e);
        },
    };
    let trees = match object_trees(namespace) {
        Ok(trees) => trees,
        Err(e) => {
            return Err(e);
        },
    };
    let mut list: Vec<String> = Vec::new();
    let mut i: usize = 0;
    while i < trees.len()
        invariant
            i <= trees@.len(),
            rows == namespace.store.committed(),
            names == namespace.store.names(),
            entries == tree_of(rows, DEFAULT_BUCKET_TREE@),
            is_listed(entries),
            lists_bucket_names(listing(entries), Ok::<Vec<String>, MetaError>(named), true),
            forall|name: Seq<char>| #[trigger]
                text_views(trees@).contains(name) <==> object_names(names).contains(name),
            text_order(text_views(list@)),
            forall|t: Seq<char>| #[trigger]
                text_views(list@).contains(t) ==> stranded(names, rows).contains(t),
            forall|j: int|
                0 <= j < i && stranded(names, rows).contains((#[trigger] trees@[j])@) ==> text_views(
                    list@,
                ).contains(trees@[j]@),
        decreases trees@.len() - i,
    {
        proof {
            lemma_names_rows(rows, named@, trees@[i as int]@);
            assert(text_views(trees@)[i as int] == trees@[i as int]@);
            assert(text_views(trees@).contains(trees@[i as int]@));
        }
        if !names_bucket(&named, &trees[i]) {
            put_sorted(&mut list, trees[i].as_str().to_owned());
        }
        i = i + 1;
    }
    proof {
        assert forall|t: Seq<char>| #[trigger] text_views(list@).contains(t) <==> stranded(
            names,
            rows,
        ).contains(t) by {
            if stranded(names, rows).contains(t) {
                assert(text_views(trees@).contains(t));
                let j = choose|j: int| 0 <= j < text_views(trees@).len() && text_views(trees@)[j] == t;
                assert(trees@[j]@ == t);
            }
        }
        lemma_sorted(text_views(list@), stranded(names, rows));
    }
    Ok(list)
}

/// The finding on a stranded tree, which holds so many objects.
pub open spec fn stranded_finding(tree: Seq<char>, objects: Seq<char>) -> FindingView {
    FindingView::new(
        FindingClass::HalfDeletedBucket,
        "object tree "@ + tree
            + " has no _BUCKETS row: a bucket teardown that did not finish. It still holds "@
            + objects + " object record(s), and their block references are still counted"@,
    )
}

/// Whether a text gives the number of objects in a tree: the number, or, of a
/// store that would not count them, what it said.
pub open spec fn counts_objects<S: Store>(
    namespace: MetaStore<S>,
    tree: Seq<char>,
    objects: Seq<char>,
) -> bool {
    ||| objects == dec(tree_of(namespace.store.committed(), tree).dom().len())
    ||| !namespace.store.healthy() && exists|e: MetaError|
        objects == "an unknown number of ("@ + #[trigger] e.text() + ")"@
}

/// The number of objects in a tree, for a person.
fn object_count<S: Store>(namespace: &MetaStore<S>, tree: &str) -> (text: String)
    ensures
        counts_objects(*namespace, tree@, text@),
{
    let count = match namespace.find_tree(tree) {
        Ok(Some(tree)) => tree.len(),
        Ok(None) => Ok(0),
        Err(e) => Err(e),
    };
    let mut text = String::new();
    match count {
        Ok(n) => {
            put_len_dec(&mut text, n);
            proof {
                assert(text@ =~= dec(n as nat));
            }
        },
        Err(e) => {
            text.append("an unknown number of (");
            text.append(&e.to_string());
            text.append(")");
            proof {
                assert(text@ =~= "an unknown number of ("@ + e.text() + ")"@);
            }
        },
    }
    text
}

/// Whether findings report the named stranded trees, in order.
pub open spec fn reports_stranded<S: Store>(
    namespace: MetaStore<S>,
    trees: Seq<Seq<char>>,
    findings: Seq<FindingView>,
) -> bool {
    &&& findings.len() == trees.len()
    &&& forall|i: int|
        0 <= i < trees.len() ==> reports_tree(namespace, #[trigger] trees[i], findings[i])
}

/// Whether a finding reports a stranded tree.
pub open spec fn reports_tree<S: Store>(
    namespace: MetaStore<S>,
    tree: Seq<char>,
    finding: FindingView,
) -> bool {
    exists|objects: Seq<char>|
        finding == #[trigger] stranded_finding(tree, objects) && counts_objects(
            namespace,
            tree,
            objects,
        )
}

/// Finds object trees whose bucket row is gone: teardowns that did not finish.
/// Their records still hold block references, so this is an inconsistency to
/// resume, not a loss.
pub fn bucket_integrity<N: Store, B: Store>(ctx: &ScrubContext<'_, N, B>) -> (out: Result<
    Vec<Finding>,
    MetaError,
>)
    ensures
        match out {
            Ok(findings) => {
                let trees = stranded(
                    ctx.namespace.store.names(),
                    ctx.namespace.store.committed(),
                );
                &&& lists_sorted(sorted(trees), trees)
                &&& reports_stranded(*ctx.namespace, sorted(trees), finding_views(findings@))
                &&& bucket_names_read(*ctx.namespace)
            },
            Err(e) => ctx.namespace.store.healthy() ==> bucket_names_refused(*ctx.namespace, e),
        },
{
    let trees = match stranded_trees(ctx.namespace()) {
        Ok(trees) => trees,
        Err(e) => {
            return Err(e);
        },
    };
    let ghost names = text_views(trees@);
    let mut findings: Vec<Finding> = Vec::new();
    let mut i: usize = 0;
    while i < trees.len()
        invariant
            i <= trees@.len(),
            names == text_views(trees@),
            findings@.len() == i,
            forall|j: int|
                0 <= j < i ==> reports_tree(
                    *ctx.namespace,
                    #[trigger] names[j],
                    finding_views(findings@)[j],
                ),
        decreases trees@.len() - i,
    {
        let tree = trees[i].as_str();
        let objects = object_count(ctx.namespace(), tree);
        let mut text = "object tree ".to_owned();
        text.append(tree);
        text.append(" has no _BUCKETS row: a bucket teardown that did not finish. It still holds ");
        text.append(&objects);
        text.append(" object record(s), and their block references are still counted");
        let finding = Finding::new(FindingClass::HalfDeletedBucket, text);
        proof {
            assert(finding@ == stranded_finding(tree@, objects@));
            assert(names[i as int] == tree@);
        }
        let ghost before = finding_views(findings@);
        add_finding(&mut findings, finding);
        proof {
            assert(finding_views(findings@).len() == findings@.len());
            assert forall|j: int| 0 <= j < i + 1 implies reports_tree(
                *ctx.namespace,
                #[trigger] names[j],
                finding_views(findings@)[j],
            ) by {
                if j < i {
                    assert(finding_views(findings@)[j] == before[j]);
                }
            }
        }
        i = i + 1;
    }
    Ok(findings)
}

} // verus!
