//! What it means for a repairable finding to survive a repair.

use vstd::prelude::*;
use vstd::string::*;

use crate::scrub::findings::{
    add_finding, add_findings, finding_views, Finding, FindingClass, FindingView, Severity,
};
use crate::scrub::report::order::{lemma_permuted, report_order};
use crate::scrub::report::{exit_code, some_of, summarizes, Report, REPORT_VERSION};
use crate::scrub::trees::lemma_prefix;
use crate::text::{dec, put_len_dec};

verus! {

/// Whether a repair claims to repair findings of a class. A class nobody repairs
/// is expected to survive, and says nothing about whether the repair worked.
pub open spec fn repairable(class: FindingClass) -> bool {
    class is RefcountOverCount || class is RefcountUnderCount || class is OrphanFile
        || class is OffDepthFile || class is ForeignFile || class is DanglingRecord
        || class is AdoptableDanglingRecord || class is CorruptBlock || class is HalfDeletedBucket
        || class is OrphanPart
}

/// Whether a repair claims to repair findings of this class.
pub fn is_repairable(class: FindingClass) -> (yes: bool)
    ensures
        yes == repairable(class),
{
    match class {
        FindingClass::RefcountOverCount
        | FindingClass::RefcountUnderCount
        | FindingClass::OrphanFile
        | FindingClass::OffDepthFile
        | FindingClass::ForeignFile
        | FindingClass::DanglingRecord
        | FindingClass::AdoptableDanglingRecord
        | FindingClass::CorruptBlock
        | FindingClass::HalfDeletedBucket
        | FindingClass::OrphanPart => true,
        FindingClass::MissingBlockRecord
        | FindingClass::UndecodableBlockRecord
        | FindingClass::SizeMismatch
        | FindingClass::DegradedRecord
        | FindingClass::MultipartUpload
        | FindingClass::HolderEnumerationFailed
        | FindingClass::PostRepairRecountDirty => false,
    }
}

/// Whether some finding is of a class that a repair claims to repair.
pub open spec fn unfinished(list: Seq<FindingView>) -> bool {
    exists|i: int| 0 <= i < list.len() && repairable((#[trigger] list[i]).class)
}

/// How many findings of a class there are.
pub open spec fn count_class(list: Seq<FindingView>, class: FindingClass) -> nat
    decreases list.len(),
{
    if list.len() == 0 {
        0
    } else {
        count_class(list.drop_last(), class) + if list.last().class == class {
            1nat
        } else {
            0nat
        }
    }
}

/// The finding on a class of which some survived a repair.
pub open spec fn survived(list: Seq<FindingView>, class: FindingClass) -> Option<FindingView> {
    if repairable(class) && count_class(list, class) > 0 {
        Some(
            FindingView::new(
                FindingClass::PostRepairRecountDirty,
                dec(count_class(list, class)) + " "@ + class.name()
                    + " finding(s) survived --repair, which claims to repair that class: the repair did not finish, and no report of this store is clean until it does"@,
            ),
        )
    } else {
        None
    }
}

/// The class at a place of the order of classes.
pub open spec fn class_at(rank: nat) -> FindingClass {
    choose|class: FindingClass| #[trigger] class.rank() == rank
}

/// The findings on the classes up to a place in their order of which some
/// survived a repair.
pub open spec fn survivors(list: Seq<FindingView>, ranks: nat) -> Seq<FindingView>
    decreases ranks,
{
    if ranks == 0 {
        Seq::empty()
    } else {
        let init = survivors(list, (ranks - 1) as nat);
        match survived(list, class_at((ranks - 1) as nat)) {
            Some(finding) => init.push(finding),
            None => init,
        }
    }
}

proof fn lemma_class_at(class: FindingClass)
    ensures
        class_at(class.rank()) == class,
        class.rank() < 17,
{
    let other = class_at(class.rank());
    assert(class.rank() == class.rank());
    assert(other.rank() == class.rank());
}

proof fn lemma_count_class(list: Seq<FindingView>, class: FindingClass)
    ensures
        count_class(list, class) <= list.len(),
        count_class(list, class) > 0 <==> exists|i: int|
            0 <= i < list.len() && (#[trigger] list[i]).class == class,
    decreases list.len(),
{
    if list.len() > 0 {
        let init = list.drop_last();
        lemma_count_class(init, class);
        if exists|i: int| 0 <= i < init.len() && (#[trigger] init[i]).class == class {
            let i = choose|i: int| 0 <= i < init.len() && (#[trigger] init[i]).class == class;
            assert(list[i].class == class);
        }
        if list.last().class == class {
            assert(list[list.len() - 1].class == class);
        }
        if exists|i: int| 0 <= i < list.len() && (#[trigger] list[i]).class == class {
            let i = choose|i: int| 0 <= i < list.len() && (#[trigger] list[i]).class == class;
            if i < init.len() {
                assert(init[i].class == class);
            }
        }
    }
}

/// What survives of a class is named among the survivors.
proof fn lemma_survivors_some(list: Seq<FindingView>, class: FindingClass, ranks: nat)
    requires
        repairable(class),
        count_class(list, class) > 0,
        class.rank() < ranks,
    ensures
        survivors(list, ranks).len() > 0,
        forall|i: int|
            0 <= i < survivors(list, ranks).len() ==> (#[trigger] survivors(
                list,
                ranks,
            )[i]).severity == Severity::Critical,
    decreases ranks,
{
    lemma_class_at(class);
    lemma_survivors_critical(list, ranks);
    if class.rank() < ranks - 1 {
        lemma_survivors_some(list, class, (ranks - 1) as nat);
    }
}

proof fn lemma_survivors_critical(list: Seq<FindingView>, ranks: nat)
    ensures
        forall|i: int|
            0 <= i < survivors(list, ranks).len() ==> (#[trigger] survivors(
                list,
                ranks,
            )[i]).severity == Severity::Critical,
    decreases ranks,
{
    if ranks > 0 {
        lemma_survivors_critical(list, (ranks - 1) as nat);
    }
}

/// How many findings of a class there are.
fn tally_class(list: &Vec<Finding>, class: FindingClass) -> (n: usize)
    ensures
        n == count_class(finding_views(list@), class),
{
    let ghost all = finding_views(list@);
    let mut n: usize = 0;
    let mut i: usize = 0;
    proof {
        assert(all.subrange(0, 0) =~= Seq::<FindingView>::empty());
    }
    while i < list.len()
        invariant
            i <= list@.len(),
            n <= i,
            all == finding_views(list@),
            n == count_class(all.subrange(0, i as int), class),
        decreases list@.len() - i,
    {
        proof {
            lemma_prefix(all, i as int);
            assert(all[i as int] == list@[i as int]@);
        }
        if list[i].class == class {
            n = n + 1;
        }
        i = i + 1;
    }
    proof {
        assert(all.subrange(0, all.len() as int) =~= all);
    }
    n
}

/// Whether a report of a repaired store is judged so.
pub open spec fn judged(post: Report, report: Report) -> bool {
    let list = finding_views(post.findings@);
    if unfinished(list) {
        &&& report.version == REPORT_VERSION
        &&& report.store == post.store
        &&& report.passes_run == post.passes_run
        &&& report_order(list + survivors(list, 17), finding_views(report.findings@))
        &&& summarizes(report.summary, finding_views(report.findings@))
        &&& report.exit_code == exit_code::CRITICAL
    } else {
        report == post
    }
}

/// Judges the report of a repaired store: anything repairable still standing
/// makes the run CRITICAL, whatever that finding's own severity is. A leftover
/// orphan file is INFO on its own; a leftover orphan file after a repair that
/// said it would delete it is a repair that did not work.
pub fn flag_unfinished(post: Report) -> (report: Report)
    ensures
        judged(post, report),
{
    let ghost list = finding_views(post.findings@);
    let classes = FindingClass::all();
    let mut left: Vec<Finding> = Vec::new();
    let mut k: usize = 0;
    proof {
        assert(finding_views(left@) =~= Seq::<FindingView>::empty());
    }
    while k < 17
        invariant
            k <= 17,
            list == finding_views(post.findings@),
            forall|i: int| 0 <= i < 17 ==> (#[trigger] classes@[i]).rank() == i,
            finding_views(left@) == survivors(list, k as nat),
            forall|i: int|
                0 <= i < k && repairable(#[trigger] classes@[i]) && count_class(list, classes@[i])
                    > 0 ==> left@.len() > 0,
            left@.len() > 0 ==> unfinished(list),
        decreases 17 - k,
    {
        let class = classes[k];
        let n: usize = tally_class(&post.findings, class);
        proof {
            lemma_class_at(class);
            lemma_count_class(list, class);
        }
        if is_repairable(class) && n > 0 {
            let mut text = String::new();
            put_len_dec(&mut text, n);
            text.append(" ");
            text.append(class.as_str());
            text.append(
                " finding(s) survived --repair, which claims to repair that class: the repair did not finish, and no report of this store is clean until it does",
            );
            proof {
                assert(text@ =~= dec(n as nat) + " "@ + class.name()
                    + " finding(s) survived --repair, which claims to repair that class: the repair did not finish, and no report of this store is clean until it does"@);
            }
            let ghost before = finding_views(left@);
            add_finding(&mut left, Finding::new(FindingClass::PostRepairRecountDirty, text));
            proof {
                assert(finding_views(left@).len() == left@.len());
            }
        }
        k = k + 1;
    }
    if left.len() == 0 {
        proof {
            if unfinished(list) {
                let i = choose|i: int| 0 <= i < list.len() && repairable((#[trigger] list[i]).class);
                let class = list[i].class;
                lemma_class_at(class);
                lemma_count_class(list, class);
                let r = class.rank() as int;
                assert(classes@[r].rank() == r);
                lemma_class_at(classes@[r]);
                assert(classes@[r] == class);
            }
        }
        return post;
    }
    let mut findings = post.findings;
    add_findings(&mut findings, left);
    proof {
        let all = list + survivors(list, 17);
        lemma_survivors_critical(list, 17);
        assert(finding_views(left@).len() == left@.len());
        assert(all[list.len() as int] == survivors(list, 17)[0]);
        assert(some_of(all, Severity::Critical));
    }
    Report::new(post.store, post.passes_run, findings)
}

/// The classes that a repair claims to repair, and no other: counts too high or too
/// low, files nothing references, foreign files, records whose file is missing,
/// corrupt blocks, half-deleted buckets and orphan parts.
pub proof fn lemma_repairable(class: FindingClass)
    ensures
        repairable(class) <==> {
            ||| class == FindingClass::RefcountOverCount
            ||| class == FindingClass::RefcountUnderCount
            ||| class == FindingClass::OrphanFile
            ||| class == FindingClass::OffDepthFile
            ||| class == FindingClass::ForeignFile
            ||| class == FindingClass::DanglingRecord
            ||| class == FindingClass::AdoptableDanglingRecord
            ||| class == FindingClass::CorruptBlock
            ||| class == FindingClass::HalfDeletedBucket
            ||| class == FindingClass::OrphanPart
        },
{
}

proof fn lemma_class_counted(list: Seq<FindingView>, class: FindingClass)
    ensures
        count_class(list, class) == list.filter(|f: FindingView| f.class == class).len(),
    decreases list.len(),
{
    reveal(Seq::filter);
    if list.len() > 0 {
        lemma_class_counted(list.drop_last(), class);
    }
}

/// Where a class stands among the survivors up to a place in the order.
proof fn lemma_survivor_of(list: Seq<FindingView>, ranks: nat, class: FindingClass) -> (k: int)
    requires
        class.rank() < ranks,
        survived(list, class) is Some,
    ensures
        0 <= k < survivors(list, ranks).len(),
        survived(list, class) == Some(survivors(list, ranks)[k]),
    decreases ranks,
{
    let init = survivors(list, (ranks - 1) as nat);
    if class.rank() == ranks - 1 {
        lemma_class_at(class);
        init.len() as int
    } else {
        let k = lemma_survivor_of(list, (ranks - 1) as nat, class);
        assert(survivors(list, ranks)[k] == init[k]);
        k
    }
}

/// The report of a repaired store is left as it is where nothing is left in it that
/// a repair claims to repair. Otherwise it is CRITICAL, whatever the severities: it
/// keeps every finding, and gets one more for each such class that is left, which
/// gives the number of findings of that class.
pub proof fn lemma_leftovers_critical(post: Report, report: Report, class: FindingClass)
    requires
        judged(post, report),
    ensures
        ({
            let list = finding_views(post.findings@);
            let left = forall|i: int|
                0 <= i < list.len() ==> !repairable((#[trigger] list[i]).class);
            let n = list.filter(|f: FindingView| f.class == class).len();
            let views = finding_views(report.findings@);
            &&& left ==> report == post
            &&& !left ==> report.exit_code == 2 && report.passes_run == post.passes_run
            &&& forall|i: int| 0 <= i < list.len() ==> views.contains(#[trigger] list[i])
            &&& repairable(class) && n > 0 ==> exists|k: int|
                {
                    &&& 0 <= k < views.len()
                    &&& (#[trigger] views[k]).class is PostRepairRecountDirty
                    &&& views[k].severity is Critical
                    &&& views[k].evidence == dec(n) + " "@ + class.name()
                        + " finding(s) survived --repair, which claims to repair that class: the repair did not finish, and no report of this store is clean until it does"@
                }
        }),
{
    let list = finding_views(post.findings@);
    let views = finding_views(report.findings@);
    lemma_class_counted(list, class);
    lemma_class_at(class);
    lemma_count_class(list, class);
    if unfinished(list) {
        let more = survivors(list, 17);
        assert forall|i: int| 0 <= i < list.len() implies views.contains(#[trigger] list[i]) by {
            assert((list + more)[i] == list[i]);
            lemma_permuted(list + more, views, list[i]);
        }
        if repairable(class) && count_class(list, class) > 0 {
            let k = lemma_survivor_of(list, 17, class);
            assert((list + more)[list.len() + k] == more[k]);
            lemma_permuted(list + more, views, more[k]);
            let j = choose|j: int| 0 <= j < views.len() && views[j] == more[k];
            assert(views[j].class is PostRepairRecountDirty);
        }
    } else {
        assert forall|i: int| 0 <= i < list.len() implies views.contains(#[trigger] list[i]) by {
            assert(views[i] == list[i]);
        }
        if count_class(list, class) > 0 && repairable(class) {
            let i = choose|i: int| 0 <= i < list.len() && (#[trigger] list[i]).class == class;
            assert(repairable(list[i].class));
        }
    }
}

} // verus!
