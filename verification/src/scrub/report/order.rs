//! The order of a report: worst first, and the same for the same findings.

use vstd::prelude::*;
use vstd::utf8::*;

use crate::bytes::{
    lemma_bytes_lt_asymmetric, lemma_bytes_lt_irreflexive, lemma_bytes_lt_total,
    lemma_bytes_lt_transitive,
};
use crate::scrub::findings::{finding_views, Finding, FindingView};
use crate::text::{equal_text, opt_text, text_below, text_lt};

verus! {

/// The order of optional texts: nothing before something.
pub open spec fn opt_text_lt(a: Option<Seq<char>>, b: Option<Seq<char>>) -> bool {
    match (a, b) {
        (None, Some(_)) => true,
        (Some(a), Some(b)) => text_lt(a, b),
        _ => false,
    }
}

/// Whether one finding stands before another: the worse severity first, then
/// by class, then block, then path, then evidence.
pub open spec fn precedes(a: FindingView, b: FindingView) -> bool {
    if a.severity != b.severity {
        a.severity.rank() > b.severity.rank()
    } else if a.class != b.class {
        a.class.rank() < b.class.rank()
    } else if a.block != b.block {
        opt_text_lt(a.block, b.block)
    } else if a.path != b.path {
        opt_text_lt(a.path, b.path)
    } else {
        text_lt(a.evidence, b.evidence)
    }
}

/// Whether the order does not tell two findings apart.
pub open spec fn tied(a: FindingView, b: FindingView) -> bool {
    &&& a.severity == b.severity
    &&& a.class == b.class
    &&& a.block == b.block
    &&& a.path == b.path
    &&& a.evidence == b.evidence
}

/// The findings of a list that the order does not tell from a given one.
pub open spec fn tied_with(list: Seq<FindingView>, f: FindingView) -> Seq<FindingView>
    decreases list.len(),
{
    if list.len() == 0 {
        Seq::empty()
    } else {
        let init = tied_with(list.drop_last(), f);
        if tied(list.last(), f) {
            init.push(list.last())
        } else {
            init
        }
    }
}

/// Whether a list is in report order.
pub open spec fn in_order(list: Seq<FindingView>) -> bool {
    forall|i: int, j: int|
        0 <= i < j < list.len() ==> !precedes(#[trigger] list[j], #[trigger] list[i])
}

/// Whether one list is the other in report order: it is ordered, it holds the
/// same findings as often, and findings that the order does not tell apart keep
/// their places towards each other.
pub open spec fn report_order(before: Seq<FindingView>, after: Seq<FindingView>) -> bool {
    &&& in_order(after)
    &&& after.to_multiset() == before.to_multiset()
    &&& forall|f: FindingView| #[trigger] tied_with(after, f) == tied_with(before, f)
}

/// Of two different texts one sorts before the other; never both.
pub proof fn lemma_text_total(a: Seq<char>, b: Seq<char>)
    ensures
        text_lt(a, b) || text_lt(b, a) || a == b,
        !(text_lt(a, b) && text_lt(b, a)),
        !text_lt(a, a),
{
    lemma_bytes_lt_total(encode_utf8(a), encode_utf8(b));
    encode_utf8_decode_utf8(a);
    encode_utf8_decode_utf8(b);
    lemma_bytes_lt_irreflexive(encode_utf8(a));
    if text_lt(a, b) {
        lemma_bytes_lt_asymmetric(encode_utf8(a), encode_utf8(b));
    }
}

/// The order of texts is transitive.
pub proof fn lemma_text_transitive(a: Seq<char>, b: Seq<char>, c: Seq<char>)
    requires
        text_lt(a, b),
        text_lt(b, c),
    ensures
        text_lt(a, c),
{
    lemma_bytes_lt_transitive(encode_utf8(a), encode_utf8(b), encode_utf8(c));
}

proof fn lemma_opt_total(a: Option<Seq<char>>, b: Option<Seq<char>>)
    ensures
        opt_text_lt(a, b) || opt_text_lt(b, a) || a == b,
        !(opt_text_lt(a, b) && opt_text_lt(b, a)),
        !opt_text_lt(a, a),
{
    match (a, b) {
        (Some(x), Some(y)) => {
            lemma_text_total(x, y);
        },
        (Some(x), None) => {
            lemma_text_total(x, x);
        },
        _ => {},
    }
}

proof fn lemma_opt_transitive(
    a: Option<Seq<char>>,
    b: Option<Seq<char>>,
    c: Option<Seq<char>>,
)
    requires
        opt_text_lt(a, b),
        opt_text_lt(b, c),
    ensures
        opt_text_lt(a, c),
{
    match (a, b, c) {
        (Some(x), Some(y), Some(z)) => {
            lemma_text_transitive(x, y, z);
        },
        _ => {},
    }
}

/// Of two findings one stands before the other, or they are tied; never both.
pub proof fn lemma_precedes_total(a: FindingView, b: FindingView)
    ensures
        precedes(a, b) || precedes(b, a) || tied(a, b),
        !(precedes(a, b) && precedes(b, a)),
        tied(a, b) ==> !precedes(a, b) && !precedes(b, a),
{
    lemma_opt_total(a.block, b.block);
    lemma_opt_total(a.path, b.path);
    lemma_text_total(a.evidence, b.evidence);
    lemma_text_total(b.evidence, a.evidence);
}

/// The order is transitive.
pub proof fn lemma_precedes_transitive(a: FindingView, b: FindingView, c: FindingView)
    requires
        precedes(a, b),
        precedes(b, c),
    ensures
        precedes(a, c),
{
    if a.severity == b.severity && b.severity == c.severity && a.class == b.class && b.class
        == c.class {
        lemma_opt_total(a.block, b.block);
        lemma_opt_total(b.block, c.block);
        if a.block != b.block && b.block != c.block {
            lemma_opt_transitive(a.block, b.block, c.block);
            lemma_opt_total(a.block, c.block);
        } else if a.block == b.block && b.block == c.block {
            lemma_opt_total(a.path, b.path);
            lemma_opt_total(b.path, c.path);
            if a.path != b.path && b.path != c.path {
                lemma_opt_transitive(a.path, b.path, c.path);
                lemma_opt_total(a.path, c.path);
            } else if a.path == b.path && b.path == c.path {
                lemma_text_transitive(a.evidence, b.evidence, c.evidence);
            }
        }
    }
}

/// What is tied with the same finding stands alike towards a third.
proof fn lemma_tied_alike(a: FindingView, b: FindingView, c: FindingView)
    requires
        tied(a, b),
    ensures
        precedes(a, c) == precedes(b, c),
        precedes(c, a) == precedes(c, b),
{
}

proof fn lemma_tied_concat(a: Seq<FindingView>, b: Seq<FindingView>, f: FindingView)
    ensures
        tied_with(a + b, f) == tied_with(a, f) + tied_with(b, f),
    decreases b.len(),
{
    if b.len() == 0 {
        assert(a + b =~= a);
        assert(tied_with(a, f) + tied_with(b, f) =~= tied_with(a, f));
    } else {
        assert((a + b).drop_last() =~= a + b.drop_last());
        assert((a + b).last() == b.last());
        lemma_tied_concat(a, b.drop_last(), f);
        assert(tied_with(a + b, f) =~= tied_with(a, f) + tied_with(b, f));
    }
}

proof fn lemma_tied_one(x: FindingView, f: FindingView)
    ensures
        tied_with(seq![x], f) == (if tied(x, f) {
            seq![x]
        } else {
            Seq::empty()
        }),
{
    assert(seq![x].drop_last() =~= Seq::<FindingView>::empty());
    assert(seq![x].last() == x);
    assert(tied_with(Seq::<FindingView>::empty(), f) =~= Seq::<FindingView>::empty());
    assert(Seq::<FindingView>::empty().push(x) =~= seq![x]);
}

/// A list of findings none of which is tied with `f` gives nothing.
proof fn lemma_tied_none(list: Seq<FindingView>, f: FindingView)
    requires
        forall|i: int| 0 <= i < list.len() ==> !tied(#[trigger] list[i], f),
    ensures
        tied_with(list, f) == Seq::<FindingView>::empty(),
    decreases list.len(),
{
    if list.len() > 0 {
        assert(!tied(list[list.len() - 1], f));
        assert forall|i: int| 0 <= i < list.drop_last().len() implies !tied(
            #[trigger] list.drop_last()[i],
            f,
        ) by {
            assert(!tied(list[i], f));
        }
        lemma_tied_none(list.drop_last(), f);
    }
}

/// Whether `a` stands before `b`.
fn finding_below(a: &Finding, b: &Finding) -> (below: bool)
    ensures
        below == precedes(a@, b@),
{
    let (sa, sb): (u8, u8) = (a.severity.level(), b.severity.level());
    if sa != sb {
        return sa > sb;
    }
    let (ca, cb): (usize, usize) = (a.class.index(), b.class.index());
    if ca != cb {
        return ca < cb;
    }
    if !equal_opt(&a.block, &b.block) {
        return opt_below(&a.block, &b.block);
    }
    if !equal_opt(&a.path, &b.path) {
        return opt_below(&a.path, &b.path);
    }
    text_below(&a.evidence, &b.evidence)
}

/// Whether two optional texts are the same.
pub fn equal_opt(a: &Option<String>, b: &Option<String>) -> (same: bool)
    ensures
        same == (opt_text(*a) == opt_text(*b)),
{
    match (a, b) {
        (None, None) => true,
        (Some(a), Some(b)) => equal_text(a, b),
        _ => false,
    }
}

/// Whether one optional text stands before another.
fn opt_below(a: &Option<String>, b: &Option<String>) -> (below: bool)
    ensures
        below == opt_text_lt(opt_text(*a), opt_text(*b)),
{
    match (a, b) {
        (None, Some(_)) => true,
        (Some(a), Some(b)) => text_below(a, b),
        _ => false,
    }
}

/// The place in an ordered list before which everything precedes `f`, and from
/// which nothing does.
fn place(list: &Vec<Finding>, f: &Finding) -> (at: usize)
    requires
        in_order(finding_views(list@)),
    ensures
        at <= list@.len(),
        forall|i: int| 0 <= i < at ==> precedes((#[trigger] list@[i])@, f@),
        forall|i: int| at <= i < list@.len() ==> !precedes((#[trigger] list@[i])@, f@),
{
    let ghost views = finding_views(list@);
    let mut low: usize = 0;
    let mut high: usize = list.len();
    while low < high
        invariant
            low <= high <= list@.len(),
            views == finding_views(list@),
            in_order(views),
            forall|i: int| 0 <= i < low ==> precedes((#[trigger] list@[i])@, f@),
            forall|i: int| high <= i < list@.len() ==> !precedes((#[trigger] list@[i])@, f@),
        decreases high - low,
    {
        let mid: usize = low + (high - low) / 2;
        if finding_below(&list[mid], f) {
            proof {
                assert forall|i: int| 0 <= i < mid + 1 implies precedes(
                    (#[trigger] list@[i])@,
                    f@,
                ) by {
                    if i < mid {
                        assert(!precedes(views[mid as int], views[i]));
                        lemma_precedes_total(views[i], views[mid as int]);
                        if tied(views[i], views[mid as int]) {
                            lemma_tied_alike(views[i], views[mid as int], f@);
                        } else {
                            lemma_precedes_transitive(views[i], views[mid as int], f@);
                        }
                    }
                }
            }
            low = mid + 1;
        } else {
            proof {
                assert forall|i: int| mid <= i < list@.len() implies !precedes(
                    (#[trigger] list@[i])@,
                    f@,
                ) by {
                    if i > mid && precedes(views[i], f@) {
                        assert(!precedes(views[i], views[mid as int]));
                        lemma_precedes_total(views[mid as int], views[i]);
                        if tied(views[mid as int], views[i]) {
                            lemma_tied_alike(views[mid as int], views[i], f@);
                        } else {
                            lemma_precedes_transitive(views[mid as int], views[i], f@);
                        }
                    }
                }
            }
            high = mid;
        }
    }
    low
}

proof fn lemma_insert_multiset(list: Seq<FindingView>, at: int, f: FindingView)
    requires
        0 <= at <= list.len(),
    ensures
        list.insert(at, f).to_multiset() == list.to_multiset().insert(f),
{
    let after = list.insert(at, f);
    after.to_multiset_ensures();
    assert(after[at] == f);
    assert(after.contains(f));
    assert(after.remove(at) =~= list);
    assert(list.to_multiset() == after.to_multiset().remove(f));
    assert(after.to_multiset() =~= list.to_multiset().insert(f));
}

/// Putting a finding that came first at its place keeps the order.
proof fn lemma_placed(
    before: Seq<FindingView>,
    list: Seq<FindingView>,
    at: int,
    f: FindingView,
)
    requires
        report_order(before, list),
        0 <= at <= list.len(),
        forall|i: int| 0 <= i < at ==> precedes(#[trigger] list[i], f),
        forall|i: int| at <= i < list.len() ==> !precedes(#[trigger] list[i], f),
    ensures
        report_order(seq![f] + before, list.insert(at, f)),
{
    let after = list.insert(at, f);
    assert forall|i: int, j: int| 0 <= i < j < after.len() implies !precedes(
        #[trigger] after[j],
        #[trigger] after[i],
    ) by {
        let bi = if i < at { i } else { i - 1 };
        let bj = if j < at { j } else { j - 1 };
        if i != at && j != at {
            assert(!precedes(list[bj], list[bi]));
        } else if i == at {
            assert(!precedes(list[bj], f));
        } else {
            assert(precedes(list[bi], f));
            lemma_precedes_total(list[bi], f);
        }
    }
    lemma_insert_multiset(list, at, f);
    assert((seq![f] + before).to_multiset() == before.to_multiset().insert(f)) by {
        assert(seq![f] + before =~= before.insert(0, f));
        lemma_insert_multiset(before, 0, f);
    }
    let low = list.subrange(0, at);
    let high = list.subrange(at, list.len() as int);
    assert forall|g: FindingView| #[trigger] tied_with(after, g) == tied_with(
        seq![f] + before,
        g,
    ) by {
        assert(after =~= (low + seq![f]) + high);
        assert(list =~= low + high);
        lemma_tied_concat(low + seq![f], high, g);
        lemma_tied_concat(low, seq![f], g);
        lemma_tied_concat(low, high, g);
        lemma_tied_concat(seq![f], before, g);
        lemma_tied_one(f, g);
        assert(tied_with(list, g) == tied_with(before, g));
        if tied(f, g) {
            assert forall|i: int| 0 <= i < low.len() implies !tied(#[trigger] low[i], g) by {
                assert(precedes(list[i], f));
                lemma_precedes_total(list[i], f);
            }
            lemma_tied_none(low, g);
            assert(tied_with(after, g) =~= seq![f] + tied_with(before, g));
        } else {
            assert(tied_with(after, g) =~= tied_with(before, g));
            assert(tied_with(seq![f] + before, g) =~= tied_with(before, g));
        }
    }
}

/// Puts findings into report order.
pub fn sort_findings(findings: Vec<Finding>) -> (out: Vec<Finding>)
    ensures
        report_order(finding_views(findings@), finding_views(out@)),
{
    let ghost all = finding_views(findings@);
    let mut rest = findings;
    let mut out: Vec<Finding> = Vec::new();
    proof {
        assert(all.subrange(all.len() as int, all.len() as int) =~= finding_views(out@));
        assert(finding_views(rest@) =~= all.subrange(0, rest@.len() as int));
    }
    while rest.len() > 0
        invariant
            rest@.len() <= all.len(),
            finding_views(rest@) == all.subrange(0, rest@.len() as int),
            report_order(all.subrange(rest@.len() as int, all.len() as int), finding_views(out@)),
        decreases rest@.len(),
    {
        let ghost n = rest@.len() as int;
        let ghost had = rest@;
        let ghost suffix = all.subrange(n, all.len() as int);
        match rest.pop() {
            None => {},
            Some(f) => {
                let at: usize = place(&out, &f);
                let ghost views = finding_views(out@);
                proof {
                    assert(finding_views(had)[n - 1] == f@);
                    assert(all[n - 1] == f@);
                    assert forall|i: int| 0 <= i < at implies precedes(
                        #[trigger] views[i],
                        f@,
                    ) by {
                        assert(precedes(out@[i]@, f@));
                    }
                    assert forall|i: int| at <= i < views.len() implies !precedes(
                        #[trigger] views[i],
                        f@,
                    ) by {
                        assert(!precedes(out@[i]@, f@));
                    }
                    lemma_placed(suffix, views, at as int, f@);
                    assert(all.subrange(n - 1, all.len() as int) =~= seq![f@] + suffix);
                    assert(finding_views(rest@) =~= all.subrange(0, n - 1)) by {
                        assert forall|i: int| 0 <= i < n - 1 implies finding_views(rest@)[i]
                            == all[i] by {
                            assert(finding_views(had)[i] == all[i]);
                        }
                    }
                }
                out.insert(at, f);
                proof {
                    assert(finding_views(out@) =~= views.insert(at as int, f@));
                }
            },
        }
    }
    proof {
        assert(all.subrange(0, all.len() as int) =~= all);
    }
    out
}

/// A reordered list holds the same findings.
pub proof fn lemma_permuted(a: Seq<FindingView>, b: Seq<FindingView>, f: FindingView)
    requires
        a.to_multiset() == b.to_multiset(),
        a.contains(f),
    ensures
        b.contains(f),
{
    a.to_multiset_ensures();
    b.to_multiset_ensures();
    assert(a.to_multiset().count(f) > 0);
    assert(b.to_multiset().count(f) > 0);
}

/// Ordered lists of the same findings are the same list, unless it holds
/// different findings that the order does not tell apart. So two runs over an
/// unchanged store report alike, in whatever order they came upon things.
pub proof fn lemma_order_unique(x: Seq<FindingView>, y: Seq<FindingView>)
    requires
        in_order(x),
        in_order(y),
        x.to_multiset() == y.to_multiset(),
        forall|i: int, j: int|
            0 <= i < x.len() && 0 <= j < x.len() && tied(#[trigger] x[i], #[trigger] x[j])
                ==> x[i] == x[j],
    ensures
        x == y,
    decreases x.len(),
{
    x.to_multiset_ensures();
    y.to_multiset_ensures();
    if x.len() == 0 {
        assert(x =~= y);
    } else {
        let n = x.len() - 1;
        assert(x.contains(x[n]));
        assert(y.contains(y[n]));
        lemma_permuted(x, y, x[n]);
        lemma_permuted(y, x, y[n]);
        let i = choose|i: int| 0 <= i < y.len() && y[i] == x[n];
        let j = choose|j: int| 0 <= j < x.len() && x[j] == y[n];
        if i < n {
            assert(!precedes(y[n], y[i]));
        }
        if j < n {
            assert(!precedes(x[n], x[j]));
        }
        lemma_precedes_total(x[n], y[n]);
        lemma_precedes_total(x[n], x[n]);
        assert(tied(x[n], x[j]));
        assert(x[n] == y[n]);
        let (a, b) = (x.drop_last(), y.drop_last());
        assert(a =~= x.remove(n));
        assert(b =~= y.remove(n));
        assert(in_order(a)) by {
            assert forall|i: int, j: int| 0 <= i < j < a.len() implies !precedes(
                #[trigger] a[j],
                #[trigger] a[i],
            ) by {
                assert(!precedes(x[j], x[i]));
            }
        }
        assert(in_order(b)) by {
            assert forall|i: int, j: int| 0 <= i < j < b.len() implies !precedes(
                #[trigger] b[j],
                #[trigger] b[i],
            ) by {
                assert(!precedes(y[j], y[i]));
            }
        }
        assert forall|i: int, j: int|
            0 <= i < a.len() && 0 <= j < a.len() && tied(#[trigger] a[i], #[trigger] a[j]) implies a[i]
            == a[j] by {
            assert(tied(x[i], x[j]));
        }
        lemma_order_unique(a, b);
        assert(x =~= a.push(x[n]));
        assert(y =~= b.push(y[n]));
    }
}

} // verus!
