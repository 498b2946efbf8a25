//! What it means for a list to answer a list of questions.

use vstd::prelude::*;

verus! {

/// Whether `at` says which place each item answers: places in ascending order,
/// each of them asked for, and every place that is asked for.
pub open spec fn answers_at<Y>(
    list: Seq<Y>,
    n: int,
    asked: spec_fn(int) -> bool,
    fits: spec_fn(int, Y) -> bool,
    at: Seq<int>,
) -> bool {
    &&& at.len() == list.len()
    &&& forall|k: int|
        0 <= k < at.len() ==> 0 <= (#[trigger] at[k]) < n && asked(at[k]) && fits(at[k], list[k])
    &&& forall|k: int, l: int| 0 <= k < l < at.len() ==> #[trigger] at[k] < #[trigger] at[l]
    &&& forall|i: int| 0 <= i < n && #[trigger] asked(i) ==> at.contains(i)
}

/// Whether a list has exactly one item for each of the first `n` places that is
/// asked for, in the order of the places, and nothing else.
pub open spec fn answers<Y>(
    list: Seq<Y>,
    n: int,
    asked: spec_fn(int) -> bool,
    fits: spec_fn(int, Y) -> bool,
) -> bool {
    exists|at: Seq<int>| #[trigger] answers_at(list, n, asked, fits, at)
}

/// A list that grows by one item at each place that is asked for, and stays as it
/// is at any other, answers.
pub proof fn lemma_answers_grow<Y>(
    grown: spec_fn(int) -> Seq<Y>,
    n: int,
    asked: spec_fn(int) -> bool,
    fits: spec_fn(int, Y) -> bool,
)
    requires
        0 <= n,
        grown(0) == Seq::<Y>::empty(),
        forall|i: int|
            0 <= i < n ==> if asked(i) {
                &&& (#[trigger] grown(i + 1)) == grown(i).push(grown(i + 1).last())
                &&& fits(i, grown(i + 1).last())
            } else {
                grown(i + 1) == grown(i)
            },
    ensures
        answers(grown(n), n, asked, fits),
    decreases n,
{
    if n == 0 {
        assert(answers_at(grown(0), 0, asked, fits, Seq::empty()));
    } else {
        lemma_answers_grow(grown, n - 1, asked, fits);
        let list = grown(n - 1);
        let at = choose|at: Seq<int>| #[trigger] answers_at(list, n - 1, asked, fits, at);
        let longer = grown(n - 1 + 1);
        if asked(n - 1) {
            let more = at.push(n - 1);
            assert forall|k: int| 0 <= k < more.len() implies 0 <= (#[trigger] more[k]) < n
                && asked(more[k]) && fits(more[k], longer[k]) by {
                if k < at.len() {
                    assert(more[k] == at[k]);
                    assert(longer[k] == list[k]);
                }
            }
            assert forall|i: int| 0 <= i < n && #[trigger] asked(i) implies more.contains(i) by {
                if i < n - 1 {
                    assert(at.contains(i));
                    let k = choose|k: int| 0 <= k < at.len() && at[k] == i;
                    assert(more[k] == i);
                } else {
                    assert(more[at.len() as int] == i);
                }
            }
            assert(answers_at(longer, n, asked, fits, more));
        } else {
            assert(answers_at(longer, n, asked, fits, at));
        }
    }
}

/// The place that an item of a list that answers stands for.
pub proof fn lemma_item_asked<Y>(
    list: Seq<Y>,
    n: int,
    asked: spec_fn(int) -> bool,
    fits: spec_fn(int, Y) -> bool,
    k: int,
) -> (i: int)
    requires
        answers(list, n, asked, fits),
        0 <= k < list.len(),
    ensures
        0 <= i < n,
        asked(i),
        fits(i, list[k]),
{
    let at = choose|at: Seq<int>| #[trigger] answers_at(list, n, asked, fits, at);
    at[k]
}

/// The item that stands for a place that is asked for.
pub proof fn lemma_place_answered<Y>(
    list: Seq<Y>,
    n: int,
    asked: spec_fn(int) -> bool,
    fits: spec_fn(int, Y) -> bool,
    i: int,
) -> (k: int)
    requires
        answers(list, n, asked, fits),
        0 <= i < n,
        asked(i),
    ensures
        0 <= k < list.len(),
        fits(i, list[k]),
{
    let at = choose|at: Seq<int>| #[trigger] answers_at(list, n, asked, fits, at);
    assert(at.contains(i));
    let k = choose|k: int| 0 <= k < at.len() && at[k] == i;
    assert(fits(at[k], list[k]));
    k
}

/// Two items of a list that answers stand for two places, in their order.
pub proof fn lemma_items_apart<Y>(
    list: Seq<Y>,
    n: int,
    asked: spec_fn(int) -> bool,
    fits: spec_fn(int, Y) -> bool,
    k: int,
    l: int,
) -> (places: (int, int))
    requires
        answers(list, n, asked, fits),
        0 <= k < l < list.len(),
    ensures
        0 <= places.0 < places.1 < n,
        asked(places.0) && fits(places.0, list[k]),
        asked(places.1) && fits(places.1, list[l]),
{
    let at = choose|at: Seq<int>| #[trigger] answers_at(list, n, asked, fits, at);
    assert(at[k] < at[l]);
    (at[k], at[l])
}

/// Lists that answer the same questions, where each question has one answer, are
/// the same list.
pub proof fn lemma_answers_unique<Y>(
    a: Seq<Y>,
    b: Seq<Y>,
    n: int,
    asked: spec_fn(int) -> bool,
    fits: spec_fn(int, Y) -> bool,
)
    requires
        answers(a, n, asked, fits),
        answers(b, n, asked, fits),
        forall|i: int, x: Y, y: Y| #[trigger] fits(i, x) && #[trigger] fits(i, y) ==> x == y,
    ensures
        a == b,
{
    let p = choose|at: Seq<int>| #[trigger] answers_at(a, n, asked, fits, at);
    let q = choose|at: Seq<int>| #[trigger] answers_at(b, n, asked, fits, at);
    assert forall|i: int| p.contains(i) <==> q.contains(i) by {
        if p.contains(i) {
            let k = choose|k: int| 0 <= k < p.len() && p[k] == i;
            assert(asked(p[k]));
        }
        if q.contains(i) {
            let k = choose|k: int| 0 <= k < q.len() && q[k] == i;
            assert(asked(q[k]));
        }
    }
    lemma_places_unique(p, q);
    assert forall|k: int| 0 <= k < a.len() implies a[k] == b[k] by {
        assert(fits(p[k], a[k]));
        assert(fits(q[k], b[k]));
    }
    assert(a =~= b);
}

proof fn lemma_places_unique(p: Seq<int>, q: Seq<int>)
    requires
        forall|k: int, l: int| 0 <= k < l < p.len() ==> #[trigger] p[k] < #[trigger] p[l],
        forall|k: int, l: int| 0 <= k < l < q.len() ==> #[trigger] q[k] < #[trigger] q[l],
        forall|i: int| p.contains(i) <==> q.contains(i),
    ensures
        p == q,
    decreases p.len(),
{
    if p.len() == 0 {
        if q.len() > 0 {
            assert(q.contains(q[0]));
        }
        assert(p =~= q);
    } else {
        assert(p.contains(p.last()));
        let k = choose|k: int| 0 <= k < q.len() && q[k] == p.last();
        assert(q.contains(q.last()));
        let l = choose|l: int| 0 <= l < p.len() && p[l] == q.last();
        assert(p.last() == q.last());
        let (x, y) = (p.drop_last(), q.drop_last());
        assert forall|i: int| x.contains(i) <==> y.contains(i) by {
            if x.contains(i) {
                let a = choose|a: int| 0 <= a < x.len() && x[a] == i;
                assert(p[a] == i);
                assert(p.contains(i));
                let b = choose|b: int| 0 <= b < q.len() && q[b] == i;
                assert(y[b] == i);
            }
            if y.contains(i) {
                let a = choose|a: int| 0 <= a < y.len() && y[a] == i;
                assert(q[a] == i);
                assert(q.contains(i));
                let b = choose|b: int| 0 <= b < p.len() && p[b] == i;
                assert(x[b] == i);
            }
        }
        lemma_places_unique(x, y);
        assert(p =~= x.push(p.last()));
        assert(q =~= y.push(q.last()));
    }
}

} // verus!
