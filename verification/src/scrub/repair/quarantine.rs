//! Where a quarantined file goes.

use vstd::prelude::*;
use vstd::seq_lib::*;
use vstd::set_lib::*;
use vstd::string::*;

use crate::cas::QUARANTINE_DIR_NAME;
use crate::metastore::block::{join_path, path_join};
use crate::scrub::trees::text_views;
use crate::text::{dec, digit, equal_text, put_len_dec};

verus! {

/// The name a file takes in quarantine where so many names before it are taken:
/// its own, and then its own with a number behind it.
pub open spec fn quarantine_name(base: Seq<char>, collision: nat) -> Seq<char> {
    if collision == 0 {
        base
    } else {
        base + "."@ + dec(collision)
    }
}

/// Numbers are told apart by their digits.
proof fn lemma_dec_injective(a: nat, b: nat)
    requires
        dec(a) == dec(b),
    ensures
        a == b,
    decreases a,
{
    lemma_dec_len(a);
    lemma_dec_len(b);
    let (x, y) = (dec(a), dec(b));
    assert(x.last() == digit(a % 10));
    assert(y.last() == digit(b % 10));
    assert(a % 10 == b % 10);
    if a >= 10 && b >= 10 {
        assert(x.drop_last() =~= dec(a / 10));
        assert(y.drop_last() =~= dec(b / 10));
        lemma_dec_injective(a / 10, b / 10);
    } else if a >= 10 {
        lemma_dec_len(a / 10);
        assert(x.len() > 1);
    } else if b >= 10 {
        lemma_dec_len(b / 10);
        assert(y.len() > 1);
    }
}

proof fn lemma_dec_len(n: nat)
    ensures
        dec(n).len() >= 1,
        n < 10 ==> dec(n).len() == 1,
    decreases n,
{
    if n >= 10 {
        lemma_dec_len(n / 10);
    }
}

/// Different collisions give different names.
proof fn lemma_names_differ(base: Seq<char>, a: nat, b: nat)
    requires
        quarantine_name(base, a) == quarantine_name(base, b),
    ensures
        a == b,
{
    reveal_strlit(".");
    lemma_dec_len(a);
    lemma_dec_len(b);
    let (x, y) = (quarantine_name(base, a), quarantine_name(base, b));
    if a > 0 && b > 0 {
        let n = base.len() + 1;
        assert(x.subrange(n as int, x.len() as int) =~= dec(a));
        assert(y.subrange(n as int, y.len() as int) =~= dec(b));
        lemma_dec_injective(a, b);
    } else if a > 0 {
        assert(x.len() > y.len());
    } else if b > 0 {
        assert(y.len() > x.len());
    }
}

/// There are at least as many taken names as collisions.
proof fn lemma_collisions(base: Seq<char>, taken: Seq<Seq<char>>, k: nat)
    requires
        forall|j: nat| j < k ==> taken.contains(#[trigger] quarantine_name(base, j)),
    ensures
        k <= taken.len(),
{
    let names = Seq::new(k, |j: int| quarantine_name(base, j as nat));
    assert(names.no_duplicates()) by {
        assert forall|i: int, j: int|
            0 <= i < names.len() && 0 <= j < names.len() && i != j implies names[i]
            != names[j] by {
            if names[i] == names[j] {
                lemma_names_differ(base, i as nat, j as nat);
            }
        }
    }
    names.unique_seq_to_set();
    taken.lemma_cardinality_of_set();
    seq_to_set_is_finite(taken);
    assert(names.to_set().subset_of(taken.to_set())) by {
        assert forall|name: Seq<char>| names.to_set().contains(name) implies taken.to_set().contains(
            name,
        ) by {
            let i = choose|i: int| 0 <= i < names.len() && names[i] == name;
            assert(taken.contains(quarantine_name(base, i as nat)));
        }
    }
    lemma_len_subset(names.to_set(), taken.to_set());
}

/// Whether a name is taken.
fn is_taken(taken: &Vec<String>, name: &str) -> (yes: bool)
    ensures
        yes == text_views(taken@).contains(name@),
{
    let mut i: usize = 0;
    while i < taken.len()
        invariant
            i <= taken@.len(),
            forall|j: int| 0 <= j < i ==> (#[trigger] text_views(taken@)[j]) != name@,
        decreases taken@.len() - i,
    {
        proof {
            assert(text_views(taken@)[i as int] == taken@[i as int]@);
        }
        if equal_text(&taken[i], name) {
            return true;
        }
        i = i + 1;
    }
    false
}

/// Where a file goes in the quarantine of a blocks root, given the names that
/// are taken there: under its own name, or, so that nothing set aside earlier is
/// overwritten, under the first numbered one that is free.
pub fn quarantine_dest(root: &str, base: &str, taken: &Vec<String>) -> (dest: String)
    ensures
        exists|k: nat|
            {
                &&& dest@ == path_join(
                    path_join(root@, QUARANTINE_DIR_NAME@),
                    #[trigger] quarantine_name(base@, k),
                )
                &&& !text_views(taken@).contains(quarantine_name(base@, k))
                &&& forall|j: nat|
                    j < k ==> text_views(taken@).contains(#[trigger] quarantine_name(base@, j))
            },
{
    let dir = join_path(root, QUARANTINE_DIR_NAME);
    let mut name = base.to_owned();
    let mut k: usize = 0;
    while is_taken(taken, &name)
        invariant
            dir@ == path_join(root@, QUARANTINE_DIR_NAME@),
            k <= taken@.len(),
            name@ == quarantine_name(base@, k as nat),
            forall|j: nat|
                j < k ==> text_views(taken@).contains(#[trigger] quarantine_name(base@, j)),
        decreases taken@.len() - k,
    {
        proof {
            assert forall|j: nat| j < k + 1 implies text_views(taken@).contains(
                #[trigger] quarantine_name(base@, j),
            ) by {}
            lemma_collisions(base@, text_views(taken@), (k + 1) as nat);
            assert(k < taken.len());
        }
        k = k + 1;
        name = base.to_owned();
        name.append(".");
        put_len_dec(&mut name, k);
    }
    join_path(&dir, &name)
}

/// A file keeps its name in quarantine where that is free, and otherwise gets a
/// number behind a dot; different numbers are different names.
pub proof fn lemma_quarantine_names(base: Seq<char>, j: nat, k: nat)
    ensures
        quarantine_name(base, 0) == base,
        k > 0 ==> quarantine_name(base, k) == base + "."@ + dec(k),
        j != k ==> quarantine_name(base, j) != quarantine_name(base, k),
{
    if quarantine_name(base, j) == quarantine_name(base, k) {
        lemma_names_differ(base, j, k);
    }
}

} // verus!
