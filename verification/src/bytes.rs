//! Byte strings: little-endian integers and the lexicographic order of keys.

use vstd::prelude::*;

verus! {

/// The `width` bytes of `value`, least significant byte first.
pub open spec fn le_bytes(value: nat, width: nat) -> Seq<u8>
    decreases width,
{
    if width == 0 {
        Seq::empty()
    } else {
        seq![(value % 256) as u8] + le_bytes(value / 256, (width - 1) as nat)
    }
}

/// The number that a little-endian byte string stands for.
pub open spec fn le_value(bytes: Seq<u8>) -> nat
    decreases bytes.len(),
{
    if bytes.len() == 0 {
        0
    } else {
        bytes[0] as nat + 256 * le_value(bytes.drop_first())
    }
}

/// One more than the greatest number that `width` bytes hold.
pub open spec fn byte_range(width: nat) -> nat
    decreases width,
{
    if width == 0 {
        1
    } else {
        256 * byte_range((width - 1) as nat)
    }
}

pub proof fn lemma_byte_ranges()
    ensures
        byte_range(1) == 0x100,
        byte_range(2) == 0x1_0000,
        byte_range(8) == 0x1_0000_0000_0000_0000,
{
    reveal_with_fuel(byte_range, 9);
}

pub proof fn lemma_le_bytes_len(value: nat, width: nat)
    ensures
        le_bytes(value, width).len() == width,
    decreases width,
{
    if width > 0 {
        lemma_le_bytes_len(value / 256, (width - 1) as nat);
    }
}

/// A number that fits survives being written and read back.
pub proof fn lemma_le_value_of_le_bytes(value: nat, width: nat)
    requires
        value < byte_range(width),
    ensures
        le_value(le_bytes(value, width)) == value,
    decreases width,
{
    if width > 0 {
        let rest = le_bytes(value / 256, (width - 1) as nat);
        lemma_le_value_of_le_bytes(value / 256, (width - 1) as nat);
        assert(le_bytes(value, width).drop_first() =~= rest);
    }
}

/// A byte string survives being read and written back.
pub proof fn lemma_le_bytes_of_le_value(bytes: Seq<u8>)
    ensures
        le_bytes(le_value(bytes), bytes.len()) == bytes,
        le_value(bytes) < byte_range(bytes.len()),
    decreases bytes.len(),
{
    if bytes.len() > 0 {
        let rest = bytes.drop_first();
        lemma_le_bytes_of_le_value(rest);
        let value = le_value(bytes);
        assert(value % 256 == bytes[0] as nat);
        assert(value / 256 == le_value(rest));
        assert(le_bytes(value, bytes.len()) =~= seq![bytes[0]] + rest);
        assert(seq![bytes[0]] + rest =~= bytes);
    } else {
        assert(le_bytes(0, 0) =~= bytes);
    }
}

/// Appends `value` as `width` little-endian bytes.
pub(crate) fn put_le(out: &mut Vec<u8>, value: u64, width: usize)
    ensures
        final(out)@ == old(out)@ + le_bytes(value as nat, width as nat),
{
    let mut rest: u64 = value;
    let mut done: usize = 0;
    while done < width
        invariant
            done <= width,
            out@ + le_bytes(rest as nat, (width - done) as nat) == old(out)@ + le_bytes(
                value as nat,
                width as nat,
            ),
        decreases width - done,
    {
        let ghost before = out@;
        let ghost tail = le_bytes((rest / 256) as nat, (width - done - 1) as nat);
        out.push((rest % 256) as u8);
        proof {
            assert(before + (seq![(rest % 256) as u8] + tail) =~= before.push((rest % 256) as u8)
                + tail);
        }
        rest = rest / 256;
        done = done + 1;
    }
    proof {
        assert(out@ + Seq::<u8>::empty() =~= out@);
    }
}

/// Reads a little-endian number of at most eight bytes.
pub(crate) fn get_le(bytes: &[u8]) -> (value: u64)
    requires
        bytes@.len() <= 8,
    ensures
        value == le_value(bytes@),
{
    let mut value: u64 = 0;
    let mut left: usize = bytes.len();
    proof {
        assert(bytes@.subrange(left as int, bytes@.len() as int) =~= Seq::<u8>::empty());
    }
    while left > 0
        invariant
            left <= bytes@.len() <= 8,
            value == le_value(bytes@.subrange(left as int, bytes@.len() as int)),
        decreases left,
    {
        let ghost tail = bytes@.subrange(left as int, bytes@.len() as int);
        left = left - 1;
        proof {
            let longer = bytes@.subrange(left as int, bytes@.len() as int);
            assert(longer.drop_first() =~= tail);
            lemma_le_bytes_of_le_value(tail);
            lemma_le_bytes_of_le_value(longer);
            lemma_byte_range_monotone(longer.len(), 8);
            lemma_byte_ranges();
        }
        value = bytes[left] as u64 + 256 * value;
    }
    proof {
        assert(bytes@.subrange(0, bytes@.len() as int) =~= bytes@);
    }
    value
}

pub proof fn lemma_byte_range_monotone(a: nat, b: nat)
    requires
        a <= b,
    ensures
        1 <= byte_range(a) <= byte_range(b),
    decreases b,
{
    if b > 0 {
        if a < b {
            lemma_byte_range_monotone(a, (b - 1) as nat);
        } else {
            lemma_byte_range_monotone((a - 1) as nat, (b - 1) as nat);
        }
    }
}

/// Whether `a` is the same as `b` up to position `k` and smaller there: either
/// it ends, or its byte is the smaller one.
pub open spec fn differs_below(a: Seq<u8>, b: Seq<u8>, k: int) -> bool {
    &&& 0 <= k <= a.len()
    &&& k < b.len()
    &&& forall|i: int| 0 <= i < k ==> a[i] == b[i]
    &&& k < a.len() ==> a[k] < b[k]
}

/// The lexicographic order of byte strings, in which a prefix sorts first.
pub open spec fn bytes_lt(a: Seq<u8>, b: Seq<u8>) -> bool {
    exists|k: int| differs_below(a, b, k)
}

/// No byte string is below itself.
pub proof fn lemma_bytes_lt_irreflexive(a: Seq<u8>)
    ensures
        !bytes_lt(a, a),
{
}

/// Of two byte strings at most one is the smaller.
pub proof fn lemma_bytes_lt_asymmetric(a: Seq<u8>, b: Seq<u8>)
    requires
        bytes_lt(a, b),
    ensures
        !bytes_lt(b, a),
        a != b,
{
    let k = choose|k: int| differs_below(a, b, k);
    if bytes_lt(b, a) {
        let l = choose|l: int| differs_below(b, a, l);
        if k < l {
            assert(b[k] == a[k]);
        } else if l < k {
            assert(a[l] == b[l]);
        }
    }
}

pub proof fn lemma_bytes_lt_transitive(a: Seq<u8>, b: Seq<u8>, c: Seq<u8>)
    requires
        bytes_lt(a, b),
        bytes_lt(b, c),
    ensures
        bytes_lt(a, c),
{
    let k = choose|k: int| differs_below(a, b, k);
    let l = choose|l: int| differs_below(b, c, l);
    if k <= l {
        assert(differs_below(a, c, k));
    } else {
        assert(differs_below(a, c, l));
    }
}

/// Two byte strings are equal or one of them is the smaller.
pub proof fn lemma_bytes_lt_total(a: Seq<u8>, b: Seq<u8>)
    ensures
        a == b || bytes_lt(a, b) || bytes_lt(b, a),
{
    lemma_bytes_lt_total_from(a, b, 0);
}

proof fn lemma_bytes_lt_total_from(a: Seq<u8>, b: Seq<u8>, k: int)
    requires
        0 <= k <= a.len(),
        k <= b.len(),
        forall|i: int| 0 <= i < k ==> a[i] == b[i],
    ensures
        a == b || bytes_lt(a, b) || bytes_lt(b, a),
    decreases a.len() - k,
{
    if k == a.len() && k == b.len() {
        assert(a =~= b);
    } else if k == a.len() {
        assert(differs_below(a, b, k));
    } else if k == b.len() {
        assert(differs_below(b, a, k));
    } else if a[k] < b[k] {
        assert(differs_below(a, b, k));
    } else if b[k] < a[k] {
        assert(differs_below(b, a, k));
    } else {
        lemma_bytes_lt_total_from(a, b, k + 1);
    }
}

/// Whether byte strings ascend strictly.
pub open spec fn ascending(keys: Seq<Seq<u8>>) -> bool {
    forall|i: int, j: int|
        0 <= i < j < keys.len() ==> bytes_lt(#[trigger] keys[i], #[trigger] keys[j])
}

/// Ascending byte strings are distinct.
pub proof fn lemma_ascending_unique(keys: Seq<Seq<u8>>, i: int, j: int)
    requires
        ascending(keys),
        0 <= i < keys.len(),
        0 <= j < keys.len(),
        keys[i] == keys[j],
    ensures
        i == j,
{
    if i < j {
        lemma_bytes_lt_asymmetric(keys[i], keys[j]);
    } else if j < i {
        lemma_bytes_lt_asymmetric(keys[j], keys[i]);
    }
}

/// Some byte strings ascend in one way only.
pub proof fn lemma_ascending_same(a: Seq<Seq<u8>>, b: Seq<Seq<u8>>)
    requires
        ascending(a),
        ascending(b),
        forall|key: Seq<u8>| #[trigger] a.contains(key) <==> b.contains(key),
    ensures
        a == b,
    decreases a.len(),
{
    if a.len() == 0 {
        if b.len() > 0 {
            assert(b.contains(b[0]));
            assert(a.contains(b[0]));
        }
        assert(a =~= b);
    } else {
        assert(a.contains(a[0]));
        assert(b.len() > 0);
        let m = a.len() - 1;
        let n = b.len() - 1;
        assert(a.contains(a[m]));
        assert(b.contains(b[n]));
        assert(b.contains(a[m]));
        assert(a.contains(b[n]));
        let i = choose|i: int| 0 <= i < b.len() && b[i] == a[m];
        let j = choose|j: int| 0 <= j < a.len() && a[j] == b[n];
        if i < n && j < m {
            lemma_bytes_lt_asymmetric(b[i], b[n]);
            assert(bytes_lt(a[j], a[m]));
        }
        if i < n && j == m {
            lemma_bytes_lt_irreflexive(a[m]);
        }
        if i == n && j < m {
            lemma_bytes_lt_irreflexive(b[n]);
        }
        assert(a[m] == b[n]);
        let a0 = a.drop_last();
        let b0 = b.drop_last();
        assert forall|key: Seq<u8>| #[trigger] a0.contains(key) <==> b0.contains(key) by {
            if a0.contains(key) {
                let k = choose|k: int| 0 <= k < a0.len() && a0[k] == key;
                assert(a[k] == key);
                assert(a.contains(key));
                let l = choose|l: int| 0 <= l < b.len() && b[l] == key;
                if l == n {
                    lemma_ascending_unique(a, k, m);
                }
                assert(b0[l] == key);
            }
            if b0.contains(key) {
                let k = choose|k: int| 0 <= k < b0.len() && b0[k] == key;
                assert(b[k] == key);
                assert(b.contains(key));
                assert(a.contains(key));
                let l = choose|l: int| 0 <= l < a.len() && a[l] == key;
                if l == m {
                    lemma_ascending_unique(b, k, n);
                }
                assert(a0[l] == key);
            }
        }
        lemma_ascending_same(a0, b0);
        assert(a =~= a0.push(a[m]));
        assert(b =~= b0.push(b[n]));
    }
}

/// Whether two byte strings are the same.
pub fn equal_bytes(a: &[u8], b: &[u8]) -> (same: bool)
    ensures
        same == (a@ == b@),
{
    if a.len() != b.len() {
        return false;
    }
    let mut i: usize = 0;
    while i < a.len()
        invariant
            i <= a@.len(),
            a@.len() == b@.len(),
            forall|j: int| 0 <= j < i ==> a@[j] == b@[j],
        decreases a@.len() - i,
    {
        if a[i] != b[i] {
            return false;
        }
        i = i + 1;
    }
    proof {
        assert(a@ =~= b@);
    }
    true
}

/// Whether `a` sorts before `b`.
pub fn bytes_below(a: &[u8], b: &[u8]) -> (below: bool)
    ensures
        below == bytes_lt(a@, b@),
{
    let mut i: usize = 0;
    while i < a.len() && i < b.len()
        invariant
            i <= a@.len(),
            i <= b@.len(),
            forall|j: int| 0 <= j < i ==> a@[j] == b@[j],
        decreases a@.len() - i,
    {
        if a[i] < b[i] {
            proof {
                assert(differs_below(a@, b@, i as int));
            }
            return true;
        }
        if b[i] < a[i] {
            proof {
                assert(differs_below(b@, a@, i as int));
                lemma_bytes_lt_asymmetric(b@, a@);
            }
            return false;
        }
        i = i + 1;
    }
    proof {
        if i < b@.len() {
            assert(differs_below(a@, b@, i as int));
        } else if i < a@.len() {
            assert(differs_below(b@, a@, i as int));
            lemma_bytes_lt_asymmetric(b@, a@);
        } else {
            assert(a@ =~= b@);
        }
    }
    i < b.len()
}

/// Whether `bytes` begins with `prefix`.
pub open spec fn starts_with(bytes: Seq<u8>, prefix: Seq<u8>) -> bool {
    prefix.len() <= bytes.len() && bytes.subrange(0, prefix.len() as int) == prefix
}

pub fn has_prefix(bytes: &[u8], prefix: &[u8]) -> (yes: bool)
    ensures
        yes == starts_with(bytes@, prefix@),
{
    if bytes.len() < prefix.len() {
        return false;
    }
    let mut i: usize = 0;
    while i < prefix.len()
        invariant
            i <= prefix@.len() <= bytes@.len(),
            forall|j: int| 0 <= j < i ==> bytes@[j] == prefix@[j],
        decreases prefix@.len() - i,
    {
        if bytes[i] != prefix[i] {
            proof {
                assert(bytes@.subrange(0, prefix@.len() as int)[i as int] == bytes@[i as int]);
            }
            return false;
        }
        i = i + 1;
    }
    proof {
        assert(bytes@.subrange(0, prefix@.len() as int) =~= prefix@);
    }
    true
}

/// Byte strings are told apart by the first byte in which they differ, the smaller one
/// first; one that goes on where another ends comes behind it.
pub proof fn lemma_bytes_order(
    prefix: Seq<u8>,
    x: u8,
    y: u8,
    rest: Seq<u8>,
    other: Seq<u8>,
)
    ensures
        bytes_lt(prefix, prefix.push(x) + rest),
        !bytes_lt(prefix.push(x) + rest, prefix),
        x < y ==> bytes_lt(prefix.push(x) + rest, prefix.push(y) + other),
        x > y ==> !bytes_lt(prefix.push(x) + rest, prefix.push(y) + other),
{
    let a = prefix.push(x) + rest;
    let b = prefix.push(y) + other;
    let k = prefix.len() as int;
    assert(differs_below(prefix, a, k));
    lemma_bytes_lt_asymmetric(prefix, a);
    if x < y {
        assert(differs_below(a, b, k));
    }
    if x > y {
        assert(differs_below(b, a, k));
        lemma_bytes_lt_asymmetric(b, a);
    }
}

/// A number is written with its lowest byte first.
pub proof fn lemma_lowest_first(value: nat, width: nat, byte: u8, rest: Seq<u8>)
    ensures
        width > 0 ==> le_bytes(value, width)[0] == value % 256 && le_bytes(
            value,
            width,
        ).drop_first() == le_bytes(value / 256, (width - 1) as nat),
        le_value(seq![byte] + rest) == byte + 256 * le_value(rest),
{
    assert((seq![byte] + rest).drop_first() =~= rest);
    if width > 0 {
        assert(le_bytes(value, width).drop_first() =~= le_bytes(value / 256, (width - 1) as nat));
    }
}

} // verus!
