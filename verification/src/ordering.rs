//! Orders used by aggregation: byte-wise order of text keys (the order of
//! `String` in Rust) and the integer keys that stand for observed readings.

use vstd::prelude::*;

verus! {

/// The outcome of comparing two keys.
#[derive(Clone, Copy, Debug, PartialEq, Eq, Structural)]
pub enum KeyOrder {
    Less,
    Equal,
    Greater,
}

/// Strict lexicographic order on byte strings: the first differing byte
/// decides, and a proper prefix comes first.
pub open spec fn bytes_lt(a: Seq<u8>, b: Seq<u8>) -> bool
    decreases a.len(),
{
    if a.len() == 0 {
        b.len() > 0
    } else if b.len() == 0 {
        false
    } else if a[0] != b[0] {
        a[0] < b[0]
    } else {
        bytes_lt(a.drop_first(), b.drop_first())
    }
}

/// No byte string comes before itself.
pub proof fn lemma_bytes_lt_irreflexive(a: Seq<u8>)
    ensures
        !bytes_lt(a, a),
    decreases a.len(),
{
    if a.len() > 0 {
        lemma_bytes_lt_irreflexive(a.drop_first());
    }
}

/// Of two distinct byte strings, exactly one comes first.
pub proof fn lemma_bytes_lt_total(a: Seq<u8>, b: Seq<u8>)
    ensures
        a != b ==> (bytes_lt(a, b) || bytes_lt(b, a)),
        !(bytes_lt(a, b) && bytes_lt(b, a)),
    decreases a.len(),
{
    if a.len() > 0 && b.len() > 0 && a[0] == b[0] {
        lemma_bytes_lt_total(a.drop_first(), b.drop_first());
        if a != b {
            assert(a =~= seq![a[0]] + a.drop_first());
            assert(b =~= seq![b[0]] + b.drop_first());
        }
    } else if a.len() == 0 && b.len() == 0 {
        assert(a =~= b);
    }
}

/// The order is transitive.
pub proof fn lemma_bytes_lt_transitive(a: Seq<u8>, b: Seq<u8>, c: Seq<u8>)
    requires
        bytes_lt(a, b),
        bytes_lt(b, c),
    ensures
        bytes_lt(a, c),
    decreases a.len(),
{
    if a.len() > 0 && b.len() > 0 && c.len() > 0 && a[0] == b[0] && b[0] == c[0] {
        lemma_bytes_lt_transitive(a.drop_first(), b.drop_first(), c.drop_first());
    }
}

/// Compares two byte strings in the order of `bytes_lt`.
pub fn compare_bytes(a: &[u8], b: &[u8]) -> (r: KeyOrder)
    ensures
        r == KeyOrder::Less <==> bytes_lt(a@, b@),
        r == KeyOrder::Equal <==> a@ == b@,
        r == KeyOrder::Greater <==> bytes_lt(b@, a@),
{
    proof {
        lemma_bytes_lt_total(a@, b@);
        lemma_bytes_lt_irreflexive(a@);
        assert(a@.skip(0) =~= a@);
        assert(b@.skip(0) =~= b@);
    }
    let mut i: usize = 0;
    while i < a.len() && i < b.len()
        invariant
            i <= a@.len(),
            i <= b@.len(),
            a@.take(i as int) == b@.take(i as int),
            bytes_lt(a@, b@) == bytes_lt(a@.skip(i as int), b@.skip(i as int)),
            bytes_lt(b@, a@) == bytes_lt(b@.skip(i as int), a@.skip(i as int)),
        decreases a@.len() - i,
    {
        proof {
            assert(a@.skip(i as int)[0] == a@[i as int]);
            assert(b@.skip(i as int)[0] == b@[i as int]);
        }
        if a[i] < b[i] {
            return KeyOrder::Less;
        }
        if b[i] < a[i] {
            return KeyOrder::Greater;
        }
        proof {
            assert(a@.skip(i as int).drop_first() =~= a@.skip(i as int + 1));
            assert(b@.skip(i as int).drop_first() =~= b@.skip(i as int + 1));
            assert(a@.take(i as int + 1) =~= a@.take(i as int).push(a@[i as int]));
            assert(b@.take(i as int + 1) =~= b@.take(i as int).push(b@[i as int]));
        }
        i += 1;
    }
    if i < b.len() {
        KeyOrder::Less
    } else if i < a.len() {
        KeyOrder::Greater
    } else {
        proof {
            assert(a@ =~= a@.take(i as int));
            assert(b@ =~= b@.take(i as int));
        }
        KeyOrder::Equal
    }
}

/// The sign bit of a 64-bit IEEE 754 value.
pub const SIGN_BIT: u64 = 0x8000_0000_0000_0000;

/// The integer key of a reading whose IEEE 754 bits are `bits`: negative
/// readings have all bits flipped, others get the sign bit set, so that for
/// readings that are numbers the integer order of keys is their numeric order.
pub open spec fn reading_key_of(bits: u64) -> u64 {
    if bits & SIGN_BIT != 0 {
        !bits
    } else {
        bits | SIGN_BIT
    }
}

/// The IEEE 754 bits of the reading whose key is `key`.
pub open spec fn reading_bits_of(key: u64) -> u64 {
    if key & SIGN_BIT != 0 {
        key & !SIGN_BIT
    } else {
        !key
    }
}

/// The key of a reading given by its IEEE 754 bits.
pub fn reading_key(bits: u64) -> (k: u64)
    ensures
        k == reading_key_of(bits),
{
    if bits & SIGN_BIT != 0 {
        !bits
    } else {
        bits | SIGN_BIT
    }
}

/// The IEEE 754 bits of the reading with key `key`.
pub fn reading_bits(key: u64) -> (b: u64)
    ensures
        b == reading_bits_of(key),
{
    if key & SIGN_BIT != 0 {
        key & !SIGN_BIT
    } else {
        !key
    }
}

/// Law: keys and bits correspond one to one; each conversion undoes the other.
pub proof fn lemma_reading_key_round_trip(bits: u64, key: u64)
    ensures
        reading_bits_of(reading_key_of(bits)) == bits,
        reading_key_of(reading_bits_of(key)) == key,
{
    assert(bits & 0x8000_0000_0000_0000u64 != 0 ==> (!bits) & 0x8000_0000_0000_0000u64 == 0
        && !!bits == bits) by (bit_vector);
    assert(bits & 0x8000_0000_0000_0000u64 == 0 ==> (bits | 0x8000_0000_0000_0000u64)
        & 0x8000_0000_0000_0000u64 != 0 && (bits | 0x8000_0000_0000_0000u64) & !0x8000_0000_0000_0000u64
        == bits) by (bit_vector);
    assert(key & 0x8000_0000_0000_0000u64 != 0 ==> (key & !0x8000_0000_0000_0000u64)
        & 0x8000_0000_0000_0000u64 == 0 && ((key & !0x8000_0000_0000_0000u64)
        | 0x8000_0000_0000_0000u64) == key) by (bit_vector);
    assert(key & 0x8000_0000_0000_0000u64 == 0 ==> (!key) & 0x8000_0000_0000_0000u64 != 0 && !!key
        == key) by (bit_vector);
}

/// Whether the reading with key `key` is not a number: all its exponent bits
/// are set and its fraction is not zero. Such readings have no place in the
/// order of readings.
pub open spec fn is_nan_key(key: u64) -> bool {
    let bits = reading_bits_of(key);
    &&& bits & 0x7ff0_0000_0000_0000u64 == 0x7ff0_0000_0000_0000u64
    &&& bits & 0x000f_ffff_ffff_ffffu64 != 0
}

} // verus!
