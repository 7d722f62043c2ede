use vstd::prelude::*;

verus! {

/// The `w` lowest bits set.
#[verifier::inline]
pub open spec fn low_mask(w: u64) -> u64 {
    !(0xffff_ffff_ffff_ffffu64 << w)
}

/// The unsigned field of width `w` at bit offset `o` of `x`.
#[verifier::inline]
pub open spec fn field(x: u64, o: u64, w: u64) -> u64 {
    (x >> o) & low_mask(w)
}

/// `acc` with `v`, cut to `w` bits, inserted at offset `o`.
#[verifier::inline]
pub open spec fn put(acc: u64, v: u64, o: u64, w: u64) -> u64 {
    acc | ((v & low_mask(w)) << o)
}

/// Inserting a field leaves every field that does not overlap it unchanged.
pub proof fn lemma_put_other(acc: u64, v: u64, o: u64, w: u64, o2: u64, w2: u64)
    requires
        o <= 64,
        w <= 64,
        o2 <= 64,
        w2 <= 64,
        o + w <= 64,
        o2 + w2 <= 64,
        o + w <= o2 || o2 + w2 <= o,
    ensures
        field(put(acc, v, o, w), o2, w2) == field(acc, o2, w2),
{
    assert(field(put(acc, v, o, w), o2, w2) == field(acc, o2, w2)) by (bit_vector)
        requires
            o <= 64,
            w <= 64,
            o2 <= 64,
            w2 <= 64,
            o + w <= 64,
            o2 + w2 <= 64,
            o + w <= o2 || o2 + w2 <= o,
    ;
}

/// Inserting a field into a zero field makes it read back as the inserted value.
pub proof fn lemma_put_same(acc: u64, v: u64, o: u64, w: u64)
    requires
        o < 64,
        0 < w <= 64,
        o + w <= 64,
        field(acc, o, w) == 0,
    ensures
        field(put(acc, v, o, w), o, w) == v & low_mask(w),
{
    assert(field(put(acc, v, o, w), o, w) == v & low_mask(w)) by (bit_vector)
        requires
            o < 64,
            0 < w <= 64,
            o + w <= 64,
            field(acc, o, w) == 0,
    ;
}

/// The low `o + w` bits of `x` are its low `o` bits with field `(o, w)` put back.
pub proof fn lemma_low_extend(x: u64, o: u64, w: u64)
    requires
        o < 64,
        0 < w < 64,
        o + w < 64,
    ensures
        x & low_mask((o + w) as u64) == put(x & low_mask(o), field(x, o, w), o, w),
{
    assert(x & low_mask((o + w) as u64) == put(x & low_mask(o), field(x, o, w), o, w)) by (bit_vector)
        requires
            o < 64,
            0 < w < 64,
            o + w < 64,
    ;
}

} // verus!
