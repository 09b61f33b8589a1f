//! Fixed-width encodings of one collation weight and of a multi-code-point key.

use vstd::prelude::*;

verus! {

/// Largest secondary weight that the tables use.
pub const SEC_MAX: u16 = 0x126;

/// Largest tertiary weight that the tables use.
pub const TER_MAX: u16 = 0x1E;

/// Largest secondary weight that its nine-bit field can hold.
pub const SEC_FIELD_MAX: u16 = 0x1FF;

/// Largest tertiary weight that its six-bit field can hold.
pub const TER_FIELD_MAX: u16 = 0x3F;

/// The four fields of one collation weight.
#[derive(Clone, Copy, Debug, PartialEq, Eq, Structural)]
pub struct Weight {
    pub variable: bool,
    pub primary: u16,
    pub secondary: u16,
    pub tertiary: u16,
}

/// A weight whose secondary and tertiary levels are within the maxima that the tables use.
pub open spec fn within_maxima(w: Weight) -> bool {
    w.secondary <= SEC_MAX && w.tertiary <= TER_MAX
}

/// A weight whose secondary and tertiary levels fit their bit fields.
pub open spec fn fits_fields(w: Weight) -> bool {
    w.secondary <= SEC_FIELD_MAX && w.tertiary <= TER_FIELD_MAX
}

/// The low half-word of a packed weight: the variable flag in bit 15, the tertiary level from
/// bit 9 up, the secondary level from bit 0 up. Levels too wide for their field spill over.
pub open spec fn low_half(w: Weight) -> u16 {
    ((if w.variable { 1u16 } else { 0u16 }) << 15) | (w.tertiary << 9) | w.secondary
}

/// The packed form of a weight: the primary level in the high half-word, `low_half` below it.
pub open spec fn packed(w: Weight) -> u32 {
    ((w.primary as u32) << 16) | (low_half(w) as u32)
}

/// The packed form of a weight whose levels fit their fields, as a sum of its four parts.
pub open spec fn packed_sum(w: Weight) -> int {
    w.primary * 0x1_0000 + (if w.variable { 0x8000int } else { 0int }) + w.tertiary * 0x200
        + w.secondary
}

/// The fields that a packed weight holds.
pub open spec fn unpacked(p: u32) -> Weight {
    Weight {
        variable: (p / 0x8000) % 2 == 1,
        primary: (p / 0x1_0000) as u16,
        secondary: (p % 0x200) as u16,
        tertiary: ((p / 0x200) % 0x40) as u16,
    }
}

/// Where the levels fit their fields, the bit fields do not overlap and the packed form is the
/// sum of the four parts.
pub proof fn lemma_packed_is_sum(w: Weight)
    requires
        fits_fields(w),
    ensures
        packed(w) == packed_sum(w),
{
    let v: u16 = if w.variable { 1 } else { 0 };
    let p = w.primary;
    let s = w.secondary;
    let t = w.tertiary;
    assert((((p as u32) << 16) | ((((v << 15) | (t << 9) | s)) as u32)) == (p as u32) * 0x1_0000
        + (v as u32) * 0x8000 + (t as u32) * 0x200 + (s as u32)) by (bit_vector)
        requires
            v <= 1,
            s <= 0x1FF,
            t <= 0x3F,
    ;
}

/// Packing and then unpacking gives back every field, for every weight whose levels fit their
/// fields.
pub proof fn lemma_unpack_pack(w: Weight)
    requires
        fits_fields(w),
    ensures
        unpacked(packed(w)) == w,
{
    let v: u16 = if w.variable { 1 } else { 0 };
    let p = w.primary;
    let s = w.secondary;
    let t = w.tertiary;
    assert({
        let x = ((p as u32) << 16) | ((((v << 15) | (t << 9) | s)) as u32);
        &&& (x / 0x8000) % 2 == v as u32
        &&& x / 0x1_0000 == p as u32
        &&& x % 0x200 == s as u32
        &&& (x / 0x200) % 0x40 == t as u32
    }) by (bit_vector)
        requires
            v <= 1,
            s <= 0x1FF,
            t <= 0x3F,
    ;
}

/// Packing and then unpacking gives back every field, for every weight within the maxima that
/// the tables use.
pub proof fn lemma_round_trip(variable: bool, primary: u16, secondary: u16, tertiary: u16)
    requires
        secondary <= SEC_MAX,
        tertiary <= TER_MAX,
    ensures
        unpacked(packed(Weight { variable, primary, secondary, tertiary })) == (Weight {
            variable,
            primary,
            secondary,
            tertiary,
        }),
{
    lemma_unpack_pack(Weight { variable, primary, secondary, tertiary });
}

/// Packs one collation weight into 32 bits. The secondary and the tertiary weight must be
/// within their maxima; unpacking the result then gives back all four fields.
pub fn pack_weights(variable: bool, primary: u16, secondary: u16, tertiary: u16) -> (p: u32)
    requires
        secondary <= SEC_MAX,
        tertiary <= TER_MAX,
    ensures
        p == packed(Weight { variable, primary, secondary, tertiary }),
        p == packed_sum(Weight { variable, primary, secondary, tertiary }),
        unpacked(p) == (Weight { variable, primary, secondary, tertiary }),
{
    let upper = (primary as u32) << 16;
    let v_int: u16 = if variable {
        1
    } else {
        0
    };
    let lower = (v_int << 15) | (tertiary << 9) | secondary;
    proof {
        lemma_packed_is_sum(Weight { variable, primary, secondary, tertiary });
        lemma_unpack_pack(Weight { variable, primary, secondary, tertiary });
    }
    upper | (lower as u32)
}

/// Unpacks a 32-bit value into the four fields of a collation weight.
pub fn unpack_weights(p: u32) -> (w: (bool, u16, u16, u16))
    ensures
        w.0 == unpacked(p).variable,
        w.1 == unpacked(p).primary,
        w.2 == unpacked(p).secondary,
        w.3 == unpacked(p).tertiary,
{
    let primary = (p >> 16) as u16;
    let lower = (p & 0xFFFF) as u16;
    let variable = lower >> 15 == 1;
    let secondary = lower & 0b1_1111_1111;
    let tertiary = (lower >> 9) & 0b11_1111;
    assert((p >> 16) == p / 0x1_0000 && (p >> 16) <= 0xFFFF) by (bit_vector);
    assert(p & 0xFFFF <= 0xFFFF) by (bit_vector);
    assert((((p & 0xFFFF) as u16) >> 15 == 1) == ((p / 0x8000) % 2 == 1)) by (bit_vector);
    assert(((p & 0xFFFF) as u16) & 0b1_1111_1111 == p % 0x200) by (bit_vector);
    assert((((p & 0xFFFF) as u16) >> 9) & 0b11_1111 == (p / 0x200) % 0x40) by (bit_vector);
    (variable, primary, secondary, tertiary)
}

/// Largest value that the slot of one code point in a packed key can hold.
pub const SLOT_MAX: u32 = 0x1F_FFFF;

/// The packed form of a key of two or three code points: each code point in a slot of 21
/// bits, the first code point in the most significant slot. Values too wide for a slot spill
/// over into the next.
pub open spec fn packed_key(points: Seq<u32>) -> u64 {
    if points.len() == 2 {
        ((points[0] as u64) << 21) | (points[1] as u64)
    } else {
        ((points[0] as u64) << 42) | ((points[1] as u64) << 21) | (points[2] as u64)
    }
}

/// Every value of the key fits its slot.
pub open spec fn fits_slots(points: Seq<u32>) -> bool {
    forall|i: int| 0 <= i < points.len() ==> #[trigger] points[i] <= SLOT_MAX
}

/// The packed form of a key whose values fit their slots, as a sum.
pub open spec fn key_sum(points: Seq<u32>) -> int {
    if points.len() == 2 {
        points[0] * 0x20_0000 + points[1]
    } else {
        points[0] * 0x400_0000_0000 + points[1] * 0x20_0000 + points[2]
    }
}

/// Where the values fit their slots, the slots do not overlap and the packed key is the sum
/// of its parts.
pub proof fn lemma_packed_key_is_sum(points: Seq<u32>)
    requires
        points.len() == 2 || points.len() == 3,
        fits_slots(points),
    ensures
        packed_key(points) == key_sum(points),
{
    let a = points[0];
    let b = points[1];
    if points.len() == 2 {
        assert((((a as u64) << 21) | (b as u64)) == (a as u64) * 0x20_0000 + (b as u64))
            by (bit_vector)
            requires
                a <= 0x1F_FFFF,
                b <= 0x1F_FFFF,
        ;
    } else {
        let c = points[2];
        assert((((a as u64) << 42) | ((b as u64) << 21) | (c as u64)) == (a as u64)
            * 0x400_0000_0000 + (b as u64) * 0x20_0000 + (c as u64)) by (bit_vector)
            requires
                a <= 0x1F_FFFF,
                b <= 0x1F_FFFF,
                c <= 0x1F_FFFF,
        ;
    }
}

/// Two keys of the same length whose values fit their slots pack to the same integer only if
/// they are the same key.
pub proof fn lemma_packed_key_injective(p: Seq<u32>, q: Seq<u32>)
    requires
        p.len() == 2 || p.len() == 3,
        p.len() == q.len(),
        fits_slots(p),
        fits_slots(q),
        packed_key(p) == packed_key(q),
    ensures
        p == q,
{
    lemma_packed_key_is_sum(p);
    lemma_packed_key_is_sum(q);
}

/// A key of two code points and a key of three pack to the same integer only if the key of
/// three starts with the code point 0.
pub proof fn lemma_packed_key_lengths(p: Seq<u32>, q: Seq<u32>)
    requires
        p.len() == 2,
        q.len() == 3,
        fits_slots(p),
        fits_slots(q),
        packed_key(p) == packed_key(q),
    ensures
        q[0] == 0,
        q[1] == p[0],
        q[2] == p[1],
{
    lemma_packed_key_is_sum(p);
    lemma_packed_key_is_sum(q);
}

/// Packs a key of two or three code points into 64 bits.
pub fn pack_code_points(code_points: &[u32]) -> (key: u64)
    requires
        code_points.len() == 2 || code_points.len() == 3,
    ensures
        key == packed_key(code_points@),
        fits_slots(code_points@) ==> key == key_sum(code_points@),
{
    proof {
        if fits_slots(code_points@) {
            lemma_packed_key_is_sum(code_points@);
        }
    }
    if code_points.len() == 2 {
        ((code_points[0] as u64) << 21) | (code_points[1] as u64)
    } else {
        ((code_points[0] as u64) << 42) | ((code_points[1] as u64) << 21) | (code_points[2] as u64)
    }
}

} // verus!
