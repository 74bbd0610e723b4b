//! Octants of a cube and the keys that record, level by level, in which
//! octant of the enclosing cube a position lies.
use vstd::prelude::*;

verus! {

/// The deepest level a key can describe: three bits per level in 64 bits.
pub const MAX_LEVELS: u32 = 21;

/// The octant of `key` at `level`: the three bits that start at bit
/// `3 * level`.
pub open spec fn spec_octant_at(key: u64, level: u32) -> u64 {
    (key >> ((3 * level) as u64)) & 7
}

/// The octant, from 0 to 7, in which the position behind `key` lies at
/// `level` (0 for the cube that spans the world).
pub fn octant_at(key: u64, level: u32) -> (o: usize)
    requires
        level < MAX_LEVELS,
    ensures
        o == spec_octant_at(key, level),
        o < 8,
{
    let shift: u64 = (3 * level) as u64;
    let o: u64 = (key >> shift) & 7;
    assert(o < 8) by (bit_vector)
        requires
            o == (key >> shift) & 7,
    ;
    o as usize
}

/// The number of an octant, from whether the position lies below the
/// centre of the cube on the x, the y and the z axis.
pub open spec fn spec_octant_of(x_below: bool, y_below: bool, z_below: bool) -> u8 {
    let x = if x_below { 4int } else { 0 };
    let y = if y_below { 2int } else { 0 };
    let z = if z_below { 1int } else { 0 };
    (x + y + z) as u8
}

/// The number of an octant, from whether the position lies below the
/// centre of the cube on the x, the y and the z axis.
pub fn octant_of(x_below: bool, y_below: bool, z_below: bool) -> (o: u8)
    ensures
        o == spec_octant_of(x_below, y_below, z_below),
        o < 8,
{
    let x: u8 = if x_below { 4 } else { 0 };
    let y: u8 = if y_below { 2 } else { 0 };
    let z: u8 = if z_below { 1 } else { 0 };
    x + y + z
}

/// `key` with the three bits of `level` replaced by those of `octant`.
pub open spec fn spec_with_octant(key: u64, level: u32, octant: u8) -> u64 {
    (key & !(7u64 << ((3 * level) as u64))) | ((octant as u64) << ((3 * level) as u64))
}

/// `key` with its octant at `level` replaced by `octant`; the octants at
/// the other levels stay.
pub fn with_octant(key: u64, level: u32, octant: u8) -> (k: u64)
    requires
        level < MAX_LEVELS,
        octant < 8,
    ensures
        k == spec_with_octant(key, level, octant),
        spec_octant_at(k, level) == octant,
        forall|l: u32|
            l < MAX_LEVELS && l != level ==> spec_octant_at(k, l) == spec_octant_at(key, l),
{
    let shift: u64 = (3 * level) as u64;
    let o: u64 = octant as u64;
    let k: u64 = (key & !(7u64 << shift)) | (o << shift);
    proof {
        assert(((k >> shift) & 7) == o) by (bit_vector)
            requires
                k == (key & !(7u64 << shift)) | (o << shift),
                o < 8,
                shift <= 60,
        ;
        assert forall|l: u32| l < MAX_LEVELS && l != level implies spec_octant_at(k, l)
            == spec_octant_at(key, l) by {
            let other: u64 = (3 * l) as u64;
            let a: u64 = level as u64;
            let b: u64 = l as u64;
            assert(((k >> other) & 7) == ((key >> other) & 7)) by (bit_vector)
                requires
                    k == (key & !(7u64 << shift)) | (o << shift),
                    o < 8,
                    shift == 3 * a,
                    other == 3 * b,
                    a < 21,
                    b < 21,
                    a != b,
            ;
        }
    }
    k
}

} // verus!
