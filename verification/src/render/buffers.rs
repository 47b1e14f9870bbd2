//! Sizes and layouts of GPU buffers.
use vstd::arithmetic::power2::*;
use vstd::prelude::*;

use crate::ieee::power::{bit_length, power_of_two};

verus! {

/// Bytes of one star instance: direction, color, intensity and core size.
pub const STAR_INSTANCE_BYTES: u64 = 32;

/// Bytes of one frustum vertex: position and color.
pub const FRUSTUM_VERTEX_BYTES: u64 = 28;

/// Bytes of one wireframe instance: center, half size and color.
pub const WIRE_INSTANCE_BYTES: u64 = 32;

/// Bytes of one corner of the shared cube mesh.
pub const CUBE_CORNER_BYTES: u64 = 12;

/// Number of vertices in the shared cube mesh (12 edges x 2 endpoints).
pub const CUBE_VERTEX_COUNT: u32 = 24;

/// Star and wireframe instances that the buffers hold at first.
pub const INITIAL_INSTANCES: u64 = 4096;

/// Frustum vertices that the buffer holds at first.
pub const INITIAL_FRUSTUM_VERTICES: u64 = 256;

/// `r` is the smallest power of two that is not below `n`.
pub open spec fn is_next_power(n: u64, r: u64) -> bool {
    exists|k: nat| #[trigger] pow2(k) == r && n <= r && (k > 0 ==> pow2((k - 1) as nat) < n)
}

/// The smallest power of two that is not below `n`.
fn next_power(n: u64) -> (r: u64)
    requires
        n <= 0x8000_0000_0000_0000,
    ensures
        is_next_power(n, r),
{
    proof {
        lemma2_to64();
        lemma2_to64_rest();
    }
    if n <= 1 {
        assert(pow2(0) == 1);
        return 1;
    }
    let k: u32 = bit_length((n - 1) as u128);
    proof {
        if k > 64 {
            lemma_pow2_strictly_increases(64, (k - 1) as nat);
        }
        if k == 64 {
            assert(pow2(63) <= n - 1);
        }
        if k < 63 {
            lemma_pow2_strictly_increases(k as nat, 63);
        }
    }
    power_of_two(k) as u64
}

/// The capacity of a buffer that has to hold `needed` items: as it is where they fit, else the
/// smallest power of two that holds them.
pub open spec fn is_grown(capacity: u64, needed: u64, r: u64) -> bool {
    if needed > capacity {
        is_next_power(needed, r)
    } else {
        r == capacity
    }
}

/// The capacity that a buffer of `capacity` items gets to hold `needed` items; `None` where it
/// stays as it is.
pub fn grown_capacity(capacity: u64, needed: u64) -> (r: Option<u64>)
    requires
        needed <= 0x8000_0000_0000_0000,
    ensures
        r is Some <==> needed > capacity,
        is_grown(
            capacity,
            needed,
            match r {
                Some(c) => c,
                None => capacity,
            },
        ),
{
    if needed > capacity {
        Some(next_power(needed))
    } else {
        None
    }
}

/// One attribute of a vertex: where it starts, which shader location it feeds, and how many
/// `binary32` numbers it has.
#[derive(Clone, Copy, PartialEq, Eq, Structural, Debug)]
pub struct Attribute {
    pub offset: u64,
    pub location: u32,
    pub numbers: u64,
}

/// The attributes follow each other without gaps, from `start` to `end`, and feed consecutive
/// locations from `location` on.
pub open spec fn is_packed(attributes: Seq<Attribute>, start: u64, end: u64, location: u32) -> bool
    decreases attributes.len(),
{
    if attributes.len() == 0 {
        start == end
    } else {
        let a = attributes[0];
        &&& a.offset == start
        &&& a.location == location
        &&& start + 4 * a.numbers <= u64::MAX
        &&& location < u32::MAX
        &&& is_packed(
            attributes.drop_first(),
            (start + 4 * a.numbers) as u64,
            end,
            (location + 1) as u32,
        )
    }
}

/// The attributes of a star instance: direction, color, intensity, core size.
pub fn star_attributes() -> (r: [Attribute; 4])
    ensures
        r@ == seq![
            Attribute { offset: 0, location: 0, numbers: 3 },
            Attribute { offset: 12, location: 1, numbers: 3 },
            Attribute { offset: 24, location: 2, numbers: 1 },
            Attribute { offset: 28, location: 3, numbers: 1 },
        ],
        is_packed(r@, 0, STAR_INSTANCE_BYTES, 0),
{
    proof {
        reveal_with_fuel(is_packed, 5);
    }
    [
        Attribute { offset: 0, location: 0, numbers: 3 },
        Attribute { offset: 12, location: 1, numbers: 3 },
        Attribute { offset: 24, location: 2, numbers: 1 },
        Attribute { offset: 28, location: 3, numbers: 1 },
    ]
}

/// The attributes of a frustum vertex: position, color.
pub fn frustum_attributes() -> (r: [Attribute; 2])
    ensures
        r@ == seq![
            Attribute { offset: 0, location: 0, numbers: 3 },
            Attribute { offset: 12, location: 1, numbers: 4 },
        ],
        is_packed(r@, 0, FRUSTUM_VERTEX_BYTES, 0),
{
    proof {
        reveal_with_fuel(is_packed, 3);
    }
    [
        Attribute { offset: 0, location: 0, numbers: 3 },
        Attribute { offset: 12, location: 1, numbers: 4 },
    ]
}

/// The attribute of a corner of the cube mesh: its position.
pub fn cube_attributes() -> (r: [Attribute; 1])
    ensures
        r@ == seq![Attribute { offset: 0, location: 0, numbers: 3 }],
        is_packed(r@, 0, CUBE_CORNER_BYTES, 0),
{
    proof {
        reveal_with_fuel(is_packed, 2);
    }
    [Attribute { offset: 0, location: 0, numbers: 3 }]
}

/// The attributes of a wireframe instance: center, half size, color. They follow the mesh's own
/// in the shader.
pub fn wire_attributes() -> (r: [Attribute; 3])
    ensures
        r@ == seq![
            Attribute { offset: 0, location: 1, numbers: 3 },
            Attribute { offset: 12, location: 2, numbers: 1 },
            Attribute { offset: 16, location: 3, numbers: 4 },
        ],
        is_packed(r@, 0, WIRE_INSTANCE_BYTES, 1),
{
    proof {
        reveal_with_fuel(is_packed, 4);
    }
    [
        Attribute { offset: 0, location: 1, numbers: 3 },
        Attribute { offset: 12, location: 2, numbers: 1 },
        Attribute { offset: 16, location: 3, numbers: 4 },
    ]
}

} // verus!
