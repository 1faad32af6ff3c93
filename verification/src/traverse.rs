//! Front-to-back child ordering for the eight-wide tree node.
//!
//! Each eight-wide node collapses a depth-3 binary subtree. A child slot
//! `c` in `[0, 8)` encodes its path from the subtree root: bit 0 is the
//! direction taken at the root (1 = the side lower along the splitting
//! axis), bit 1 the direction at depth one, bit 2 at depth two. The seven
//! splitting axes of the collapsed branch points are packed into two
//! 64-bit words, one bit of each axis value per word: in byte `c` of each
//! word, bit 2 carries the root axis, bit 1 the depth-one axis on `c`'s
//! path (chosen by `c & 1`), bit 0 the depth-two axis (chosen by `c & 3`).
//!
//! Given the per-axis signs of a ray direction, the order in which the
//! eight children should be visited (near side of every splitting plane
//! first) is a fixed permutation. `priority_word` computes, branch-free,
//! a word whose byte `c` is the priority of child `c`: 7 for the child to
//! visit first, 0 for the last. The law at the bottom of this module
//! proves the word agrees with the ground-truth recursive depth-3
//! ordering for every axis configuration and every sign configuration.

use vstd::prelude::*;

verus! {

/// Byte `c` (little-endian; byte 0 is least significant) of a 64-bit word.
pub open spec fn byte_of(w: u64, c: u64) -> u8 {
    (w >> ((8 * c) as u64)) as u8
}

/// The constant whose byte `c` is the bitwise complement of `c`'s path
/// bits, reversed so that bit 2 answers for the root branch, bit 1 for
/// depth one, bit 0 for depth two.
pub const CHILD_IDS: u64 = 0x0004_0206_0105_0307;

/// Low three bits of every byte.
pub const PATH_BITS_MASK: u64 = 0x0707_0707_0707_0707;

/// The ray-sign relevant to splitting axis `a`: true when the ray
/// direction is non-negative along that axis.
pub open spec fn sign_along(a: u8, s0: bool, s1: bool, s2: bool) -> bool {
    if a == 0 {
        s0
    } else if a == 1 {
        s1
    } else {
        s2
    }
}

/// Word whose byte `c` carries, in bits 2..0, the low bit of the three
/// axis values met on child `c`'s path (root, depth one, depth two).
pub open spec fn words_lo(top: u8, ch0: u8, ch1: u8, g0: u8, g1: u8, g2: u8, g3: u8) -> u64 {
    (if top & 1 != 0 {
        0x0404_0404_0404_0404u64
    } else {
        0u64
    }) | (if ch0 & 1 != 0 {
        0x0002_0002_0002_0002u64
    } else {
        0u64
    }) | (if ch1 & 1 != 0 {
        0x0200_0200_0200_0200u64
    } else {
        0u64
    }) | (if g0 & 1 != 0 {
        0x0000_0001_0000_0001u64
    } else {
        0u64
    }) | (if g1 & 1 != 0 {
        0x0000_0100_0000_0100u64
    } else {
        0u64
    }) | (if g2 & 1 != 0 {
        0x0001_0000_0001_0000u64
    } else {
        0u64
    }) | (if g3 & 1 != 0 {
        0x0100_0000_0100_0000u64
    } else {
        0u64
    })
}

/// Same layout as `words_lo`, carrying the high bit of each axis value.
pub open spec fn words_hi(top: u8, ch0: u8, ch1: u8, g0: u8, g1: u8, g2: u8, g3: u8) -> u64 {
    (if top & 2 != 0 {
        0x0404_0404_0404_0404u64
    } else {
        0u64
    }) | (if ch0 & 2 != 0 {
        0x0002_0002_0002_0002u64
    } else {
        0u64
    }) | (if ch1 & 2 != 0 {
        0x0200_0200_0200_0200u64
    } else {
        0u64
    }) | (if g0 & 2 != 0 {
        0x0000_0001_0000_0001u64
    } else {
        0u64
    }) | (if g1 & 2 != 0 {
        0x0000_0100_0000_0100u64
    } else {
        0u64
    }) | (if g2 & 2 != 0 {
        0x0001_0000_0001_0000u64
    } else {
        0u64
    }) | (if g3 & 2 != 0 {
        0x0100_0000_0100_0000u64
    } else {
        0u64
    })
}

/// Byte `c` of the low axis word: the three low axis bits on `c`'s path.
pub open spec fn lo_byte(top: u8, chc: u8, gc: u8) -> u8 {
    ((top & 1) << 2u8) | ((chc & 1) << 1u8) | (gc & 1)
}

/// Byte `c` of the high axis word: the three high axis bits on `c`'s path.
pub open spec fn hi_byte(top: u8, chc: u8, gc: u8) -> u8 {
    (((top >> 1u8) & 1) << 2u8) | (((chc >> 1u8) & 1) << 1u8) | ((gc >> 1u8) & 1)
}

/// The two words `b0`, `b1` carry the seven axis values in the packed
/// per-byte layout: for every child slot, each byte holds the three axis
/// bits met on that child's path.
pub open spec fn axis_words_encode(
    b0: u64,
    b1: u64,
    top: u8,
    ch0: u8,
    ch1: u8,
    g0: u8,
    g1: u8,
    g2: u8,
    g3: u8,
) -> bool {
    &&& byte_of(b0, 0) == lo_byte(top, ch0, g0)
    &&& byte_of(b0, 1) == lo_byte(top, ch1, g1)
    &&& byte_of(b0, 2) == lo_byte(top, ch0, g2)
    &&& byte_of(b0, 3) == lo_byte(top, ch1, g3)
    &&& byte_of(b0, 4) == lo_byte(top, ch0, g0)
    &&& byte_of(b0, 5) == lo_byte(top, ch1, g1)
    &&& byte_of(b0, 6) == lo_byte(top, ch0, g2)
    &&& byte_of(b0, 7) == lo_byte(top, ch1, g3)
    &&& byte_of(b1, 0) == hi_byte(top, ch0, g0)
    &&& byte_of(b1, 1) == hi_byte(top, ch1, g1)
    &&& byte_of(b1, 2) == hi_byte(top, ch0, g2)
    &&& byte_of(b1, 3) == hi_byte(top, ch1, g3)
    &&& byte_of(b1, 4) == hi_byte(top, ch0, g0)
    &&& byte_of(b1, 5) == hi_byte(top, ch1, g1)
    &&& byte_of(b1, 6) == hi_byte(top, ch0, g2)
    &&& byte_of(b1, 7) == hi_byte(top, ch1, g3)
}

/// The branch-free traversal-priority computation: mix the axis words
/// with the ray signs so that byte `c` holds, at each of its low three
/// bits, the sign relevant to the axis met at that branch point; then
/// flip against the reversed complemented path bits.
pub open spec fn priority_word(b0: u64, b1: u64, s0: bool, s1: bool, s2: bool) -> u64 {
    ((if s0 {
        !b1 & !b0 & PATH_BITS_MASK
    } else {
        0u64
    }) | (if s1 {
        !b1 & b0
    } else {
        0u64
    }) | (if s2 {
        b1 & !b0
    } else {
        0u64
    })) ^ CHILD_IDS
}

/// Packs the low and high bits of the seven splitting-axis values of a
/// collapsed depth-3 subtree into the two per-byte axis words.
pub fn axis_bit_words(top: u8, ch0: u8, ch1: u8, g0: u8, g1: u8, g2: u8, g3: u8) -> (r: (
    u64,
    u64,
))
    requires
        top < 3,
        ch0 < 3,
        ch1 < 3,
        g0 < 3,
        g1 < 3,
        g2 < 3,
        g3 < 3,
    ensures
        r.0 == words_lo(top, ch0, ch1, g0, g1, g2, g3),
        r.1 == words_hi(top, ch0, ch1, g0, g1, g2, g3),
        axis_words_encode(r.0, r.1, top, ch0, ch1, g0, g1, g2, g3),
{
    let lo: u64 = (if top & 1 != 0 {
        0x0404_0404_0404_0404u64
    } else {
        0u64
    }) | (if ch0 & 1 != 0 {
        0x0002_0002_0002_0002u64
    } else {
        0u64
    }) | (if ch1 & 1 != 0 {
        0x0200_0200_0200_0200u64
    } else {
        0u64
    }) | (if g0 & 1 != 0 {
        0x0000_0001_0000_0001u64
    } else {
        0u64
    }) | (if g1 & 1 != 0 {
        0x0000_0100_0000_0100u64
    } else {
        0u64
    }) | (if g2 & 1 != 0 {
        0x0001_0000_0001_0000u64
    } else {
        0u64
    }) | (if g3 & 1 != 0 {
        0x0100_0000_0100_0000u64
    } else {
        0u64
    });
    let hi: u64 = (if top & 2 != 0 {
        0x0404_0404_0404_0404u64
    } else {
        0u64
    }) | (if ch0 & 2 != 0 {
        0x0002_0002_0002_0002u64
    } else {
        0u64
    }) | (if ch1 & 2 != 0 {
        0x0200_0200_0200_0200u64
    } else {
        0u64
    }) | (if g0 & 2 != 0 {
        0x0000_0001_0000_0001u64
    } else {
        0u64
    }) | (if g1 & 2 != 0 {
        0x0000_0100_0000_0100u64
    } else {
        0u64
    }) | (if g2 & 2 != 0 {
        0x0001_0000_0001_0000u64
    } else {
        0u64
    }) | (if g3 & 2 != 0 {
        0x0100_0000_0100_0000u64
    } else {
        0u64
    });
    proof {
        lemma_axis_words_encode(top, ch0, ch1, g0, g1, g2, g3);
    }
    (lo, hi)
}

/// The packed words really carry the axis bits byte by byte.
proof fn lemma_axis_words_encode(top: u8, ch0: u8, ch1: u8, g0: u8, g1: u8, g2: u8, g3: u8)
    by (bit_vector)
    requires
        top < 3,
        ch0 < 3,
        ch1 < 3,
        g0 < 3,
        g1 < 3,
        g2 < 3,
        g3 < 3,
    ensures
        axis_words_encode(
            words_lo(top, ch0, ch1, g0, g1, g2, g3),
            words_hi(top, ch0, ch1, g0, g1, g2, g3),
            top,
            ch0,
            ch1,
            g0,
            g1,
            g2,
            g3,
        ),
{
}

/// Computes the priority word for one node and one ray: byte `c` of the
/// result is the visiting priority of child `c` (7 first, 0 last).
/// `ray_is_pos[a]` is 1 exactly when the ray direction is non-negative
/// along axis `a`.
pub fn calc_priority_word(b0: u64, b1: u64, ray_is_pos: &[usize; 3]) -> (r: u64)
    ensures
        r == priority_word(b0, b1, ray_is_pos[0] == 1, ray_is_pos[1] == 1, ray_is_pos[2] == 1),
{
    let mapped: u64 = (if ray_is_pos[0] == 1 {
        !b1 & !b0 & PATH_BITS_MASK
    } else {
        0u64
    }) | (if ray_is_pos[1] == 1 {
        !b1 & b0
    } else {
        0u64
    }) | (if ray_is_pos[2] == 1 {
        b1 & !b0
    } else {
        0u64
    });
    mapped ^ CHILD_IDS
}

/// Byte `c` of the priority word, written over the axes met on `c`'s
/// path: each path bit scores its weight when it equals the relevant
/// ray sign, so that near sides come out with higher priority.
proof fn lemma_priority_byte(
    b0: u64,
    b1: u64,
    top: u8,
    chc: u8,
    gc: u8,
    s0: bool,
    s1: bool,
    s2: bool,
    c: u64,
)
    by (bit_vector)
    requires
        c < 8,
        top < 3,
        chc < 3,
        gc < 3,
        byte_of(b0, c) == lo_byte(top, chc, gc),
        byte_of(b1, c) == hi_byte(top, chc, gc),
    ensures
        byte_of(priority_word(b0, b1, s0, s1, s2), c) == (if ((c % 2 == 1)
            == sign_along(top, s0, s1, s2)) {
            4u8
        } else {
            0u8
        }) + (if (((c / 2) % 2 == 1) == sign_along(chc, s0, s1, s2)) {
            2u8
        } else {
            0u8
        }) + (if (((c / 4) % 2 == 1) == sign_along(gc, s0, s1, s2)) {
            1u8
        } else {
            0u8
        }),
{
}

/// The axis met at depth `level` (0 = subtree root) on the path to child
/// slot `c`. The depth-one branch point is chosen by `c`'s root
/// direction, the depth-two branch point by its first two directions.
pub open spec fn path_axis(
    top: u8,
    ch0: u8,
    ch1: u8,
    g0: u8,
    g1: u8,
    g2: u8,
    g3: u8,
    c: u8,
    level: int,
) -> u8 {
    if level == 0 {
        top
    } else if level == 1 {
        if c % 2 == 0 {
            ch0
        } else {
            ch1
        }
    } else {
        if c % 4 == 0 {
            g0
        } else if c % 4 == 1 {
            g1
        } else if c % 4 == 2 {
            g2
        } else {
            g3
        }
    }
}

/// The direction child `c` takes at the branch point of depth `level`:
/// true is the side lower along the splitting axis.
pub open spec fn path_bit(c: u8, level: int) -> bool {
    if level == 0 {
        c % 2 == 1
    } else if level == 1 {
        (c / 2) % 2 == 1
    } else {
        (c / 4) % 2 == 1
    }
}

/// Ground truth for the child ordering: the depth-first traversal of the
/// depth-3 subtree under the branch point reached by `prefix` at `depth`,
/// visiting at every branch point the ray-near side first (the lower side
/// exactly when the ray direction is non-negative along the splitting
/// axis). Returns the child slots in visiting order.
pub open spec fn reference_visit_order(
    top: u8,
    ch0: u8,
    ch1: u8,
    g0: u8,
    g1: u8,
    g2: u8,
    g3: u8,
    s0: bool,
    s1: bool,
    s2: bool,
    depth: int,
    prefix: u8,
) -> Seq<u8>
    decreases 3 - depth,
{
    if depth >= 3 {
        seq![prefix]
    } else {
        let near_left = sign_along(
            path_axis(top, ch0, ch1, g0, g1, g2, g3, prefix, depth),
            s0,
            s1,
            s2,
        );
        let step: u8 = if depth == 0 {
            1u8
        } else if depth == 1 {
            2u8
        } else {
            4u8
        };
        let left = (prefix + step) as u8;
        if near_left {
            reference_visit_order(top, ch0, ch1, g0, g1, g2, g3, s0, s1, s2, depth + 1, left)
                + reference_visit_order(
                top,
                ch0,
                ch1,
                g0,
                g1,
                g2,
                g3,
                s0,
                s1,
                s2,
                depth + 1,
                prefix,
            )
        } else {
            reference_visit_order(top, ch0, ch1, g0, g1, g2, g3, s0, s1, s2, depth + 1, prefix)
                + reference_visit_order(
                top,
                ch0,
                ch1,
                g0,
                g1,
                g2,
                g3,
                s0,
                s1,
                s2,
                depth + 1,
                left,
            )
        }
    }
}

/// How many children the subtree below a depth-`depth` branch point holds.
pub open spec fn subtree_width(depth: int) -> int {
    if depth <= 0 {
        8
    } else if depth == 1 {
        4
    } else if depth == 2 {
        2
    } else {
        1
    }
}

/// The directions child `c` has taken before reaching depth `depth`.
pub open spec fn low_path_bits(c: u8, depth: int) -> int {
    if depth <= 0 {
        0
    } else if depth == 1 {
        (c as int) % 2
    } else if depth == 2 {
        (c as int) % 4
    } else {
        c as int
    }
}

/// Whether the direction child `c` takes at depth `level` is the
/// ray-near side.
pub open spec fn takes_near_side(
    top: u8,
    ch0: u8,
    ch1: u8,
    g0: u8,
    g1: u8,
    g2: u8,
    g3: u8,
    s0: bool,
    s1: bool,
    s2: bool,
    c: u8,
    level: int,
) -> bool {
    path_bit(c, level) == sign_along(
        path_axis(top, ch0, ch1, g0, g1, g2, g3, c, level),
        s0,
        s1,
        s2,
    )
}

/// The position of child `c` within the reference visiting order of its
/// depth-`depth` subtree: each far-side direction taken at or below
/// `depth` pushes `c` back by the width of the subtree it skips.
pub open spec fn rank_below(
    top: u8,
    ch0: u8,
    ch1: u8,
    g0: u8,
    g1: u8,
    g2: u8,
    g3: u8,
    s0: bool,
    s1: bool,
    s2: bool,
    c: u8,
    depth: int,
) -> int {
    (if depth <= 0 && !takes_near_side(top, ch0, ch1, g0, g1, g2, g3, s0, s1, s2, c, 0) {
        4int
    } else {
        0int
    }) + (if depth <= 1 && !takes_near_side(top, ch0, ch1, g0, g1, g2, g3, s0, s1, s2, c, 1) {
        2int
    } else {
        0int
    }) + (if depth <= 2 && !takes_near_side(top, ch0, ch1, g0, g1, g2, g3, s0, s1, s2, c, 2) {
        1int
    } else {
        0int
    })
}

proof fn lemma_order_len(
    top: u8,
    ch0: u8,
    ch1: u8,
    g0: u8,
    g1: u8,
    g2: u8,
    g3: u8,
    s0: bool,
    s1: bool,
    s2: bool,
    depth: int,
    prefix: u8,
)
    requires
        0 <= depth <= 3,
    ensures
        reference_visit_order(top, ch0, ch1, g0, g1, g2, g3, s0, s1, s2, depth, prefix).len()
            == subtree_width(depth),
    decreases 3 - depth,
{
    if depth < 3 {
        let step: u8 = if depth == 0 {
            1u8
        } else if depth == 1 {
            2u8
        } else {
            4u8
        };
        let left = (prefix + step) as u8;
        lemma_order_len(top, ch0, ch1, g0, g1, g2, g3, s0, s1, s2, depth + 1, left);
        lemma_order_len(top, ch0, ch1, g0, g1, g2, g3, s0, s1, s2, depth + 1, prefix);
    }
}

proof fn lemma_order_position(
    top: u8,
    ch0: u8,
    ch1: u8,
    g0: u8,
    g1: u8,
    g2: u8,
    g3: u8,
    s0: bool,
    s1: bool,
    s2: bool,
    depth: int,
    prefix: u8,
    c: u8,
)
    requires
        0 <= depth <= 3,
        c < 8,
        low_path_bits(c, depth) == prefix,
    ensures
        0 <= rank_below(top, ch0, ch1, g0, g1, g2, g3, s0, s1, s2, c, depth) < subtree_width(
            depth,
        ),
        reference_visit_order(top, ch0, ch1, g0, g1, g2, g3, s0, s1, s2, depth, prefix)[rank_below(
            top,
            ch0,
            ch1,
            g0,
            g1,
            g2,
            g3,
            s0,
            s1,
            s2,
            c,
            depth,
        )] == c,
    decreases 3 - depth,
{
    if depth == 3 {
        assert(c == prefix);
    } else {
        let near_left = sign_along(
            path_axis(top, ch0, ch1, g0, g1, g2, g3, prefix, depth),
            s0,
            s1,
            s2,
        );
        let step: u8 = if depth == 0 {
            1u8
        } else if depth == 1 {
            2u8
        } else {
            4u8
        };
        let left = (prefix + step) as u8;
        assert(c % 4 == c % 2 + 2 * ((c / 2) % 2)) by (bit_vector);
        assert(c < 8 ==> c == c % 4 + 4 * ((c / 4) % 2)) by (bit_vector);
        assert(path_axis(top, ch0, ch1, g0, g1, g2, g3, c, depth) == path_axis(
            top,
            ch0,
            ch1,
            g0,
            g1,
            g2,
            g3,
            prefix,
            depth,
        ));
        let b = path_bit(c, depth);
        let first = if near_left {
            left
        } else {
            prefix
        };
        let second = if near_left {
            prefix
        } else {
            left
        };
        lemma_order_len(top, ch0, ch1, g0, g1, g2, g3, s0, s1, s2, depth + 1, first);
        lemma_order_len(top, ch0, ch1, g0, g1, g2, g3, s0, s1, s2, depth + 1, second);
        if b == near_left {
            lemma_order_position(top, ch0, ch1, g0, g1, g2, g3, s0, s1, s2, depth + 1, first, c);
        } else {
            lemma_order_position(top, ch0, ch1, g0, g1, g2, g3, s0, s1, s2, depth + 1, second, c);
        }
    }
}

/// Law: the branch-free priority word agrees with the reference
/// depth-first near-side-first ordering. For every axis configuration,
/// every ray-sign configuration and every child slot `c`, the priority
/// byte of `c` is 7 minus the position at which the reference order
/// visits `c`: the child visited first gets priority 7, the child
/// visited last gets 0.
pub proof fn lemma_traverse_priority_matches_reference(
    b0: u64,
    b1: u64,
    top: u8,
    ch0: u8,
    ch1: u8,
    g0: u8,
    g1: u8,
    g2: u8,
    g3: u8,
    s0: bool,
    s1: bool,
    s2: bool,
    c: u8,
)
    requires
        top < 3,
        ch0 < 3,
        ch1 < 3,
        g0 < 3,
        g1 < 3,
        g2 < 3,
        g3 < 3,
        c < 8,
        axis_words_encode(b0, b1, top, ch0, ch1, g0, g1, g2, g3),
    ensures
        ({
            let pri = byte_of(priority_word(b0, b1, s0, s1, s2), c as u64) as int;
            let order = reference_visit_order(top, ch0, ch1, g0, g1, g2, g3, s0, s1, s2, 0, 0);
            &&& 0 <= pri < 8
            &&& order.len() == 8
            &&& order[7 - pri] == c
        }),
{
    lemma_order_len(top, ch0, ch1, g0, g1, g2, g3, s0, s1, s2, 0, 0);
    lemma_order_position(top, ch0, ch1, g0, g1, g2, g3, s0, s1, s2, 0, 0, c);
    if c == 0 {
        lemma_priority_byte(b0, b1, top, ch0, g0, s0, s1, s2, 0);
    } else if c == 1 {
        lemma_priority_byte(b0, b1, top, ch1, g1, s0, s1, s2, 1);
    } else if c == 2 {
        lemma_priority_byte(b0, b1, top, ch0, g2, s0, s1, s2, 2);
    } else if c == 3 {
        lemma_priority_byte(b0, b1, top, ch1, g3, s0, s1, s2, 3);
    } else if c == 4 {
        lemma_priority_byte(b0, b1, top, ch0, g0, s0, s1, s2, 4);
    } else if c == 5 {
        lemma_priority_byte(b0, b1, top, ch1, g1, s0, s1, s2, 5);
    } else if c == 6 {
        lemma_priority_byte(b0, b1, top, ch0, g2, s0, s1, s2, 6);
    } else {
        lemma_priority_byte(b0, b1, top, ch1, g3, s0, s1, s2, 7);
    }
}

/// The child slot whose priority byte is `k`: the lowest slot if several
/// share it, slot 7 if none has it.
pub open spec fn slot_with_priority(pri: u64, k: u8) -> u64 {
    if byte_of(pri, 0) == k {
        0
    } else if byte_of(pri, 1) == k {
        1
    } else if byte_of(pri, 2) == k {
        2
    } else if byte_of(pri, 3) == k {
        3
    } else if byte_of(pri, 4) == k {
        4
    } else if byte_of(pri, 5) == k {
        5
    } else if byte_of(pri, 6) == k {
        6
    } else {
        7
    }
}

/// Each position of the reference order holds the child that ranks
/// there: the order is the inverse of `rank_below`.
proof fn lemma_order_values(
    top: u8,
    ch0: u8,
    ch1: u8,
    g0: u8,
    g1: u8,
    g2: u8,
    g3: u8,
    s0: bool,
    s1: bool,
    s2: bool,
    depth: int,
    prefix: u8,
)
    requires
        0 <= depth <= 3,
        (prefix as int) < (if depth == 0 {
            1int
        } else if depth == 1 {
            2
        } else if depth == 2 {
            4
        } else {
            8
        }),
    ensures
        ({
            let order = reference_visit_order(
                top,
                ch0,
                ch1,
                g0,
                g1,
                g2,
                g3,
                s0,
                s1,
                s2,
                depth,
                prefix,
            );
            &&& order.len() == subtree_width(depth)
            &&& forall|i: int|
                0 <= i < order.len() ==> (#[trigger] order[i]) < 8 && low_path_bits(
                    order[i],
                    depth,
                ) == prefix as int && rank_below(
                    top,
                    ch0,
                    ch1,
                    g0,
                    g1,
                    g2,
                    g3,
                    s0,
                    s1,
                    s2,
                    order[i],
                    depth,
                ) == i
        }),
    decreases 3 - depth,
{
    lemma_order_len(top, ch0, ch1, g0, g1, g2, g3, s0, s1, s2, depth, prefix);
    if depth < 3 {
        let near_left = sign_along(
            path_axis(top, ch0, ch1, g0, g1, g2, g3, prefix, depth),
            s0,
            s1,
            s2,
        );
        let step: u8 = if depth == 0 {
            1u8
        } else if depth == 1 {
            2u8
        } else {
            4u8
        };
        let left = (prefix + step) as u8;
        let first = if near_left {
            left
        } else {
            prefix
        };
        let second = if near_left {
            prefix
        } else {
            left
        };
        lemma_order_values(top, ch0, ch1, g0, g1, g2, g3, s0, s1, s2, depth + 1, first);
        lemma_order_values(top, ch0, ch1, g0, g1, g2, g3, s0, s1, s2, depth + 1, second);
        let order = reference_visit_order(
            top,
            ch0,
            ch1,
            g0,
            g1,
            g2,
            g3,
            s0,
            s1,
            s2,
            depth,
            prefix,
        );
        let o1 = reference_visit_order(
            top,
            ch0,
            ch1,
            g0,
            g1,
            g2,
            g3,
            s0,
            s1,
            s2,
            depth + 1,
            first,
        );
        let o2 = reference_visit_order(
            top,
            ch0,
            ch1,
            g0,
            g1,
            g2,
            g3,
            s0,
            s1,
            s2,
            depth + 1,
            second,
        );
        let w = subtree_width(depth + 1);
        assert(order =~= o1 + o2);
        assert forall|i: int|
            0 <= i < order.len() implies (#[trigger] order[i]) < 8 && low_path_bits(
            order[i],
            depth,
        ) == prefix as int && rank_below(
            top,
            ch0,
            ch1,
            g0,
            g1,
            g2,
            g3,
            s0,
            s1,
            s2,
            order[i],
            depth,
        ) == i by {
            let e = order[i];
            assert(e % 4 == e % 2 + 2 * ((e / 2) % 2)) by (bit_vector);
            assert(e < 8 ==> e == e % 4 + 4 * ((e / 4) % 2)) by (bit_vector);
            if i < w {
                assert(e == o1[i]);
                assert(low_path_bits(e, depth + 1) == first as int);
            } else {
                assert(e == o2[i - w]);
                assert(low_path_bits(e, depth + 1) == second as int);
            }
            assert(path_axis(top, ch0, ch1, g0, g1, g2, g3, e, depth) == path_axis(
                top,
                ch0,
                ch1,
                g0,
                g1,
                g2,
                g3,
                prefix,
                depth,
            ));
        }
    }
}

/// One priority below 8 and its unique owner: the child at reference
/// position `7 - k` carries priority byte `k`.
proof fn lemma_priority_slot_for(
    b0: u64,
    b1: u64,
    top: u8,
    ch0: u8,
    ch1: u8,
    g0: u8,
    g1: u8,
    g2: u8,
    g3: u8,
    s0: bool,
    s1: bool,
    s2: bool,
    k: u8,
)
    requires
        top < 3,
        ch0 < 3,
        ch1 < 3,
        g0 < 3,
        g1 < 3,
        g2 < 3,
        g3 < 3,
        k < 8,
        axis_words_encode(b0, b1, top, ch0, ch1, g0, g1, g2, g3),
    ensures
        ({
            let e = reference_visit_order(top, ch0, ch1, g0, g1, g2, g3, s0, s1, s2, 0, 0)[7
                - k as int];
            e < 8 && byte_of(priority_word(b0, b1, s0, s1, s2), e as u64) == k
        }),
{
    let pw = priority_word(b0, b1, s0, s1, s2);
    let order = reference_visit_order(top, ch0, ch1, g0, g1, g2, g3, s0, s1, s2, 0, 0);
    lemma_order_values(top, ch0, ch1, g0, g1, g2, g3, s0, s1, s2, 0, 0);
    let e = order[7 - k as int];
    assert(e < 8 && rank_below(top, ch0, ch1, g0, g1, g2, g3, s0, s1, s2, e, 0) == 7 - k);
    lemma_traverse_priority_matches_reference(
        b0,
        b1,
        top,
        ch0,
        ch1,
        g0,
        g1,
        g2,
        g3,
        s0,
        s1,
        s2,
        e,
    );
    let pri = byte_of(pw, e as u64) as int;
    assert(order[7 - pri] == e);
    assert(rank_below(top, ch0, ch1, g0, g1, g2, g3, s0, s1, s2, order[7 - pri], 0) == 7 - pri);
}

proof fn lemma_priority_bytes_in_range(
    b0: u64,
    b1: u64,
    top: u8,
    ch0: u8,
    ch1: u8,
    g0: u8,
    g1: u8,
    g2: u8,
    g3: u8,
    s0: bool,
    s1: bool,
    s2: bool,
)
    requires
        top < 3,
        ch0 < 3,
        ch1 < 3,
        g0 < 3,
        g1 < 3,
        g2 < 3,
        g3 < 3,
        axis_words_encode(b0, b1, top, ch0, ch1, g0, g1, g2, g3),
    ensures
        forall|c: u64| c < 8 ==> #[trigger] byte_of(priority_word(b0, b1, s0, s1, s2), c) < 8,
{
    let pw = priority_word(b0, b1, s0, s1, s2);
    assert forall|c: u64| c < 8 implies #[trigger] byte_of(pw, c) < 8 by {
        lemma_traverse_priority_matches_reference(
            b0,
            b1,
            top,
            ch0,
            ch1,
            g0,
            g1,
            g2,
            g3,
            s0,
            s1,
            s2,
            c as u8,
        );
    }
}

proof fn lemma_priority_bytes_distinct(
    b0: u64,
    b1: u64,
    top: u8,
    ch0: u8,
    ch1: u8,
    g0: u8,
    g1: u8,
    g2: u8,
    g3: u8,
    s0: bool,
    s1: bool,
    s2: bool,
)
    requires
        top < 3,
        ch0 < 3,
        ch1 < 3,
        g0 < 3,
        g1 < 3,
        g2 < 3,
        g3 < 3,
        axis_words_encode(b0, b1, top, ch0, ch1, g0, g1, g2, g3),
    ensures
        forall|c1: u64, c2: u64|
            c1 < 8 && c2 < 8 && #[trigger] byte_of(priority_word(b0, b1, s0, s1, s2), c1)
                == #[trigger] byte_of(priority_word(b0, b1, s0, s1, s2), c2) ==> c1 == c2,
{
    let pw = priority_word(b0, b1, s0, s1, s2);
    let order = reference_visit_order(top, ch0, ch1, g0, g1, g2, g3, s0, s1, s2, 0, 0);
    assert forall|c1: u64, c2: u64|
        c1 < 8 && c2 < 8 && #[trigger] byte_of(pw, c1) == #[trigger] byte_of(pw, c2)
        implies c1 == c2 by {
        lemma_traverse_priority_matches_reference(
            b0,
            b1,
            top,
            ch0,
            ch1,
            g0,
            g1,
            g2,
            g3,
            s0,
            s1,
            s2,
            c1 as u8,
        );
        lemma_traverse_priority_matches_reference(
            b0,
            b1,
            top,
            ch0,
            ch1,
            g0,
            g1,
            g2,
            g3,
            s0,
            s1,
            s2,
            c2 as u8,
        );
        assert(order[7 - byte_of(pw, c1) as int] == c1 as u8);
        assert(order[7 - byte_of(pw, c2) as int] == c2 as u8);
    }
}

proof fn lemma_priority_slot_lookup(
    b0: u64,
    b1: u64,
    top: u8,
    ch0: u8,
    ch1: u8,
    g0: u8,
    g1: u8,
    g2: u8,
    g3: u8,
    s0: bool,
    s1: bool,
    s2: bool,
)
    requires
        top < 3,
        ch0 < 3,
        ch1 < 3,
        g0 < 3,
        g1 < 3,
        g2 < 3,
        g3 < 3,
        axis_words_encode(b0, b1, top, ch0, ch1, g0, g1, g2, g3),
    ensures
        forall|k: u8|
            k < 8 ==> #[trigger] slot_with_priority(priority_word(b0, b1, s0, s1, s2), k) < 8
                && byte_of(
                priority_word(b0, b1, s0, s1, s2),
                slot_with_priority(priority_word(b0, b1, s0, s1, s2), k),
            ) == k,
{
    let pw = priority_word(b0, b1, s0, s1, s2);
    let order = reference_visit_order(top, ch0, ch1, g0, g1, g2, g3, s0, s1, s2, 0, 0);
    assert forall|k: u8|
        k < 8 implies #[trigger] slot_with_priority(pw, k) < 8 && byte_of(
        pw,
        slot_with_priority(pw, k),
    ) == k by {
        lemma_priority_slot_for(b0, b1, top, ch0, ch1, g0, g1, g2, g3, s0, s1, s2, k);
        let e = order[7 - k as int];
        assert(e < 8 && byte_of(pw, e as u64) == k);
    }
}

/// Law: the priority bytes of a well-encoded node form a permutation of
/// 0 through 7 for every ray-sign configuration: each child gets a
/// priority below 8, no two children share one, and every priority below
/// 8 belongs to some child, found by `slot_with_priority`.
pub proof fn lemma_priority_word_bijective(
    b0: u64,
    b1: u64,
    top: u8,
    ch0: u8,
    ch1: u8,
    g0: u8,
    g1: u8,
    g2: u8,
    g3: u8,
    s0: bool,
    s1: bool,
    s2: bool,
)
    requires
        top < 3,
        ch0 < 3,
        ch1 < 3,
        g0 < 3,
        g1 < 3,
        g2 < 3,
        g3 < 3,
        axis_words_encode(b0, b1, top, ch0, ch1, g0, g1, g2, g3),
    ensures
        forall|c: u64| c < 8 ==> #[trigger] byte_of(priority_word(b0, b1, s0, s1, s2), c) < 8,
        forall|c1: u64, c2: u64|
            c1 < 8 && c2 < 8 && #[trigger] byte_of(priority_word(b0, b1, s0, s1, s2), c1)
                == #[trigger] byte_of(priority_word(b0, b1, s0, s1, s2), c2) ==> c1 == c2,
        forall|k: u8|
            k < 8 ==> #[trigger] slot_with_priority(priority_word(b0, b1, s0, s1, s2), k) < 8
                && byte_of(
                priority_word(b0, b1, s0, s1, s2),
                slot_with_priority(priority_word(b0, b1, s0, s1, s2), k),
            ) == k,
{
    lemma_priority_bytes_in_range(b0, b1, top, ch0, ch1, g0, g1, g2, g3, s0, s1, s2);
    lemma_priority_bytes_distinct(b0, b1, top, ch0, ch1, g0, g1, g2, g3, s0, s1, s2);
    lemma_priority_slot_lookup(b0, b1, top, ch0, ch1, g0, g1, g2, g3, s0, s1, s2);
}

} // verus!
