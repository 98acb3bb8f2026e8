//! A decision tree that predicts the priority of a job, small enough for one frame.
//!
//! The tree is complete and has depth four: fifteen inner nodes, each of which tests one bit of a
//! sixteen-bit feature vector, and sixteen leaves, each of which holds a class bit.

use vstd::arithmetic::power;
use vstd::prelude::*;

use crate::bignat::BigNat;
use crate::bits;
use crate::frame;
use crate::frame::Frame32;
use crate::message;

verus! {

/// Marks a frame that holds a tree.
pub const TREE_MAGIC: u32 = 0x5A;

/// How many inner nodes the tree has.
pub const N_INTERNAL: usize = 15;

/// How many leaves the tree has.
pub const N_LEAVES: usize = 16;

/// How many tests lead to a leaf.
pub const TREE_DEPTH: usize = 4;

/// How many feature bits there are.
pub const FEATURE_BITS: u8 = 16;

/// What is known of a job when it is submitted.
#[derive(Clone, Copy, Debug, PartialEq, Eq)]
pub struct Features {
    /// How many dependencies it declares.
    pub dep_count: u8,
    /// How many jobs hang on it.
    pub subtree_size: u32,
    /// How deep it lies below jobs without dependencies.
    pub depth: u8,
    /// The first byte of its command.
    pub cmd_first_byte: u8,
}

impl Features {
    /// Collects the four values.
    pub fn new(dep_count: u8, subtree_size: u32, depth: u8, cmd_first_byte: u8) -> (f: Self)
        ensures
            f == (Features { dep_count, subtree_size, depth, cmd_first_byte }),
    {
        Features { dep_count, subtree_size, depth, cmd_first_byte }
    }
}

impl Default for Features {
    fn default() -> (f: Self)
        ensures
            f == (Features { dep_count: 0, subtree_size: 0, depth: 0, cmd_first_byte: 0 }),
    {
        Features { dep_count: 0, subtree_size: 0, depth: 0, cmd_first_byte: 0 }
    }
}

/// A number as a byte, at most 255.
pub open spec fn as_byte(n: int) -> u8 {
    if n < 255 {
        n as u8
    } else {
        255
    }
}

/// Whether feature bit `i` is set.
pub open spec fn feature_bit(f: Features, i: int) -> bool {
    if i == 0 {
        f.dep_count >= 1
    } else if i == 1 {
        f.dep_count >= 2
    } else if i == 2 {
        f.dep_count >= 4
    } else if i == 3 {
        f.subtree_size >= 2
    } else if i == 4 {
        f.subtree_size >= 4
    } else if i == 5 {
        f.subtree_size >= 8
    } else if i == 6 {
        f.subtree_size >= 16
    } else if i == 7 {
        f.depth >= 1
    } else if i == 8 {
        f.depth >= 2
    } else if i == 9 {
        f.depth >= 4
    } else if i == 10 {
        f.cmd_first_byte == 0x65 || f.cmd_first_byte == 0x45
    } else if i == 11 {
        f.cmd_first_byte == 0x74 || f.cmd_first_byte == 0x54
    } else if i == 12 {
        f.cmd_first_byte == 0x66 || f.cmd_first_byte == 0x46
    } else if i == 13 {
        0x61 <= f.cmd_first_byte <= 0x7A || 0x41 <= f.cmd_first_byte <= 0x5A
    } else if i == 14 {
        f.dep_count == 0
    } else {
        f.subtree_size >= 32
    }
}

/// Bit `i` of a half word.
pub open spec fn half_bit(v: u16, i: int) -> bool {
    (v >> (i as u16)) & 1 == 1
}

/// Single bits of half words.
pub proof fn half_facts(v: u16, i: u16, j: u16)
    by (bit_vector)
    requires
        i < 16,
        j < 16,
    ensures
        ((v | (1u16 << i)) >> j) & 1 == (if i == j {
            1u16
        } else {
            (v >> j) & 1
        }),
        (0u16 >> j) & 1 == 0,
        (0xFFFFu16 >> j) & 1 == 1,
        (v >> j) & 1 == 0 || (v >> j) & 1 == 1,
        ((v as u32) >> (j as u32)) & 1 == 1 <==> (v >> j) & 1 == 1,
        ((v as u32) >> (j as u32)) & 1 == 0 || ((v as u32) >> (j as u32)) & 1 == 1,
        ((v >> j) & 1) as u8 == 1 <==> (v >> j) & 1 == 1,
        ((v >> j) & 1) as u8 == 0 <==> (v >> j) & 1 == 0,
{
}

proof fn folded_letters(b: u8)
    by (bit_vector)
    ensures
        b | 0x20 == 0x65 <==> (b == 0x65 || b == 0x45),
        b | 0x20 == 0x74 <==> (b == 0x74 || b == 0x54),
        b | 0x20 == 0x66 <==> (b == 0x66 || b == 0x46),
        (0x61 <= b | 0x20 && b | 0x20 <= 0x7A) <==> (0x61 <= b && b <= 0x7A || 0x41 <= b && b <= 0x5A),
{
}

/// Sets feature bit `i` if it is due.
fn with_bit(v: u16, i: u16, on: bool) -> (r: u16)
    requires
        i < 16,
    ensures
        forall|j: int|
            0 <= j < 16 ==> #[trigger] half_bit(r, j) == (if j == i && on {
                true
            } else {
                half_bit(v, j)
            }),
{
    let r: u16 = if on {
        v | (1u16 << i)
    } else {
        v
    };
    assert forall|j: int| 0 <= j < 16 implies #[trigger] half_bit(r, j) == (if j == i && on {
        true
    } else {
        half_bit(v, j)
    }) by {
        half_facts(v, i, j as u16);
    }
    r
}

/// Whether a feature vector is that of a job.
pub open spec fn encodes(v: u16, f: Features) -> bool {
    forall|i: int| 0 <= i < 16 ==> #[trigger] half_bit(v, i) == feature_bit(f, i)
}

/// The feature vector of a job: every bit is a threshold of its own.
pub fn encode_features(f: Features) -> (v: u16)
    ensures
        encodes(v, f),
{
    let c: u8 = f.cmd_first_byte | 0x20;
    proof {
        folded_letters(f.cmd_first_byte);
        assert forall|j: int| 0 <= j < 16 implies !#[trigger] half_bit(0, j) by {
            half_facts(0, 0, j as u16);
        }
    }
    let v: u16 = 0;
    let v: u16 = with_bit(v, 0, f.dep_count >= 1);
    let v: u16 = with_bit(v, 1, f.dep_count >= 2);
    let v: u16 = with_bit(v, 2, f.dep_count >= 4);
    let v: u16 = with_bit(v, 3, f.subtree_size >= 2);
    let v: u16 = with_bit(v, 4, f.subtree_size >= 4);
    let v: u16 = with_bit(v, 5, f.subtree_size >= 8);
    let v: u16 = with_bit(v, 6, f.subtree_size >= 16);
    let v: u16 = with_bit(v, 7, f.depth >= 1);
    let v: u16 = with_bit(v, 8, f.depth >= 2);
    let v: u16 = with_bit(v, 9, f.depth >= 4);
    let v: u16 = with_bit(v, 10, c == 0x65);
    let v: u16 = with_bit(v, 11, c == 0x74);
    let v: u16 = with_bit(v, 12, c == 0x66);
    let v: u16 = with_bit(v, 13, 0x61 <= c && c <= 0x7A);
    let v: u16 = with_bit(v, 14, f.dep_count == 0);
    with_bit(v, 15, f.subtree_size >= 32)
}

/// The tree.
#[derive(Clone, Copy, Debug, PartialEq, Eq)]
pub struct Tree32 {
    /// The feature that each inner node tests, in heap order.
    pub internals: [u8; 15],
    /// The class of each leaf.
    pub leaves: u16,
    /// Which leaves saw samples of one class only.
    pub leaf_pure: u16,
    /// How often the tree was trained, modulo 256.
    pub gen: u8,
}

/// The heap index that the first `n` tests lead to.
pub open spec fn walk(internals: Seq<u8>, features: u16, n: nat) -> int
    decreases n,
{
    if n == 0 {
        0
    } else {
        let i = walk(internals, features, (n - 1) as nat);
        2 * i + 1 + (if half_bit(features, internals[i] as int % 16) {
            1int
        } else {
            0
        })
    }
}

/// The leaf that a feature vector leads to.
pub open spec fn leaf_of(internals: Seq<u8>, features: u16) -> int {
    walk(internals, features, 4) - 15
}

/// The nodes that a walk can reach, level by level.
pub proof fn walk_range(internals: Seq<u8>, features: u16)
    ensures
        walk(internals, features, 0) == 0,
        1 <= walk(internals, features, 1) <= 2,
        3 <= walk(internals, features, 2) <= 6,
        7 <= walk(internals, features, 3) <= 14,
        15 <= walk(internals, features, 4) <= 30,
{
    reveal_with_fuel(walk, 5);
}

proof fn low_nibble(f: u32)
    by (bit_vector)
    ensures
        f & 0x0F == f % 16,
        f & 0x0F < 16,
{
}

impl Tree32 {
    /// The tree that calls everything important.
    pub fn baseline() -> (t: Self)
        ensures
            t.internals@ == Seq::new(15, |i: int| 0u8),
            t.leaves == 0xFFFF,
            t.leaf_pure == 0,
            t.gen == 0,
    {
        let t = Tree32 { internals: [0u8; 15], leaves: 0xFFFF, leaf_pure: 0, gen: 0 };
        assert(t.internals@ =~= Seq::new(15, |i: int| 0u8));
        t
    }

    /// Walks down to a leaf.
    fn reach(&self, features: u16) -> (leaf: usize)
        ensures
            leaf == leaf_of(self.internals@, features),
            leaf < 16,
    {
        let mut idx: usize = 0;
        let mut level: usize = 0;
        proof {
            walk_range(self.internals@, features);
        }
        while level < TREE_DEPTH
            invariant
                level <= 4,
                idx == walk(self.internals@, features, level as nat),
                level < 4 ==> idx < 15,
                idx <= 30,
            decreases 4 - level,
        {
            let f: u32 = self.internals[idx] as u32;
            proof {
                low_nibble(f);
                half_facts(features, 0, (f & 0x0F) as u16);
                walk_range(self.internals@, features);
            }
            let bit: u32 = ((features as u32) >> (f & 0x0F)) & 1;
            idx = idx * 2 + 1 + (bit as usize);
            level += 1;
        }
        proof {
            walk_range(self.internals@, features);
        }
        idx - N_INTERNAL
    }

    /// The class of the leaf that a feature vector leads to.
    pub fn infer(&self, features: u16) -> (class: u8)
        ensures
            class == (if half_bit(self.leaves, leaf_of(self.internals@, features)) {
                1u8
            } else {
                0
            }),
    {
        let leaf: usize = self.reach(features);
        proof {
            half_facts(self.leaves, 0, leaf as u16);
        }
        ((self.leaves >> (leaf as u16)) & 1) as u8
    }

    /// Whether the leaf that a feature vector leads to saw samples of one class only.
    pub fn confidence(&self, features: u16) -> (pure: u8)
        ensures
            pure == (if half_bit(self.leaf_pure, leaf_of(self.internals@, features)) {
                1u8
            } else {
                0
            }),
    {
        let leaf: usize = self.reach(features);
        proof {
            half_facts(self.leaf_pure, 0, leaf as u16);
        }
        ((self.leaf_pure >> (leaf as u16)) & 1) as u8
    }
}

// ---------------------------------------------------------------------------------------------
// In a frame
// ---------------------------------------------------------------------------------------------

/// `n` feature numbers from place `from` on, four bits each, the first lowest.
pub open spec fn pack(internals: Seq<u8>, from: int, n: nat) -> u32
    decreases n,
{
    if n == 0 {
        0
    } else {
        pack(internals, from, (n - 1) as nat) | (((internals[from + n - 1] as u32) & 0xF) << ((4 * (n - 1))
            as u32))
    }
}

/// The highest of the four bits of the eighth feature number, for which slot 1 has no room; it is
/// kept above the seven numbers of slot 2.
pub open spec fn eighth_high_bit(internals: Seq<u8>) -> u32 {
    (((internals[7] as u32) >> 3) & 1) << 28
}

/// The fields of a frame that holds a tree.
pub open spec fn tree_fields(t: Tree32) -> Seq<u32> {
    Seq::new(
        32,
        |i: int|
            if i == 0 {
                (TREE_MAGIC << 23) | (t.gen as u32)
            } else if i == 1 {
                pack(t.internals@, 0, 8)
            } else if i == 2 {
                pack(t.internals@, 8, 7) | eighth_high_bit(t.internals@)
            } else if i == 3 {
                t.leaves as u32
            } else if i == 4 {
                t.leaf_pure as u32
            } else {
                0
            },
    )
}

/// Feature number `i` of a packed slot.
pub open spec fn unpack(w: u32, i: int) -> u8 {
    ((w >> ((4 * i) as u32)) & 0xF) as u8
}

/// Feature number `i` of those in slots 1 and 2.
pub open spec fn unpacked(first: u32, second: u32, i: int) -> u8 {
    if i < 7 {
        unpack(first, i)
    } else if i == 7 {
        (((first >> 28) & 7) | (((second >> 28) & 1) << 3)) as u8
    } else {
        unpack(second, i - 8)
    }
}

/// Whether a frame holds a tree.
pub open spec fn is_tree(f: Frame32) -> bool {
    (f.field(0) >> 23) & 0xFF == TREE_MAGIC
}

fn pack_slot(internals: &[u8; 15], from: usize, n: usize) -> (w: u32)
    requires
        n <= 8,
        from + n <= 15,
    ensures
        w == pack(internals@, from as int, n as nat),
{
    let mut w: u32 = 0;
    let mut i: usize = 0;
    while i < n
        invariant
            i <= n <= 8,
            from + n <= 15,
            w == pack(internals@, from as int, i as nat),
        decreases n - i,
    {
        w = w | (((internals[from + i] as u32) & 0xF) << ((i * 4) as u32));
        i += 1;
    }
    w
}

proof fn tree_bits(g: u8, s: u32, h: u16)
    by (bit_vector)
    ensures
        ((TREE_MAGIC << 23) | (g as u32)) & 0x7FFF_FFFF == (TREE_MAGIC << 23) | (g as u32),
        (((TREE_MAGIC << 23) | (g as u32)) >> 23) & 0xFF == TREE_MAGIC,
        (((TREE_MAGIC << 23) | (g as u32)) & 0xFF) as u8 == g,
        (h as u32) & 0x7FFF_FFFF == h as u32,
        ((h as u32) & 0xFFFF) as u16 == h,
{
}

impl Tree32 {
    /// Puts the tree into a frame with even rows.
    pub fn to_frame(&self) -> (f: Frame32)
        ensures
            f@ == frame::even_rows(message::frame_of(tree_fields(*self))),
    {
        let mut f = Frame32::new();
        let head: u32 = (TREE_MAGIC << 23) | (self.gen as u32);
        f.set(0, head & 0x7FFF_FFFF);
        let first: u32 = pack_slot(&self.internals, 0, 8);
        f.set(1, first & 0x7FFF_FFFF);
        let second: u32 = pack_slot(&self.internals, 8, N_INTERNAL - 8) | ((((self.internals[7] as u32) >> 3) & 1)
            << 28);
        f.set(2, second & 0x7FFF_FFFF);
        f.set(3, self.leaves as u32);
        f.set(4, self.leaf_pure as u32);
        proof {
            frame::field_bits(0, 0, head);
            frame::field_bits(0, 1, first);
            frame::field_bits(0, 2, second);
            assert forall|i: int| 0 <= i < 32 implies #[trigger] f@[i] == message::frame_of(
                tree_fields(*self),
            )[i] by {
                frame::field_bits(0, i as u32, 0);
            }
            assert(f@ =~= message::frame_of(tree_fields(*self)));
        }
        f.update_parity();
        f
    }

    /// Reads a tree from a frame, if the frame is marked as one.
    pub fn from_frame(f: &Frame32) -> (r: Option<Self>)
        ensures
            match r {
                Some(t) => {
                    &&& is_tree(*f)
                    &&& forall|i: int|
                        0 <= i < 15 ==> #[trigger] t.internals@[i] == unpacked(f.field(1), f.field(2), i)
                    &&& t.leaves == (f.field(3) & 0xFFFF) as u16
                    &&& t.leaf_pure == (f.field(4) & 0xFFFF) as u16
                    &&& t.gen == (f.field(0) & 0xFF) as u8
                },
                None => !is_tree(*f),
            },
    {
        let head: u32 = f.get(0);
        let magic: u32 = (head >> 23) & 0xFF;
        if magic != TREE_MAGIC {
            return None;
        }
        let gen: u8 = (head & 0xFF) as u8;
        let first: u32 = f.get(1);
        let second: u32 = f.get(2);
        let mut internals: [u8; 15] = [0u8; 15];
        let mut i: usize = 0;
        while i < 7
            invariant
                i <= 7,
                forall|k: int| 0 <= k < i ==> #[trigger] internals@[k] == unpack(first, k),
            decreases 7 - i,
        {
            internals[i] = ((first >> ((i * 4) as u32)) & 0xF) as u8;
            i += 1;
        }
        internals[7] = (((first >> 28) & 7) | (((second >> 28) & 1) << 3)) as u8;
        let mut i: usize = 0;
        while i < 7
            invariant
                i <= 7,
                forall|k: int| 0 <= k < 8 + i ==> #[trigger] internals@[k] == unpacked(first, second, k),
            decreases 7 - i,
        {
            internals[8 + i] = ((second >> ((i * 4) as u32)) & 0xF) as u8;
            i += 1;
        }
        let leaves: u16 = (f.get(3) & 0xFFFF) as u16;
        let leaf_pure: u16 = (f.get(4) & 0xFFFF) as u16;
        Some(Tree32 { internals, leaves, leaf_pure, gen })
    }
}

proof fn nibbles(a: u8, b: u8, c: u8, d: u8, e: u8, f: u8, g: u8, h: u8, w: u32)
    by (bit_vector)
    requires
        a < 16,
        b < 16,
        c < 16,
        d < 16,
        e < 16,
        f < 16,
        g < 16,
        w == (((((((0u32 | (((a as u32) & 0xF) << 0u32)) | (((b as u32) & 0xF) << 4u32)) | (((c as u32) & 0xF)
            << 8u32)) | (((d as u32) & 0xF) << 12u32)) | (((e as u32) & 0xF) << 16u32)) | (((f as u32) & 0xF)
            << 20u32)) | (((g as u32) & 0xF) << 24u32)),
    ensures
        forall|x: u32|
            x & 0x0FFF_FFFF == w ==> {
                &&& (#[trigger] (x >> 0u32)) & 0xF == a as u32
                &&& (x >> 4u32) & 0xF == b as u32
                &&& (x >> 8u32) & 0xF == c as u32
                &&& (x >> 12u32) & 0xF == d as u32
                &&& (x >> 16u32) & 0xF == e as u32
                &&& (x >> 20u32) & 0xF == f as u32
                &&& (x >> 24u32) & 0xF == g as u32
            },
        w & 0x0FFF_FFFF == w,
        ((w | (((h as u32) & 0xF) << 28u32)) & 0x7FFF_FFFF) & 0x0FFF_FFFF == w,
        (((w | (((h as u32) & 0xF) << 28u32)) & 0x7FFF_FFFF) >> 28u32) & 7 == (h & 7) as u32,
        ((w | ((((h as u32) >> 3) & 1) << 28)) & 0x7FFF_FFFF) & 0x0FFF_FFFF == w,
        (((w | ((((h as u32) >> 3) & 1) << 28)) & 0x7FFF_FFFF) >> 28u32) & 1 == ((h as u32) >> 3) & 1,
        h < 16 ==> ((((h & 7) as u32) | ((((h as u32) >> 3) & 1) << 3)) as u8) == h,
{
}

/// Seven packed numbers are read back from any word that ends in them.
proof fn seven_read_back(s: Seq<u8>, from: int, h: u8, x: u32, i: int)
    requires
        0 <= from,
        from + 7 <= s.len(),
        0 <= i < 7,
        forall|k: int| from <= k < from + 7 ==> #[trigger] s[k] < 16,
        x & 0x0FFF_FFFF == pack(s, from, 7),
    ensures
        unpack(x, i) == s[from + i],
{
    seven(s, from, h);
    let low = x >> 0u32;
    assert(low & 0xF == s[from] as u32);
    assert(i == 0 || i == 1 || i == 2 || i == 3 || i == 4 || i == 5 || i == 6);
    assert((x >> ((4 * i) as u32)) & 0xF == s[from + i] as u32);
}

proof fn seven(s: Seq<u8>, from: int, h: u8)
    requires
        0 <= from,
        from + 7 <= s.len(),
        forall|k: int| from <= k < from + 7 ==> #[trigger] s[k] < 16,
    ensures
        ({
            let w = pack(s, from, 7);
            &&& forall|x: u32|
                x & 0x0FFF_FFFF == w ==> {
                    &&& (#[trigger] (x >> 0u32)) & 0xF == s[from] as u32
                    &&& (x >> 4u32) & 0xF == s[from + 1] as u32
                    &&& (x >> 8u32) & 0xF == s[from + 2] as u32
                    &&& (x >> 12u32) & 0xF == s[from + 3] as u32
                    &&& (x >> 16u32) & 0xF == s[from + 4] as u32
                    &&& (x >> 20u32) & 0xF == s[from + 5] as u32
                    &&& (x >> 24u32) & 0xF == s[from + 6] as u32
                }
            &&& ((w | (((h as u32) & 0xF) << 28u32)) & 0x7FFF_FFFF) & 0x0FFF_FFFF == w
            &&& (((w | (((h as u32) & 0xF) << 28u32)) & 0x7FFF_FFFF) >> 28u32) & 7 == (h & 7) as u32
            &&& ((w | ((((h as u32) >> 3) & 1) << 28)) & 0x7FFF_FFFF) & 0x0FFF_FFFF == w
            &&& (((w | ((((h as u32) >> 3) & 1) << 28)) & 0x7FFF_FFFF) >> 28u32) & 1 == ((h as u32) >> 3) & 1
            &&& h < 16 ==> ((((h & 7) as u32) | ((((h as u32) >> 3) & 1) << 3)) as u8) == h
        }),
{
    reveal_with_fuel(pack, 8);
    let a = s[from];
    let b = s[from + 1];
    let c = s[from + 2];
    let d = s[from + 3];
    let e = s[from + 4];
    let f = s[from + 5];
    let g = s[from + 6];
    assert(a < 16 && b < 16 && c < 16 && d < 16 && e < 16 && f < 16 && g < 16);
    nibbles(a, b, c, d, e, f, g, h, pack(s, from, 7));
}

/// A tree that was put into a frame is read back as itself.
pub proof fn law_tree_reads_back(t: Tree32, f: Frame32, u: Tree32)
    requires
        forall|i: int| 0 <= i < 15 ==> #[trigger] t.internals@[i] < 16,
        f@ == frame::even_rows(message::frame_of(tree_fields(t))),
        forall|i: int| 0 <= i < 15 ==> #[trigger] u.internals@[i] == unpacked(f.field(1), f.field(2), i),
        u.leaves == (f.field(3) & 0xFFFF) as u16,
        u.leaf_pure == (f.field(4) & 0xFFFF) as u16,
        u.gen == (f.field(0) & 0xFF) as u8,
    ensures
        is_tree(f),
        frame::parity_ok(f@),
        u.internals@ == t.internals@,
        u.leaves == t.leaves,
        u.leaf_pure == t.leaf_pure,
        u.gen == t.gen,
{
    assert(frame::parity_ok(f@)) by {
        crate::detect::law_even_rows_are_accepted(message::frame_of(tree_fields(t)));
    }
    tree_field(t, f, 0);
    tree_field(t, f, 1);
    tree_field(t, f, 2);
    tree_field(t, f, 3);
    tree_field(t, f, 4);
    tree_bits(t.gen, 0, t.leaves);
    tree_bits(t.gen, 0, t.leaf_pure);
    internals_read_back(t.internals@, u.internals@);
}

proof fn internals_read_back(s: Seq<u8>, r: Seq<u8>)
    requires
        s.len() == 15,
        r.len() == 15,
        forall|i: int| 0 <= i < 15 ==> #[trigger] s[i] < 16,
        forall|i: int|
            0 <= i < 15 ==> #[trigger] r[i] == unpacked(
                pack(s, 0, 8) & 0x7FFF_FFFF,
                (pack(s, 8, 7) | eighth_high_bit(s)) & 0x7FFF_FFFF,
                i,
            ),
    ensures
        r == s,
{
    let h = s[7];
    let x = pack(s, 0, 8) & 0x7FFF_FFFF;
    let y = (pack(s, 8, 7) | eighth_high_bit(s)) & 0x7FFF_FFFF;
    seven(s, 0, h);
    seven(s, 8, h);
    assert(pack(s, 0, 8) == pack(s, 0, 7) | (((h as u32) & 0xF) << 28u32));
    assert forall|i: int| 0 <= i < 15 implies #[trigger] r[i] == s[i] by {
        if i < 7 {
            seven_read_back(s, 0, h, x, i);
        } else if i == 7 {
            assert((x >> 28) & 7 == (h & 7) as u32);
            assert((y >> 28) & 1 == ((h as u32) >> 3) & 1);
        } else {
            seven_read_back(s, 8, h, y, i - 8);
        }
    }
    assert(r =~= s);
}

proof fn tree_field(t: Tree32, f: Frame32, i: int)
    requires
        0 <= i < 32,
        f@ == frame::even_rows(message::frame_of(tree_fields(t))),
    ensures
        f.field(i) == tree_fields(t)[i] & 0x7FFF_FFFF,
{
    let fields = tree_fields(t);
    even_row_field(message::frame_of(fields)[i], i as u32);
    message::law_fields_read_back(fields, i);
}

proof fn even_row_field(w: u32, slot: u32)
    requires
        slot < 32,
    ensures
        frame::field(frame::even_row(w, slot as int), slot) == frame::field(w, slot),
{
    let u = bits::unit(slot as int);
    bits::unit_facts(u, 0, 0, slot, 0);
    frame::field_bits(w, slot, u);
    frame::field_bits(w, slot, 0);
    bits::unit_facts(w, 0, 0, slot, 0);
}

// ---------------------------------------------------------------------------------------------
// Training
// ---------------------------------------------------------------------------------------------

/// How many of the rows have a label.
pub open spec fn label_count(samples: Seq<(u16, bool)>, rows: Seq<usize>, label: bool) -> nat
    decreases rows.len(),
{
    if rows.len() == 0 {
        0
    } else {
        label_count(samples, rows.drop_last(), label) + (if samples[rows.last() as int].1 == label {
            1nat
        } else {
            0
        })
    }
}

/// The rows whose feature `f` is on the given side.
pub open spec fn side_rows(samples: Seq<(u16, bool)>, rows: Seq<usize>, f: int, side: bool) -> Seq<usize>
    decreases rows.len(),
{
    if rows.len() == 0 {
        Seq::empty()
    } else {
        let rest = side_rows(samples, rows.drop_last(), f, side);
        if half_bit(samples[rows.last() as int].0, f) == side {
            rest.push(rows.last())
        } else {
            rest
        }
    }
}

/// A number to its own power.
pub open spec fn self_power(n: nat) -> int {
    power::pow(n as int, n)
}

/// The upper part of what a split leaves open: with `t` rows on a side, `t` to the power `t`.
pub open spec fn open_above(samples: Seq<(u16, bool)>, rows: Seq<usize>, f: int) -> int {
    self_power(side_rows(samples, rows, f, false).len()) * self_power(
        side_rows(samples, rows, f, true).len(),
    )
}

/// The lower part: the same of the rows of each label on each side.
pub open spec fn open_below(samples: Seq<(u16, bool)>, rows: Seq<usize>, f: int) -> int {
    let left = side_rows(samples, rows, f, false);
    let right = side_rows(samples, rows, f, true);
    self_power(label_count(samples, left, true)) * self_power(label_count(samples, left, false))
        * self_power(label_count(samples, right, true)) * self_power(label_count(samples, right, false))
}

/// Whether a split by `f` leaves less open than one by `g`. Two to the power of the number of rows
/// times the conditional entropy of the label is the upper part divided by the lower part, so
/// this compares conditional entropies, without rounding.
pub open spec fn leaves_less_open(samples: Seq<(u16, bool)>, rows: Seq<usize>, f: int, g: int) -> bool {
    open_above(samples, rows, f) * open_below(samples, rows, g) < open_above(samples, rows, g)
        * open_below(samples, rows, f)
}

/// Whether `f` is the first of the features below `n` whose split has the least conditional entropy.
pub open spec fn is_best_of(samples: Seq<(u16, bool)>, rows: Seq<usize>, f: int, n: int) -> bool {
    &&& 0 <= f < n
    &&& forall|g: int| 0 <= g < f ==> #[trigger] leaves_less_open(samples, rows, f, g)
    &&& forall|g: int| f <= g < n ==> !#[trigger] leaves_less_open(samples, rows, g, f)
}

/// Whether `f` is the first feature whose split has the least conditional entropy.
pub open spec fn is_best_split(samples: Seq<(u16, bool)>, rows: Seq<usize>, f: int) -> bool {
    is_best_of(samples, rows, f, 16)
}

/// The feature to split by.
pub open spec fn best_feature(samples: Seq<(u16, bool)>, rows: Seq<usize>) -> int {
    choose|f: int| is_best_split(samples, rows, f)
}

/// Whether all rows have one label.
pub open spec fn one_label(samples: Seq<(u16, bool)>, rows: Seq<usize>) -> bool {
    label_count(samples, rows, false) == 0 || label_count(samples, rows, true) == 0
}

/// The rows that arrive at a node, in heap order. Rows of one label are handed to both children.
pub open spec fn rows_at(samples: Seq<(u16, bool)>, idx: nat) -> Seq<usize>
    decreases idx,
{
    if idx == 0 {
        Seq::new(samples.len(), |i: int| i as usize)
    } else {
        let rows = rows_at(samples, ((idx - 1) / 2) as nat);
        if one_label(samples, rows) {
            rows
        } else {
            side_rows(samples, rows, best_feature(samples, rows), idx % 2 == 0)
        }
    }
}

/// The feature that a node tests.
pub open spec fn feature_at(samples: Seq<(u16, bool)>, idx: nat) -> int {
    let rows = rows_at(samples, idx);
    if one_label(samples, rows) {
        0
    } else {
        best_feature(samples, rows)
    }
}

/// The class of a leaf: that of most rows, the positive one if both are as frequent, the negative
/// one if there are no rows.
pub open spec fn leaf_class(samples: Seq<(u16, bool)>, leaf: nat) -> bool {
    let rows = rows_at(samples, 15 + leaf);
    rows.len() > 0 && label_count(samples, rows, true) >= label_count(samples, rows, false)
}

/// Whether a leaf has rows, all of one label.
pub open spec fn leaf_is_pure(samples: Seq<(u16, bool)>, leaf: nat) -> bool {
    let rows = rows_at(samples, 15 + leaf);
    rows.len() > 0 && one_label(samples, rows)
}

/// Whether a tree is the one that samples lead to.
pub open spec fn is_trained(t: Tree32, samples: Seq<(u16, bool)>) -> bool {
    &&& forall|i: int| 0 <= i < 15 ==> #[trigger] t.internals@[i] == feature_at(samples, i as nat)
    &&& forall|l: int| 0 <= l < 16 ==> #[trigger] half_bit(t.leaves, l) == leaf_class(samples, l as nat)
    &&& forall|l: int| 0 <= l < 16 ==> #[trigger] half_bit(t.leaf_pure, l) == leaf_is_pure(samples, l as nat)
}

/// Whether all rows are rows of the samples.
pub open spec fn valid_rows(samples: Seq<(u16, bool)>, rows: Seq<usize>) -> bool {
    forall|i: int| 0 <= i < rows.len() ==> #[trigger] rows[i] < samples.len()
}

/// How a split divides rows.
struct SplitCounts {
    left_pos: u64,
    left_neg: u64,
    right_pos: u64,
    right_neg: u64,
}

impl SplitCounts {
    spec fn above(&self) -> int {
        self_power((self.left_pos + self.left_neg) as nat) * self_power(
            (self.right_pos + self.right_neg) as nat,
        )
    }

    spec fn below(&self) -> int {
        self_power(self.left_pos as nat) * self_power(self.left_neg as nat) * self_power(
            self.right_pos as nat,
        ) * self_power(self.right_neg as nat)
    }
}

/// Every row has one of the two labels.
pub proof fn labels_add_up(samples: Seq<(u16, bool)>, rows: Seq<usize>)
    ensures
        label_count(samples, rows, true) + label_count(samples, rows, false) == rows.len(),
    decreases rows.len(),
{
    if rows.len() > 0 {
        labels_add_up(samples, rows.drop_last());
    }
}

proof fn label_count_push(samples: Seq<(u16, bool)>, rows: Seq<usize>, r: usize, label: bool)
    ensures
        label_count(samples, rows.push(r), label) == label_count(samples, rows, label) + (if samples[r as int].1
            == label {
            1nat
        } else {
            0
        }),
{
    assert(rows.push(r).drop_last() =~= rows);
}

/// Counts the rows of each label.
pub fn count_labels(samples: &[(u16, bool)], rows: &Vec<usize>) -> (n: (usize, usize))
    requires
        valid_rows(samples@, rows@),
    ensures
        n.0 == label_count(samples@, rows@, false),
        n.1 == label_count(samples@, rows@, true),
{
    let mut n0: usize = 0;
    let mut n1: usize = 0;
    let mut i: usize = 0;
    assert(rows@.take(0) =~= Seq::<usize>::empty());
    while i < rows.len()
        invariant
            i <= rows@.len(),
            valid_rows(samples@, rows@),
            n0 == label_count(samples@, rows@.take(i as int), false),
            n1 == label_count(samples@, rows@.take(i as int), true),
            n0 + n1 == i,
        decreases rows@.len() - i,
    {
        let r: usize = rows[i];
        proof {
            assert(rows@.take(i + 1).drop_last() =~= rows@.take(i as int));
            assert(rows@[i as int] < samples@.len());
        }
        if samples[r].1 {
            n1 += 1;
        } else {
            n0 += 1;
        }
        i += 1;
    }
    assert(rows@.take(i as int) =~= rows@);
    (n0, n1)
}

fn count_split(samples: &[(u16, bool)], rows: &Vec<usize>, f: u8) -> (c: SplitCounts)
    requires
        valid_rows(samples@, rows@),
        f < 16,
    ensures
        c.left_pos + c.left_neg + c.right_pos + c.right_neg == rows@.len(),
        c.above() == open_above(samples@, rows@, f as int),
        c.below() == open_below(samples@, rows@, f as int),
{
    let mut c = SplitCounts { left_pos: 0, left_neg: 0, right_pos: 0, right_neg: 0 };
    let mut i: usize = 0;
    let ghost mut left = Seq::<usize>::empty();
    let ghost mut right = Seq::<usize>::empty();
    assert(rows@.take(0) =~= Seq::<usize>::empty());
    while i < rows.len()
        invariant
            i <= rows@.len(),
            f < 16,
            valid_rows(samples@, rows@),
            left == side_rows(samples@, rows@.take(i as int), f as int, false),
            right == side_rows(samples@, rows@.take(i as int), f as int, true),
            c.left_pos == label_count(samples@, left, true),
            c.left_neg == label_count(samples@, left, false),
            c.right_pos == label_count(samples@, right, true),
            c.right_neg == label_count(samples@, right, false),
            c.left_pos + c.left_neg + c.right_pos + c.right_neg == i,
        decreases rows@.len() - i,
    {
        let r: usize = rows[i];
        proof {
            assert(rows@.take(i + 1).drop_last() =~= rows@.take(i as int));
            assert(rows@[i as int] < samples@.len());
            half_facts(samples@[r as int].0, 0, f as u16);
            label_count_push(samples@, left, r, true);
            label_count_push(samples@, left, r, false);
            label_count_push(samples@, right, r, true);
            label_count_push(samples@, right, r, false);
        }
        let (feat, label) = samples[r];
        if (feat >> (f as u16)) & 1 == 0 {
            if label {
                c.left_pos += 1;
            } else {
                c.left_neg += 1;
            }
            proof {
                left = left.push(r);
            }
        } else {
            if label {
                c.right_pos += 1;
            } else {
                c.right_neg += 1;
            }
            proof {
                right = right.push(r);
            }
        }
        i += 1;
    }
    proof {
        assert(rows@.take(i as int) =~= rows@);
        labels_add_up(samples@, left);
        labels_add_up(samples@, right);
    }
    c
}

fn scale_by_self_power(n: &mut BigNat, k: u64)
    ensures
        final(n)@ == old(n)@ * self_power(k as nat),
{
    let mut i: u64 = 0;
    proof {
        power::lemma_pow0(k as int);
        assert(n@ * 1 == n@);
    }
    while i < k
        invariant
            i <= k,
            n@ == old(n)@ * power::pow(k as int, i as nat),
        decreases k - i,
    {
        proof {
            power::lemma_pow_adds(k as int, i as nat, 1);
            power::lemma_pow1(k as int);
            let a = old(n)@;
            let p = power::pow(k as int, i as nat);
            assert((a * p) * (k as int) == a * (p * (k as int))) by (nonlinear_arith);
        }
        n.scale(k);
        i += 1;
    }
}

/// Whether the first split leaves less open than the second.
fn costs_less(a: &SplitCounts, b: &SplitCounts) -> (r: bool)
    requires
        a.left_pos + a.left_neg + a.right_pos + a.right_neg <= u64::MAX,
        b.left_pos + b.left_neg + b.right_pos + b.right_neg <= u64::MAX,
    ensures
        r == (a.above() * b.below() < b.above() * a.below()),
{
    let x = product(a, b);
    let y = product(b, a);
    x.less(&y)
}

fn product(a: &SplitCounts, b: &SplitCounts) -> (n: BigNat)
    requires
        a.left_pos + a.left_neg + a.right_pos + a.right_neg <= u64::MAX,
    ensures
        n@ == a.above() * b.below(),
{
    let mut n = BigNat::one();
    scale_by_self_power(&mut n, a.left_pos + a.left_neg);
    scale_by_self_power(&mut n, a.right_pos + a.right_neg);
    scale_by_self_power(&mut n, b.left_pos);
    scale_by_self_power(&mut n, b.left_neg);
    scale_by_self_power(&mut n, b.right_pos);
    scale_by_self_power(&mut n, b.right_neg);
    proof {
        let p = self_power((a.left_pos + a.left_neg) as nat);
        let q = self_power((a.right_pos + a.right_neg) as nat);
        let r = self_power(b.left_pos as nat);
        let s = self_power(b.left_neg as nat);
        let t = self_power(b.right_pos as nat);
        let u = self_power(b.right_neg as nat);
        assert(1 * p * q * r * s * t * u == (p * q) * (r * s * t * u)) by (nonlinear_arith);
    }
    n
}

proof fn self_power_positive(n: nat)
    ensures
        self_power(n) > 0,
{
    if n == 0 {
        power::lemma_pow0(0);
    } else {
        power::lemma_pow_positive(n as int, n);
    }
}

proof fn below_positive(samples: Seq<(u16, bool)>, rows: Seq<usize>, f: int)
    ensures
        open_below(samples, rows, f) > 0,
        open_above(samples, rows, f) > 0,
{
    let left = side_rows(samples, rows, f, false);
    let right = side_rows(samples, rows, f, true);
    self_power_positive(label_count(samples, left, true));
    self_power_positive(label_count(samples, left, false));
    self_power_positive(label_count(samples, right, true));
    self_power_positive(label_count(samples, right, false));
    self_power_positive(left.len());
    self_power_positive(right.len());
    let a = self_power(label_count(samples, left, true));
    let b = self_power(label_count(samples, left, false));
    let c = self_power(label_count(samples, right, true));
    let d = self_power(label_count(samples, right, false));
    assert(a * b * c * d > 0) by (nonlinear_arith)
        requires
            a > 0,
            b > 0,
            c > 0,
            d > 0,
    ;
    let p = self_power(left.len());
    let q = self_power(right.len());
    assert(p * q > 0) by (nonlinear_arith)
        requires
            p > 0,
            q > 0,
    ;
}

proof fn ratio_chain(a1: int, b1: int, a2: int, b2: int, a3: int, b3: int)
    requires
        b1 > 0,
        b2 > 0,
        b3 > 0,
        a1 * b2 < a2 * b1,
        a2 * b3 <= a3 * b2,
    ensures
        a1 * b3 < a3 * b1,
{
    assert(a1 * b2 * b3 < a2 * b1 * b3) by (nonlinear_arith)
        requires
            a1 * b2 < a2 * b1,
            b3 > 0,
    ;
    assert(a2 * b3 * b1 <= a3 * b2 * b1) by (nonlinear_arith)
        requires
            a2 * b3 <= a3 * b2,
            b1 > 0,
    ;
    assert(a1 * b2 * b3 == (a1 * b3) * b2) by (nonlinear_arith);
    assert(a2 * b1 * b3 == a2 * b3 * b1) by (nonlinear_arith);
    assert(a3 * b2 * b1 == (a3 * b1) * b2) by (nonlinear_arith);
    assert(a1 * b3 < a3 * b1) by (nonlinear_arith)
        requires
            (a1 * b3) * b2 < (a3 * b1) * b2,
            b2 > 0,
    ;
}

/// A split that leaves less open than the best so far leaves less open than all so far.
proof fn better_than_best(samples: Seq<(u16, bool)>, rows: Seq<usize>, best: int, f: int)
    requires
        is_best_of(samples, rows, best, f),
        leaves_less_open(samples, rows, f, best),
    ensures
        forall|g: int| 0 <= g < f ==> #[trigger] leaves_less_open(samples, rows, f, g),
{
    assert forall|g: int| 0 <= g < f implies #[trigger] leaves_less_open(samples, rows, f, g) by {
        below_positive(samples, rows, f);
        below_positive(samples, rows, best);
        below_positive(samples, rows, g);
        if g < best {
            assert(leaves_less_open(samples, rows, best, g));
        } else {
            assert(!leaves_less_open(samples, rows, g, best));
        }
        ratio_chain(
            open_above(samples, rows, f),
            open_below(samples, rows, f),
            open_above(samples, rows, best),
            open_below(samples, rows, best),
            open_above(samples, rows, g),
            open_below(samples, rows, g),
        );
    }
}

/// There is one best split.
pub proof fn best_split_is_unique(samples: Seq<(u16, bool)>, rows: Seq<usize>, f: int)
    requires
        is_best_split(samples, rows, f),
    ensures
        best_feature(samples, rows) == f,
{
    let g = best_feature(samples, rows);
    assert(is_best_split(samples, rows, g));
    if g < f {
        assert(leaves_less_open(samples, rows, f, g));
        assert(!leaves_less_open(samples, rows, f, g));
    } else if f < g {
        assert(leaves_less_open(samples, rows, g, f));
        assert(!leaves_less_open(samples, rows, g, f));
    }
}

/// The feature whose split has the least conditional entropy, the first of them if several do.
pub fn best_split(samples: &[(u16, bool)], rows: &Vec<usize>) -> (best: u8)
    requires
        valid_rows(samples@, rows@),
    ensures
        is_best_split(samples@, rows@, best as int),
        best == best_feature(samples@, rows@),
{
    let mut best: u8 = 0;
    let mut best_counts = count_split(samples, rows, 0);
    let mut f: u8 = 1;
    let total: usize = rows.len();
    while f < FEATURE_BITS
        invariant
            1 <= f <= 16,
            best < f,
            total == rows@.len(),
            valid_rows(samples@, rows@),
            best_counts.left_pos + best_counts.left_neg + best_counts.right_pos + best_counts.right_neg
                == total,
            best_counts.above() == open_above(samples@, rows@, best as int),
            best_counts.below() == open_below(samples@, rows@, best as int),
            is_best_of(samples@, rows@, best as int, f as int),
        decreases 16 - f,
    {
        let counts = count_split(samples, rows, f);
        if costs_less(&counts, &best_counts) {
            proof {
                better_than_best(samples@, rows@, best as int, f as int);
            }
            best = f;
            best_counts = counts;
        }
        f += 1;
    }
    proof {
        best_split_is_unique(samples@, rows@, best as int);
    }
    best
}

proof fn side_rows_valid(samples: Seq<(u16, bool)>, rows: Seq<usize>, f: int, side: bool)
    requires
        valid_rows(samples, rows),
    ensures
        valid_rows(samples, side_rows(samples, rows, f, side)),
    decreases rows.len(),
{
    if rows.len() > 0 {
        let rest = rows.drop_last();
        assert forall|i: int| 0 <= i < rest.len() implies #[trigger] rest[i] < samples.len() by {
            assert(rest[i] == rows[i]);
        }
        side_rows_valid(samples, rest, f, side);
        let out = side_rows(samples, rows, f, side);
        let inner = side_rows(samples, rest, f, side);
        assert(rows[rows.len() - 1] < samples.len());
        assert forall|i: int| 0 <= i < out.len() implies #[trigger] out[i] < samples.len() by {
            if i < inner.len() {
                assert(out[i] == inner[i]);
            }
        }
    }
}

/// Divides rows by a feature.
fn partition(samples: &[(u16, bool)], rows: &Vec<usize>, f: u8) -> (r: (Vec<usize>, Vec<usize>))
    requires
        valid_rows(samples@, rows@),
        f < 16,
    ensures
        r.0@ == side_rows(samples@, rows@, f as int, false),
        r.1@ == side_rows(samples@, rows@, f as int, true),
{
    let mut left: Vec<usize> = Vec::new();
    let mut right: Vec<usize> = Vec::new();
    let mut i: usize = 0;
    assert(rows@.take(0) =~= Seq::<usize>::empty());
    while i < rows.len()
        invariant
            i <= rows@.len(),
            f < 16,
            valid_rows(samples@, rows@),
            left@ == side_rows(samples@, rows@.take(i as int), f as int, false),
            right@ == side_rows(samples@, rows@.take(i as int), f as int, true),
        decreases rows@.len() - i,
    {
        let r: usize = rows[i];
        proof {
            assert(rows@.take(i + 1).drop_last() =~= rows@.take(i as int));
            assert(rows@[i as int] < samples@.len());
            half_facts(samples@[r as int].0, 0, f as u16);
        }
        if (samples[r].0 >> (f as u16)) & 1 == 0 {
            left.push(r);
        } else {
            right.push(r);
        }
        i += 1;
    }
    assert(rows@.take(i as int) =~= rows@);
    (left, right)
}

fn copy_rows(rows: &Vec<usize>) -> (r: Vec<usize>)
    ensures
        r@ == rows@,
{
    let mut r: Vec<usize> = Vec::new();
    let mut i: usize = 0;
    while i < rows.len()
        invariant
            i <= rows@.len(),
            r@ == rows@.take(i as int),
        decreases rows@.len() - i,
    {
        r.push(rows[i]);
        assert(rows@.take(i + 1) =~= rows@.take(i as int).push(rows@[i as int]));
        i += 1;
    }
    assert(rows@.take(i as int) =~= rows@);
    r
}

impl Tree32 {
    /// Trains a tree: every inner node tests the feature that leaves least open, every leaf takes
    /// the class of most samples that arrive. Without samples it is the baseline tree.
    pub fn train(samples: &[(u16, bool)], gen: u8) -> (t: Self)
        ensures
            t.gen == gen,
            samples@.len() == 0 ==> t.internals@ == Seq::new(15, |i: int| 0u8) && t.leaves == 0xFFFF
                && t.leaf_pure == 0,
            samples@.len() > 0 ==> is_trained(t, samples@),
    {
        if samples.len() == 0 {
            let mut t = Tree32::baseline();
            t.gen = gen;
            return t;
        }
        let mut internals: [u8; 15] = [0u8; 15];
        let mut node_rows: Vec<Vec<usize>> = Vec::new();
        let mut all: Vec<usize> = Vec::new();
        let mut k: usize = 0;
        while k < samples.len()
            invariant
                k <= samples@.len(),
                all@ == Seq::new(k as nat, |i: int| i as usize),
            decreases samples@.len() - k,
        {
            all.push(k);
            k += 1;
            assert(all@ =~= Seq::new(k as nat, |i: int| i as usize));
        }
        node_rows.push(all);
        let mut idx: usize = 0;
        while idx < N_INTERNAL
            invariant
                idx <= 15,
                node_rows@.len() == 2 * idx + 1,
                forall|j: int|
                    0 <= j < 2 * idx + 1 ==> (#[trigger] node_rows@[j])@ == rows_at(samples@, j as nat)
                        && valid_rows(samples@, node_rows@[j]@),
                forall|j: int| 0 <= j < idx ==> #[trigger] internals@[j] == feature_at(samples@, j as nat),
            decreases 15 - idx,
        {
            let rows = copy_rows(&node_rows[idx]);
            proof {
                assert(node_rows@[idx as int]@ == rows_at(samples@, idx as nat));
                assert((2 * idx + 1 - 1) / 2 == idx && (2 * idx + 2 - 1) / 2 == idx);
                assert((2 * idx + 1) % 2 == 1 && (2 * idx + 2) % 2 == 0);
                labels_add_up(samples@, rows@);
            }
            let (n0, n1) = count_labels(samples, &rows);
            if n0 == 0 || n1 == 0 {
                internals[idx] = 0;
                let twin = copy_rows(&rows);
                node_rows.push(rows);
                node_rows.push(twin);
            } else {
                let best: u8 = best_split(samples, &rows);
                internals[idx] = best;
                let (left, right) = partition(samples, &rows, best);
                proof {
                    side_rows_valid(samples@, rows@, best as int, false);
                    side_rows_valid(samples@, rows@, best as int, true);
                }
                node_rows.push(left);
                node_rows.push(right);
            }
            idx += 1;
        }
        let mut leaves: u16 = 0;
        let mut leaf_pure: u16 = 0;
        let mut leaf: usize = 0;
        proof {
            assert forall|l: int| 0 <= l < 16 implies !#[trigger] half_bit(0, l) by {
                half_facts(0, 0, l as u16);
            }
        }
        while leaf < N_LEAVES
            invariant
                leaf <= 16,
                node_rows@.len() == 31,
                forall|j: int|
                    0 <= j < 31 ==> (#[trigger] node_rows@[j])@ == rows_at(samples@, j as nat) && valid_rows(
                        samples@,
                        node_rows@[j]@,
                    ),
                forall|l: int|
                    0 <= l < 16 ==> #[trigger] half_bit(leaves, l) == (l < leaf && leaf_class(
                        samples@,
                        l as nat,
                    )),
                forall|l: int|
                    0 <= l < 16 ==> #[trigger] half_bit(leaf_pure, l) == (l < leaf && leaf_is_pure(
                        samples@,
                        l as nat,
                    )),
            decreases 16 - leaf,
        {
            let rows: &Vec<usize> = &node_rows[N_INTERNAL + leaf];
            let (n0, n1) = count_labels(samples, rows);
            proof {
                labels_add_up(samples@, rows@);
                assert(node_rows@[15 + leaf]@ == rows_at(samples@, (15 + leaf) as nat));
            }
            leaves = with_bit(leaves, leaf as u16, (n0 != 0 || n1 != 0) && n1 >= n0);
            leaf_pure = with_bit(leaf_pure, leaf as u16, (n0 != 0 || n1 != 0) && (n0 == 0 || n1 == 0));
            leaf += 1;
        }
        Tree32 { internals, leaves, leaf_pure, gen }
    }
}

proof fn side_rows_contains(samples: Seq<(u16, bool)>, rows: Seq<usize>, f: int, r: usize)
    requires
        rows.contains(r),
    ensures
        side_rows(samples, rows, f, half_bit(samples[r as int].0, f)).contains(r),
    decreases rows.len(),
{
    let side = half_bit(samples[r as int].0, f);
    let out = side_rows(samples, rows, f, side);
    let rest = rows.drop_last();
    let k = choose|k: int| 0 <= k < rows.len() && rows[k] == r;
    if k == rows.len() - 1 {
        assert(out[out.len() - 1] == r);
    } else {
        assert(rest[k] == r);
        side_rows_contains(samples, rest, f, r);
        let inner = side_rows(samples, rest, f, side);
        let j = choose|j: int| 0 <= j < inner.len() && inner[j] == r;
        assert(out[j] == r);
    }
}

/// A row at a node goes on to the child that its feature chooses.
proof fn passes_on(samples: Seq<(u16, bool)>, i: nat, r: usize)
    requires
        rows_at(samples, i).contains(r),
    ensures
        0 <= feature_at(samples, i) < 16,
        rows_at(
            samples,
            if half_bit(samples[r as int].0, feature_at(samples, i)) {
                2 * i + 2
            } else {
                2 * i + 1
            },
        ).contains(r),
{
    let rows = rows_at(samples, i);
    let f = feature_at(samples, i);
    assert((2 * i + 1 - 1) / 2 == i && (2 * i + 2 - 1) / 2 == i);
    assert((2 * i + 1) % 2 == 1 && (2 * i + 2) % 2 == 0);
    if !one_label(samples, rows) {
        best_exists(samples, rows);
        side_rows_contains(samples, rows, f, r);
    }
}

/// A training sample is among the rows of every node that it is sent through.
pub proof fn arrives(t: Tree32, samples: Seq<(u16, bool)>, r: usize, n: nat)
    requires
        is_trained(t, samples),
        r < samples.len(),
        n <= 4,
    ensures
        0 <= walk(t.internals@, samples[r as int].0, n),
        rows_at(samples, walk(t.internals@, samples[r as int].0, n) as nat).contains(r),
    decreases n,
{
    let feats = samples[r as int].0;
    if n == 0 {
        assert(rows_at(samples, 0)[r as int] == r);
    } else {
        let m = (n - 1) as nat;
        arrives(t, samples, r, m);
        walk_range(t.internals@, feats);
        let i = walk(t.internals@, feats, m);
        passes_on(samples, i as nat, r);
        assert(t.internals@[i] == feature_at(samples, i as nat));
        assert(t.internals@[i] as int % 16 == t.internals@[i]);
    }
}

/// Among sixteen splits one is best.
pub proof fn best_exists(samples: Seq<(u16, bool)>, rows: Seq<usize>)
    ensures
        is_best_split(samples, rows, best_feature(samples, rows)),
{
    first_best(samples, rows, 16);
    let f = choose|f: int| is_best_of(samples, rows, f, 16);
    assert(is_best_split(samples, rows, f));
}

proof fn first_best(samples: Seq<(u16, bool)>, rows: Seq<usize>, n: int)
    requires
        1 <= n,
    ensures
        exists|f: int| is_best_of(samples, rows, f, n),
    decreases n,
{
    if n == 1 {
        assert(is_best_of(samples, rows, 0, 1));
    } else {
        let m = n - 1;
        first_best(samples, rows, m);
        let best = choose|f: int| is_best_of(samples, rows, f, m);
        if leaves_less_open(samples, rows, m, best) {
            better_than_best(samples, rows, best, m);
            assert(is_best_of(samples, rows, m, n));
        } else {
            assert(is_best_of(samples, rows, best, n));
        }
    }
}

/// The label of a row is counted.
pub proof fn label_is_counted(samples: Seq<(u16, bool)>, rows: Seq<usize>, r: usize)
    requires
        rows.contains(r),
    ensures
        label_count(samples, rows, samples[r as int].1) > 0,
    decreases rows.len(),
{
    let k = choose|k: int| 0 <= k < rows.len() && rows[k] == r;
    if k < rows.len() - 1 {
        assert(rows.drop_last()[k] == r);
        label_is_counted(samples, rows.drop_last(), r);
    }
}

/// A training sample that leads to a leaf marked as pure is classified as it was labelled.
pub proof fn law_pure_leaves_classify_training_samples(t: Tree32, samples: Seq<(u16, bool)>, r: usize)
    requires
        is_trained(t, samples),
        r < samples.len(),
        half_bit(t.leaf_pure, leaf_of(t.internals@, samples[r as int].0)),
    ensures
        half_bit(t.leaves, leaf_of(t.internals@, samples[r as int].0)) == samples[r as int].1,
{
    let feats = samples[r as int].0;
    let leaf = leaf_of(t.internals@, feats);
    walk_range(t.internals@, feats);
    arrives(t, samples, r, 4);
    let rows = rows_at(samples, (15 + leaf) as nat);
    assert((15 + leaf) as nat == walk(t.internals@, feats, 4) as nat);
    label_is_counted(samples, rows, r);
    labels_add_up(samples, rows);
    assert(half_bit(t.leaf_pure, leaf) == leaf_is_pure(samples, leaf as nat));
    assert(half_bit(t.leaves, leaf) == leaf_class(samples, leaf as nat));
}

// ---------------------------------------------------------------------------------------------
// What the bits of a vector and the numbers of a tree mean
// ---------------------------------------------------------------------------------------------

/// Each feature doubles the threshold of the one before it: of the number of dependencies from one,
/// of the size from two, of the depth from one. The others tell the first letter of the command,
/// capital or not, whether there is no dependency at all, and whether the size is 32 or more.
pub proof fn law_thresholds_double(v: u16, f: Features)
    requires
        encodes(v, f),
    ensures
        v & 1 == 1 <==> f.dep_count >= 1,
        (v >> 1) & 1 == 1 <==> f.dep_count >= 2,
        (v >> 2) & 1 == 1 <==> f.dep_count >= 4,
        (v >> 3) & 1 == 1 <==> f.subtree_size >= 2,
        (v >> 4) & 1 == 1 <==> f.subtree_size >= 4,
        (v >> 5) & 1 == 1 <==> f.subtree_size >= 8,
        (v >> 6) & 1 == 1 <==> f.subtree_size >= 16,
        (v >> 7) & 1 == 1 <==> f.depth >= 1,
        (v >> 8) & 1 == 1 <==> f.depth >= 2,
        (v >> 9) & 1 == 1 <==> f.depth >= 4,
        (v >> 10) & 1 == 1 <==> f.cmd_first_byte | 0x20 == 'e' as u8,
        (v >> 11) & 1 == 1 <==> f.cmd_first_byte | 0x20 == 't' as u8,
        (v >> 12) & 1 == 1 <==> f.cmd_first_byte | 0x20 == 'f' as u8,
        (v >> 13) & 1 == 1 <==> 'a' as u8 <= f.cmd_first_byte | 0x20 <= 'z' as u8,
        (v >> 14) & 1 == 1 <==> f.dep_count == 0,
        (v >> 15) & 1 == 1 <==> f.subtree_size >= 32,
{
    folded_letters(f.cmd_first_byte);
    assert(v & 1 == (v >> 0) & 1) by (bit_vector);
    assert(half_bit(v, 0) == feature_bit(f, 0));
    assert(half_bit(v, 1) == feature_bit(f, 1));
    assert(half_bit(v, 2) == feature_bit(f, 2));
    assert(half_bit(v, 3) == feature_bit(f, 3));
    assert(half_bit(v, 4) == feature_bit(f, 4));
    assert(half_bit(v, 5) == feature_bit(f, 5));
    assert(half_bit(v, 6) == feature_bit(f, 6));
    assert(half_bit(v, 7) == feature_bit(f, 7));
    assert(half_bit(v, 8) == feature_bit(f, 8));
    assert(half_bit(v, 9) == feature_bit(f, 9));
    assert(half_bit(v, 10) == feature_bit(f, 10));
    assert(half_bit(v, 11) == feature_bit(f, 11));
    assert(half_bit(v, 12) == feature_bit(f, 12));
    assert(half_bit(v, 13) == feature_bit(f, 13));
    assert(half_bit(v, 14) == feature_bit(f, 14));
    assert(half_bit(v, 15) == feature_bit(f, 15));
}

/// A number that fits in a byte stays as it is, and a larger one counts as 255.
pub proof fn law_bytes_saturate(n: int)
    ensures
        0 <= n <= 255 ==> as_byte(n) == n,
        n > 255 ==> as_byte(n) == 255,
{
}

/// The bit of a feature vector that a node of the tree tests, as a number.
pub open spec fn tested(internals: Seq<u8>, features: u16, node: int) -> int {
    if (features >> ((internals[node] % 16) as u16)) & 1 == 1 {
        1
    } else {
        0
    }
}

/// Four tests lead to a leaf, and each decides one binary digit of its number, the first the
/// highest; which node is tested next is decided by the digits so far.
pub proof fn law_tests_spell_the_leaf(internals: Seq<u8>, features: u16)
    ensures
        ({
            let a = tested(internals, features, 0);
            let b = tested(internals, features, 1 + a);
            let c = tested(internals, features, 3 + 2 * a + b);
            let d = tested(internals, features, 7 + 4 * a + 2 * b + c);
            leaf_of(internals, features) == 8 * a + 4 * b + 2 * c + d
        }),
{
    reveal_with_fuel(walk, 5);
}

/// A frame with a tree has the mark above the number of its generation in slot 0, and the bits of
/// the leaves in slots 3 and 4.
pub proof fn law_slots_of_a_tree(t: Tree32)
    ensures
        tree_fields(t)[0] == 0x5A * 8388608 + t.gen,
        tree_fields(t)[3] == t.leaves,
        tree_fields(t)[4] == t.leaf_pure,
        forall|i: int| 5 <= i < 32 ==> #[trigger] tree_fields(t)[i] == 0,
{
    let g = t.gen;
    assert((0x5Au32 << 23) | (g as u32) == 0x5A * 8388608 + g) by (bit_vector);
}

} // verus!
