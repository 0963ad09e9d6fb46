//! Palette swaps: a key palette and a target palette of the same length define a colour
//! mapping, held in an open-addressing hash table keyed by RGB.

use vstd::prelude::*;
use vstd::set_lib::{lemma_int_range, lemma_len_subset, set_int_range};
use crate::util::image::{Rgba, RgbaImage, ImageView};
use crate::text::{digits, push_digits, push_str};

verus! {

/// Marks an unused slot. No packed RGB value reaches it, since packing uses 24 bits.
pub const EMPTY_PACKED: u32 = 0xFFFF_FFFF;

/// floor(2^32 / φ), where φ is the golden ratio (Fibonacci hashing).
pub const FIB_HASH_MULTIPLIER: u32 = 0x9E37_79B9;

/// Every pixel of a palette image in row-major order, duplicates allowed.
#[derive(Clone, Debug)]
pub struct Palette {
    colors: Vec<Rgba>,
}

impl View for Palette {
    type V = Seq<Rgba>;

    closed spec fn view(&self) -> Seq<Rgba> {
        self.colors@
    }
}

impl Palette {
    /// The colours of an image, pixel by pixel in row-major order.
    pub fn from_image(image: &RgbaImage) -> (p: Palette)
        ensures
            p@ == image@.pixels,
    {
        Palette { colors: image.pixels().clone() }
    }

    /// The colours in order.
    pub fn from_colors(colors: Vec<Rgba>) -> (p: Palette)
        ensures
            p@ == colors@,
    {
        Palette { colors }
    }

    pub fn len(&self) -> (n: usize)
        ensures
            n == self@.len(),
    {
        self.colors.len()
    }

    pub fn is_empty(&self) -> (b: bool)
        ensures
            b == (self@.len() == 0),
    {
        self.colors.len() == 0
    }
}

impl Default for Palette {
    fn default() -> (p: Palette)
        ensures
            p@ == Seq::<Rgba>::empty(),
    {
        Palette { colors: Vec::new() }
    }
}

/// The key and target palettes differ in length.
#[derive(Clone, Debug, PartialEq, Eq, Structural)]
pub struct PaletteSizeMismatch {
    pub base: usize,
    pub target: usize,
}

impl PaletteSizeMismatch {
    /// The mismatch as a sentence.
    pub fn to_string(&self) -> (out: String)
        ensures
            out@ == "Palette size mismatch: base has "@ + digits(self.base as nat) + " entries, target has "@ + digits(
                self.target as nat,
            ),
    {
        let mut out = "Palette size mismatch: base has ".to_owned();
        push_digits(&mut out, self.base as u64);
        push_str(&mut out, " entries, target has ");
        push_digits(&mut out, self.target as u64);
        out
    }
}

/// A colour's RGB channels packed into 24 bits; alpha is left out.
pub open spec fn packed_rgb(c: Rgba) -> u32 {
    (c.r as int * 65536 + c.g as int * 256 + c.b as int) as u32
}

/// The colour mapping that the first `n` entries of a key and a target palette define: each
/// key colour that is not fully transparent maps its RGB to the target colour at the same
/// position, and a later entry replaces an earlier one with the same RGB.
pub open spec fn palette_map(key: Seq<Rgba>, target: Seq<Rgba>, n: int) -> Map<u32, Rgba>
    decreases n,
{
    if n <= 0 {
        Map::empty()
    } else {
        let m = palette_map(key, target, n - 1);
        if key[n - 1].a == 0 {
            m
        } else {
            m.insert(packed_rgb(key[n - 1]), target[n - 1])
        }
    }
}

/// What a colour mapping makes of a source colour. Fully transparent colours and colours whose
/// RGB is not mapped stay as they are; a mapped colour takes the target's RGB, and the alphas
/// multiply (`source alpha * target alpha / 255`).
pub open spec fn remapped(m: Map<u32, Rgba>, source: Rgba) -> Rgba {
    if source.a == 0 {
        source
    } else if m.contains_key(packed_rgb(source)) {
        let v = m[packed_rgb(source)];
        Rgba { r: v.r, g: v.g, b: v.b, a: (source.a as int * v.a as int / 255) as u8 }
    } else {
        source
    }
}

/// The number of slots a table for `n` entries gets: the smallest power of two that is at
/// least `2 * n` and at least 8.
pub open spec fn table_capacity(n: int) -> int {
    capacity_from(8, n)
}

pub open spec fn capacity_from(c: int, n: int) -> int
    decreases (if c < 2 * n { 2 * n - c } else { 0 }),
{
    if c <= 0 || c >= 2 * n {
        c
    } else {
        capacity_from(2 * c, n)
    }
}

/// One-to-one mapping from a key palette to a target palette, keyed by RGB. The key's alpha
/// channel is ignored.
pub struct PaletteMapping {
    slots: Vec<(u32, Rgba)>,
    mask: usize,
    shift: u32,
    len: usize,
    map: Ghost<Map<u32, Rgba>>,
}

/// The home slot of a packed key: the top bits of its Fibonacci hash.
pub open spec fn home_slot(key: u32, shift: u32) -> int {
    (key.wrapping_mul(FIB_HASH_MULTIPLIER) >> shift) as int
}

/// The slot `d` steps after `h` in a table of `cap` slots, wrapping around.
pub open spec fn probe(h: int, d: int, cap: int) -> int {
    (h + d) % cap
}

/// How many steps it takes to go from slot `h` to slot `j`.
pub open spec fn distance(h: int, j: int, cap: int) -> int {
    (j - h) % cap
}

proof fn lemma_probe_distance(h: int, j: int, cap: int)
    requires
        0 <= h < cap,
        0 <= j < cap,
    ensures
        0 <= distance(h, j, cap) < cap,
        probe(h, distance(h, j, cap), cap) == j,
{
    if j >= h {
        assert((j - h) % cap == j - h) by {
            vstd::arithmetic::div_mod::lemma_small_mod((j - h) as nat, cap as nat);
        }
        vstd::arithmetic::div_mod::lemma_small_mod(j as nat, cap as nat);
    } else {
        assert((j - h) % cap == j - h + cap) by {
            vstd::arithmetic::div_mod::lemma_fundamental_div_mod_converse(j - h, cap, -1, j - h + cap);
        }
        assert((h + (j - h + cap)) % cap == j) by {
            vstd::arithmetic::div_mod::lemma_fundamental_div_mod_converse(j + cap, cap, 1, j);
        }
    }
}

proof fn lemma_probe_step(h: int, d: int, cap: int, i: int)
    requires
        0 <= h < cap,
        0 <= d,
        i == probe(h, d, cap),
        cap > 1,
    ensures
        0 <= i < cap,
        probe(h, d + 1, cap) == if i + 1 == cap { 0 } else { i + 1 },
{
    vstd::arithmetic::div_mod::lemma_mod_bound(h + d, cap);
    vstd::arithmetic::div_mod::lemma_add_mod_noop(h + d, 1, cap);
    vstd::arithmetic::div_mod::lemma_small_mod(1, cap as nat);
    if i + 1 == cap {
        vstd::arithmetic::div_mod::lemma_mod_self_0(cap);
    } else {
        vstd::arithmetic::div_mod::lemma_small_mod((i + 1) as nat, cap as nat);
    }
}

proof fn lemma_probe_start(h: int, cap: int)
    requires
        0 <= h < cap,
    ensures
        probe(h, 0, cap) == h,
{
    vstd::arithmetic::div_mod::lemma_small_mod(h as nat, cap as nat);
}

proof fn lemma_slot_bound(x: u32, bits: u32)
    requires
        3 <= bits <= 32,
    ensures
        ((x >> ((32 - bits) as u32)) as u64) < (1u64 << (bits as u64)),
{
    assert(((x >> ((32 - bits) as u32)) as u64) < (1u64 << (bits as u64))) by (bit_vector)
        requires
            3 <= bits <= 32,
    ;
}

proof fn lemma_next_slot(i: usize, cap: usize, mask: usize)
    requires
        i < cap,
        cap > 0,
        mask == cap - 1,
        cap as u64 & (cap - 1) as u64 == 0,
    ensures
        ((i + 1) as usize) & mask == if i + 1 == cap { 0 } else { (i + 1) as usize },
{
    assert(cap & ((cap - 1) as usize) == 0) by (bit_vector)
        requires
            cap as u64 & (cap - 1) as u64 == 0,
            cap > 0,
    ;
    assert(((i + 1) as usize) & ((cap - 1) as usize) == if ((i + 1) as usize) == cap { 0 } else { ((i + 1) as usize) }) by (bit_vector)
        requires
            i < cap,
            cap > 0,
            cap & ((cap - 1) as usize) == 0,
    ;
}

proof fn lemma_double_pow2(c: u64, b: u64)
    requires
        b < 63,
        c == 1u64 << b,
    ensures
        c * 2 == 1u64 << (b + 1) as u64,
        c > 0,
        c & (c - 1) as u64 == 0,
{
    assert((1u64 << b) * 2 == 1u64 << ((b + 1) as u64)) by (bit_vector)
        requires
            b < 63,
    ;
    assert((1u64 << b) > 0) by (bit_vector)
        requires
            b < 63,
    ;
    assert((1u64 << b) & (((1u64 << b) - 1) as u64) == 0) by (bit_vector)
        requires
            b < 63,
    ;
}

proof fn lemma_packed_not_empty(c: Rgba)
    ensures
        packed_rgb(c) != EMPTY_PACKED,
        packed_rgb(c) as int == c.r as int * 65536 + c.g as int * 256 + c.b as int,
{
}

/// The RGB channels of a colour packed as `r << 16 | g << 8 | b`.
pub fn pack(color: Rgba) -> (p: u32)
    ensures
        p == packed_rgb(color),
{
    let r = color.r as u32;
    let g = color.g as u32;
    let b = color.b as u32;
    assert((r << 16 | g << 8 | b) == r * 65536 + g * 256 + b) by (bit_vector)
        requires
            r < 256,
            g < 256,
            b < 256,
    ;
    r << 16 | g << 8 | b
}

/// The shape and contents of a probing table: a power-of-two number of slots with the matching
/// shift and mask; every used slot holds a mapped key and its target, and no key sits in two
/// slots; every mapped key sits in a slot that linear probing from its home slot reaches before
/// any unused slot.
pub closed spec fn table_ok(slots: Seq<(u32, Rgba)>, shift: u32, mask: usize, map: Map<u32, Rgba>) -> bool {
    let cap = slots.len() as int;
    let bits = 32 - shift;
    &&& 3 <= bits <= 32
    &&& cap == (1u64 << bits as u64) as int
    &&& cap as u64 & (cap - 1) as u64 == 0
    &&& cap >= 8
    &&& mask == cap - 1
    &&& forall|k: u32| #[trigger] map.contains_key(k) ==> k != EMPTY_PACKED
    &&& forall|j: int|
        0 <= j < cap && (#[trigger] slots[j]).0 != EMPTY_PACKED ==> map.contains_key(slots[j].0)
            && map[slots[j].0] == slots[j].1
    &&& forall|j1: int, j2: int|
        0 <= j1 < cap && 0 <= j2 < cap && (#[trigger] slots[j1]).0 != EMPTY_PACKED && slots[j1].0
            == (#[trigger] slots[j2]).0 ==> j1 == j2
    &&& forall|k: u32|
        #[trigger] map.contains_key(k) ==> exists|j: int|
            0 <= j < cap && slots[j].0 == k && forall|e: int|
                0 <= e < distance(home_slot(k, shift), j, cap) ==> slots[probe(
                    home_slot(k, shift),
                    e,
                    cap,
                )].0 != EMPTY_PACKED
}

proof fn lemma_distance_of_probe(h: int, d: int, cap: int)
    requires
        0 <= h < cap,
        0 <= d < cap,
    ensures
        distance(h, probe(h, d, cap), cap) == d,
{
    let j = probe(h, d, cap);
    lemma_probe_distance(h, j, cap);
    let dj = distance(h, j, cap);
    // both d and dj reach j from h in fewer than cap steps
    vstd::arithmetic::div_mod::lemma_fundamental_div_mod(h + d, cap);
    vstd::arithmetic::div_mod::lemma_fundamental_div_mod(h + dj, cap);
    let q1 = (h + d) / cap;
    let q2 = (h + dj) / cap;
    assert(0 <= q1 <= 1) by {
        vstd::arithmetic::div_mod::lemma_div_pos_is_pos(h + d, cap);
        vstd::arithmetic::div_mod::lemma_div_is_ordered(h + d, 2 * cap - 1, cap);
        vstd::arithmetic::div_mod::lemma_fundamental_div_mod_converse(2 * cap - 1, cap, 1, cap - 1);
    }
    assert(0 <= q2 <= 1) by {
        vstd::arithmetic::div_mod::lemma_div_pos_is_pos(h + dj, cap);
        vstd::arithmetic::div_mod::lemma_div_is_ordered(h + dj, 2 * cap - 1, cap);
        vstd::arithmetic::div_mod::lemma_fundamental_div_mod_converse(2 * cap - 1, cap, 1, cap - 1);
    }
    assert(h + d == cap * q1 + j);
    assert(h + dj == cap * q2 + j);
    if q1 == 0 {
        assert(cap * q1 == 0) by (nonlinear_arith)
            requires
                q1 == 0,
        ;
    } else {
        assert(cap * q1 == cap) by (nonlinear_arith)
            requires
                q1 == 1,
        ;
    }
    if q2 == 0 {
        assert(cap * q2 == 0) by (nonlinear_arith)
            requires
                q2 == 0,
        ;
    } else {
        assert(cap * q2 == cap) by (nonlinear_arith)
            requires
                q2 == 1,
        ;
    }
}

/// Every slot is in use when a probe from `h` has passed `cap` used slots in a row.
proof fn lemma_free_slot_reached(slots: Seq<(u32, Rgba)>, h: int, d: int, cap: int)
    requires
        cap == slots.len(),
        cap > 1,
        0 <= h < cap,
        0 <= d,
        forall|e: int| 0 <= e < d ==> #[trigger] slots[probe(h, e, cap)].0 != EMPTY_PACKED,
        exists|j: int| 0 <= j < cap && slots[j].0 == EMPTY_PACKED,
    ensures
        d < cap,
{
    if d >= cap {
        let ex = choose|j: int| 0 <= j < cap && slots[j].0 == EMPTY_PACKED;
        lemma_probe_distance(h, ex, cap);
        let de = distance(h, ex, cap);
        assert(slots[probe(h, de, cap)].0 != EMPTY_PACKED);
    }
}

/// A table with fewer used slots than slots has an unused one.
proof fn lemma_free_slot_exists(slots: Seq<(u32, Rgba)>, filled: Set<int>)
    requires
        filled.finite(),
        filled.len() < slots.len(),
        forall|j: int| 0 <= j < slots.len() ==> (slots[j].0 != EMPTY_PACKED <==> #[trigger] filled.contains(j)),
    ensures
        exists|j: int| 0 <= j < slots.len() && slots[j].0 == EMPTY_PACKED,
{
    let all = set_int_range(0, slots.len() as int);
    lemma_int_range(0, slots.len() as int);
    if forall|j: int| 0 <= j < slots.len() ==> slots[j].0 != EMPTY_PACKED {
        assert(all.subset_of(filled));
        lemma_len_subset(all, filled);
    }
}

proof fn lemma_capacity_grows(c: int, n: int)
    requires
        c > 0,
    ensures
        capacity_from(c, n) >= c,
    decreases (if c < 2 * n { 2 * n - c } else { 0 }),
{
    if c < 2 * n {
        lemma_capacity_grows(2 * c, n);
    }
}

impl View for PaletteMapping {
    type V = Map<u32, Rgba>;

    closed spec fn view(&self) -> Map<u32, Rgba> {
        self.map@
    }
}

impl PaletteMapping {
    /// The table's invariant: a power-of-two number of slots with the matching shift and mask;
    /// every used slot holds a mapped key and its target; every mapped key sits in a slot that
    /// linear probing from its home slot reaches before any unused slot; at least one slot is
    /// unused; `len` counts the mapped keys.
    pub closed spec fn wf(&self) -> bool {
        &&& table_ok(self.slots@, self.shift, self.mask, self.map@)
        &&& exists|j: int| 0 <= j < self.slots@.len() && self.slots@[j].0 == EMPTY_PACKED
        &&& self.map@.dom().finite()
        &&& self.len == self.map@.dom().len()
    }

    #[inline(always)]
    fn slot(&self, key: u32) -> (i: usize)
        requires
            self.wf(),
        ensures
            i == home_slot(key, self.shift),
            i < self.slots@.len(),
    {
        proof {
            lemma_slot_bound(key.wrapping_mul(FIB_HASH_MULTIPLIER), (32 - self.shift) as u32);
        }
        (key.wrapping_mul(FIB_HASH_MULTIPLIER) >> self.shift) as usize
    }

    /// What the mapping makes of a colour: fully transparent colours and unmapped colours are
    /// returned untouched; a mapped colour takes the target's RGB, and the alphas multiply
    /// (`source alpha * target alpha / 255`), so a semi-transparent source stays semi-transparent.
    pub fn apply(&self, source: Rgba) -> (out: Rgba)
        requires
            self.wf(),
        ensures
            out == remapped(self@, source),
    {
        if source.a == 0 {
            return source;
        }
        let packed = pack(source);
        let mut i = self.slot(packed);
        let cap_exec = self.slots.len();
        let ghost cap = self.slots@.len() as int;
        let ghost h = i as int;
        let ghost mut d: int = 0;
        proof {
            lemma_probe_start(h, cap);
        }
        loop
            invariant
                self.wf(),
                cap == self.slots@.len(),
                cap == cap_exec,
                packed == packed_rgb(source),
                source.a != 0,
                h == home_slot(packed, self.shift),
                0 <= h < cap,
                0 <= d < cap,
                i == probe(h, d, cap),
                forall|e: int|
                    0 <= e < d ==> self.slots@[probe(h, e, cap)].0 != EMPTY_PACKED
                        && self.slots@[#[trigger] probe(h, e, cap)].0 != packed,
            decreases cap - d,
        {
            proof {
                lemma_probe_step(h, d, cap, i as int);
            }
            let (k, v) = self.slots[i];
            if k == packed {
                assert(self.slots@[i as int].0 != EMPTY_PACKED) by {
                    lemma_packed_not_empty(source);
                }
                assert(source.a as u16 * v.a as u16 <= 65025) by (nonlinear_arith)
                    requires
                        source.a <= 255,
                        v.a <= 255,
                ;
                let alpha = (source.a as u16 * v.a as u16 / 255) as u8;
                return Rgba { r: v.r, g: v.g, b: v.b, a: alpha };
            }
            if k == EMPTY_PACKED {
                proof {
                    if self.map@.contains_key(packed) {
                        let j = choose|j: int|
                            0 <= j < cap && self.slots@[j].0 == packed && forall|e: int|
                                0 <= e < distance(h, j, cap) ==> self.slots@[probe(h, e, cap)].0
                                    != EMPTY_PACKED;
                        lemma_probe_distance(h, j, cap);
                        let dj = distance(h, j, cap);
                        if d < dj {
                            assert(self.slots@[probe(h, d, cap)].0 != EMPTY_PACKED);
                        } else if d == dj {
                            lemma_packed_not_empty(source);
                        } else {
                            assert(self.slots@[probe(h, dj, cap)].0 != packed);
                        }
                    }
                }
                return source;
            }
            proof {
                lemma_next_slot(i, cap_exec, self.mask);
            }
            i = (i + 1) & self.mask;
            proof {
                if d + 1 == cap {
                    let ex = choose|j: int| 0 <= j < cap && self.slots@[j].0 == EMPTY_PACKED;
                    lemma_probe_distance(h, ex, cap);
                    let de = distance(h, ex, cap);
                    if de < d {
                        assert(self.slots@[probe(h, de, cap)].0 != EMPTY_PACKED);
                    }
                }
                d = d + 1;
            }
        }
    }

    /// The mapping from each key colour to the target colour at the same position. Fully
    /// transparent key colours are skipped, which lets the key image mask off pixels it does not
    /// want to control; a later key colour with the same RGB as an earlier one wins. Palettes of
    /// different lengths are refused.
    pub fn create(key: &Palette, target: &Palette) -> (res: Result<PaletteMapping, PaletteSizeMismatch>)
        requires
            key@.len() == target@.len() ==> key@.len() <= 0x8000_0000 && table_capacity(
                key@.len() as int,
            ) <= usize::MAX,
        ensures
            match res {
                Ok(m) => key@.len() == target@.len() && m.wf() && m@ == palette_map(
                    key@,
                    target@,
                    key@.len() as int,
                ),
                Err(e) => key@.len() != target@.len() && e == (PaletteSizeMismatch {
                    base: key@.len() as usize,
                    target: target@.len() as usize,
                }),
            },
    {
        if key.len() != target.len() {
            return Err(PaletteSizeMismatch { base: key.len(), target: target.len() });
        }
        let n = key.len();
        let mut cap: usize = 8;
        let mut bits: u32 = 3;
        proof {
            assert((1u64 << 3u64) == 8) by (bit_vector);
        }
        while cap / 2 < n
            invariant
                3 <= bits <= 32,
                cap >= 8,
                cap as int == (1u64 << bits as u64) as int,
                capacity_from(cap as int, n as int) == table_capacity(n as int),
                table_capacity(n as int) <= usize::MAX,
                n <= 0x8000_0000,
            decreases 32 - bits,
        {
            proof {
                lemma_capacity_grows(2 * cap as int, n as int);
                assert(bits < 32) by (bit_vector)
                    requires
                        (1u64 << bits as u64) < 0x1_0000_0000u64,
                        bits <= 32,
                ;
                lemma_double_pow2(cap as u64, bits as u64);
            }
            cap = cap * 2;
            bits = bits + 1;
        }
        let shift: u32 = 32 - bits;
        let mask: usize = cap - 1;
        proof {
            lemma_double_pow2(cap as u64, bits as u64);
            assert(cap >= 8) by (bit_vector)
                requires
                    cap as u64 == (1u64 << bits as u64),
                    3 <= bits <= 32,
            ;
        }
        let mut slots: Vec<(u32, Rgba)> = Vec::new();
        while slots.len() < cap
            invariant
                slots@.len() <= cap,
                forall|j: int| 0 <= j < slots@.len() ==> (#[trigger] slots@[j]).0 == EMPTY_PACKED,
            decreases cap - slots@.len(),
        {
            slots.push((EMPTY_PACKED, Rgba { r: 0, g: 0, b: 0, a: 0 }));
        }
        let ghost mut map: Map<u32, Rgba> = Map::empty();
        let ghost mut filled: Set<int> = Set::empty();
        let mut len: usize = 0;
        let mut i: usize = 0;
        while i < n
            invariant
                n == key@.len(),
                n == target@.len(),
                2 * n <= cap,
                slots@.len() == cap,
                i <= n,
                table_ok(slots@, shift, mask, map),
                map == palette_map(key@, target@, i as int),
                map.dom().finite(),
                filled.finite(),
                filled.len() == map.dom().len(),
                len == map.dom().len(),
                len <= i,
                forall|j: int| 0 <= j < cap ==> (slots@[j].0 != EMPTY_PACKED <==> #[trigger] filled.contains(j)),
            decreases n - i,
        {
            let k = key.colors[i];
            let t = target.colors[i];
            if k.a != 0 {
                let packed = pack(k);
                proof {
                    lemma_packed_not_empty(k);
                    lemma_free_slot_exists(slots@, filled);
                    lemma_slot_bound(packed.wrapping_mul(FIB_HASH_MULTIPLIER), (32 - shift) as u32);
                }
                let mut j: usize = (packed.wrapping_mul(FIB_HASH_MULTIPLIER) >> shift) as usize;
                let mut inserted: bool = false;
                let ghost slots_before = slots@;
                let ghost h = j as int;
                let ghost mut d: int = 0;
                proof {
                    lemma_probe_start(h, cap as int);
                }
                loop
                    invariant_except_break
                        exists|x: int| 0 <= x < cap && slots@[x].0 == EMPTY_PACKED,
                        slots@ == slots_before,
                        forall|e: int|
                            0 <= e < d ==> slots@[probe(h, e, cap as int)].0 != EMPTY_PACKED
                                && slots@[#[trigger] probe(h, e, cap as int)].0 != packed,
                    invariant
                        slots@.len() == cap,
                        table_ok(slots_before, shift, mask, map),
                        slots_before.len() == cap,
                        packed == packed_rgb(k),
                        packed != EMPTY_PACKED,
                        h == home_slot(packed, shift),
                        0 <= h < cap,
                        0 <= d < cap,
                        j == probe(h, d, cap as int),
                    ensures
                        slots@.len() == cap,
                        j < cap,
                        table_ok(slots@, shift, mask, map.insert(packed, t)),
                        forall|x: int|
                            0 <= x < cap ==> (slots@[x].0 != EMPTY_PACKED <==> (#[trigger] slots_before[x].0
                                != EMPTY_PACKED || x == j)),
                        inserted == !map.contains_key(packed),
                        !inserted ==> slots_before[j as int].0 != EMPTY_PACKED,
                        inserted ==> slots_before[j as int].0 == EMPTY_PACKED,
                    decreases cap - d,
                {
                    proof {
                        lemma_probe_step(h, d, cap as int, j as int);
                    }
                    let existing = slots[j].0;
                    if existing == EMPTY_PACKED || existing == packed {
                        proof {
                            if existing == EMPTY_PACKED && map.contains_key(packed) {
                                let w = choose|w: int|
                                    0 <= w < cap && slots@[w].0 == packed && forall|e: int|
                                        0 <= e < distance(h, w, cap as int) ==> slots@[probe(h, e, cap as int)].0
                                            != EMPTY_PACKED;
                                lemma_probe_distance(h, w, cap as int);
                                let dw = distance(h, w, cap as int);
                                if d < dw {
                                    assert(slots@[probe(h, d, cap as int)].0 != EMPTY_PACKED);
                                } else if d > dw {
                                    assert(slots@[probe(h, dw, cap as int)].0 != packed);
                                }
                            }
                            lemma_distance_of_probe(h, d, cap as int);
                        }
                        let ghost before = slots@;
                        slots.set(j, (packed, t));
                        proof {
                            let m2 = map.insert(packed, t);
                            assert forall|x: int|
                                0 <= x < cap && (#[trigger] slots@[x]).0 != EMPTY_PACKED implies m2.contains_key(
                                    slots@[x].0,
                                ) && m2[slots@[x].0] == slots@[x].1 by {
                                if x != j {
                                    assert(before[x] == slots@[x]);
                                }
                            }
                            assert forall|x1: int, x2: int|
                                0 <= x1 < cap && 0 <= x2 < cap && (#[trigger] slots@[x1]).0 != EMPTY_PACKED
                                    && slots@[x1].0 == (#[trigger] slots@[x2]).0 implies x1 == x2 by {
                                if x1 != j && x2 != j {
                                    assert(before[x1] == slots@[x1]);
                                    assert(before[x2] == slots@[x2]);
                                } else if x1 == j && x2 != j {
                                    assert(before[x2] == slots@[x2]);
                                    if existing == packed {
                                        assert(before[j as int].0 == before[x2].0);
                                    }
                                } else if x1 != j && x2 == j {
                                    assert(before[x1] == slots@[x1]);
                                    if existing == packed {
                                        assert(before[j as int].0 == before[x1].0);
                                    }
                                }
                            }
                            assert forall|kk: u32| #[trigger] m2.contains_key(kk) implies exists|w: int|
                                0 <= w < cap && slots@[w].0 == kk && forall|e: int|
                                    0 <= e < distance(home_slot(kk, shift), w, cap as int) ==> slots@[probe(
                                        home_slot(kk, shift),
                                        e,
                                        cap as int,
                                    )].0 != EMPTY_PACKED by {
                                if kk == packed {
                                    assert(slots@[j as int].0 == kk);
                                    assert forall|e: int|
                                        0 <= e < distance(home_slot(kk, shift), j as int, cap as int) implies slots@[probe(
                                            home_slot(kk, shift),
                                            e,
                                            cap as int,
                                        )].0 != EMPTY_PACKED by {
                                        assert(before[probe(h, e, cap as int)].0 != EMPTY_PACKED);
                                        lemma_probe_step(h, e, cap as int, probe(h, e, cap as int));
                                    }
                                } else {
                                    let w = choose|w: int|
                                        0 <= w < cap && before[w].0 == kk && forall|e: int|
                                            0 <= e < distance(home_slot(kk, shift), w, cap as int) ==> before[probe(
                                                home_slot(kk, shift),
                                                e,
                                                cap as int,
                                            )].0 != EMPTY_PACKED;
                                    assert(w != j);
                                    assert(slots@[w] == before[w]);
                                    assert forall|e: int|
                                        0 <= e < distance(home_slot(kk, shift), w, cap as int) implies slots@[probe(
                                            home_slot(kk, shift),
                                            e,
                                            cap as int,
                                        )].0 != EMPTY_PACKED by {
                                        let x = probe(home_slot(kk, shift), e, cap as int);
                                        assert(before[x].0 != EMPTY_PACKED);
                                        if x != j {
                                            assert(slots@[x] == before[x]);
                                        }
                                    }
                                }
                            }
                        }
                        inserted = existing == EMPTY_PACKED;
                        break;
                    }
                    proof {
                        lemma_next_slot(j, cap, mask);
                    }
                    j = (j + 1) & mask;
                    proof {
                        lemma_free_slot_reached(slots@, h, d + 1, cap as int);
                        d = d + 1;
                    }
                }
                proof {
                    if inserted {
                        filled = filled.insert(j as int);
                    }
                    map = map.insert(packed, t);
                }
                if inserted {
                    len = len + 1;
                }
            }
            i = i + 1;
        }
        proof {
            lemma_free_slot_exists(slots@, filled);
            assert(palette_map(key@, target@, key@.len() as int) == map);
        }
        Ok(PaletteMapping { slots, mask, shift, len, map: Ghost(map) })
    }

    /// The image with every pixel passed through [`PaletteMapping::apply`].
    pub fn remap(&self, source: &RgbaImage) -> (out: RgbaImage)
        requires
            self.wf(),
            source.wf(),
        ensures
            out.wf(),
            out@.width == source@.width,
            out@.height == source@.height,
            forall|x: int, y: int|
                source@.contains(x, y) ==> #[trigger] out@.pixel(x, y) == remapped(self@, source@.pixel(x, y)),
    {
        let (w, h) = source.dimensions();
        let f = |x: u32, y: u32| -> (p: Rgba)
            requires
                self.wf(),
                source.wf(),
                x < w,
                y < h,
                w == source@.width,
                h == source@.height,
            ensures
                p == remapped(self@, source@.pixel(x as int, y as int)),
            { self.apply(source.get_pixel(x, y)) };
        let out = RgbaImage::from_fn(w, h, f);
        proof {
            assert forall|x: int, y: int| source@.contains(x, y) implies #[trigger] out@.pixel(x, y)
                == remapped(self@, source@.pixel(x, y)) by {
                assert(call_ensures(f, (x as u32, y as u32), out@.pixel(x as u32 as int, y as u32 as int)));
            }
        }
        out
    }

    /// Whether no colour is mapped.
    pub fn is_empty(&self) -> (b: bool)
        requires
            self.wf(),
        ensures
            b == (self@.dom().len() == 0),
    {
        self.len == 0
    }
}


/// An RGB is mapped by the first `n` entries exactly when one of them that is not fully
/// transparent has that RGB.
pub proof fn lemma_palette_map_keys(key: Seq<Rgba>, target: Seq<Rgba>, n: int, rgb: u32)
    requires
        0 <= n <= key.len(),
    ensures
        palette_map(key, target, n).contains_key(rgb) <==> exists|i: int|
            0 <= i < n && key[i].a != 0 && #[trigger] packed_rgb(key[i]) == rgb,
    decreases n,
{
    if n > 0 {
        lemma_palette_map_keys(key, target, n - 1, rgb);
        if exists|i: int| 0 <= i < n && key[i].a != 0 && #[trigger] packed_rgb(key[i]) == rgb {
            let i = choose|i: int| 0 <= i < n && key[i].a != 0 && #[trigger] packed_rgb(key[i]) == rgb;
            if i < n - 1 {
                assert(palette_map(key, target, n - 1).contains_key(rgb));
            }
        }
        if palette_map(key, target, n).contains_key(rgb) && !palette_map(key, target, n - 1).contains_key(rgb) {
            assert(key[n - 1].a != 0 && packed_rgb(key[n - 1]) == rgb);
        }
    }
}

/// The mapping of finitely many entries has a finite domain.
proof fn lemma_palette_map_finite(key: Seq<Rgba>, target: Seq<Rgba>, n: int)
    ensures
        palette_map(key, target, n).dom().finite(),
    decreases n,
{
    if n > 0 {
        lemma_palette_map_finite(key, target, n - 1);
    }
}

/// A colour that is not in the table passes through a mapping made from a key and a target
/// palette unchanged: every key entry with its RGB is fully transparent (there may be none),
/// so a fully transparent key entry adds no mapping.
pub proof fn lemma_unmapped_passes(key: Palette, target: Palette, m: PaletteMapping, source: Rgba)
    requires
        key@.len() == target@.len(),
        m@ == palette_map(key@, target@, key@.len() as int),
        forall|i: int| 0 <= i < key@.len() && #[trigger] packed_rgb(key@[i]) == packed_rgb(source) ==> key@[i].a == 0,
    ensures
        remapped(m@, source) == source,
{
    lemma_palette_map_keys(key@, target@, key@.len() as int, packed_rgb(source));
}

/// The alpha of a key entry matters only in whether it is zero: two keys with the same RGBs
/// and the same fully transparent entries define the same mapping.
pub proof fn lemma_key_alpha_ignored(key: Seq<Rgba>, other: Seq<Rgba>, target: Seq<Rgba>, n: int)
    requires
        0 <= n <= key.len(),
        key.len() == other.len(),
        forall|i: int| 0 <= i < key.len() ==> packed_rgb(#[trigger] key[i]) == packed_rgb(other[i]) && (key[i].a == 0)
            == (other[i].a == 0),
    ensures
        palette_map(key, target, n) == palette_map(other, target, n),
    decreases n,
{
    if n > 0 {
        lemma_key_alpha_ignored(key, other, target, n - 1);
        assert(packed_rgb(key[n - 1]) == packed_rgb(other[n - 1]));
    }
}

/// A mapping made from a key and a target palette is empty exactly when every key entry is
/// fully transparent (an empty key included), and an empty mapping leaves every colour as
/// it is.
pub proof fn lemma_empty_mapping(key: Palette, target: Palette, m: PaletteMapping)
    requires
        key@.len() == target@.len(),
        m@ == palette_map(key@, target@, key@.len() as int),
    ensures
        m@.dom().len() == 0 <==> forall|i: int| 0 <= i < key@.len() ==> (#[trigger] key@[i]).a == 0,
        m@.dom().len() == 0 ==> forall|c: Rgba| #[trigger] remapped(m@, c) == c,
{
    let n = key@.len() as int;
    lemma_palette_map_finite(key@, target@, n);
    if m@.dom().len() == 0 {
        assert forall|i: int| 0 <= i < key@.len() implies (#[trigger] key@[i]).a == 0 by {
            lemma_palette_map_keys(key@, target@, n, packed_rgb(key@[i]));
            if key@[i].a != 0 {
                assert(m@.dom().contains(packed_rgb(key@[i])));
            }
        }
        assert forall|c: Rgba| #[trigger] remapped(m@, c) == c by {
            if m@.contains_key(packed_rgb(c)) {
                assert(m@.dom().contains(packed_rgb(c)));
            }
        }
    }
    if forall|i: int| 0 <= i < key@.len() ==> (#[trigger] key@[i]).a == 0 {
        assert forall|k: u32| !m@.dom().contains(k) by {
            lemma_palette_map_keys(key@, target@, n, k);
        }
        assert(m@.dom() =~= Set::<u32>::empty());
    }
}

} // verus!
