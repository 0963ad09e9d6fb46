//! Interning pools: each distinct value is stored once and referred to by its index.

use vstd::prelude::*;
use crate::capture_gen::model::{Direction, FloatingBits, Layering, QuadKind, RenderShape};
use crate::text::{chars_of, decimal, find_char, lemma_find_from, lex_le, lemma_lex_antisym, lemma_lex_total, lemma_lex_trans, push_char, push_decimal, push_digits, push_str, split_once, starts_with, str_le, string_of_range};

verus! {

/// Values that can be told apart by their contents.
pub trait PoolKey: Sized {
    /// What a value holds.
    type Key;

    /// What the value holds.
    spec fn key(&self) -> Self::Key;

    /// Whether two values hold the same.
    fn same(&self, other: &Self) -> (b: bool)
        ensures
            b == (self.key() == other.key());
}

impl PoolKey for usize {
    type Key = usize;

    open spec fn key(&self) -> usize {
        *self
    }

    fn same(&self, other: &Self) -> (b: bool) {
        *self == *other
    }
}

impl PoolKey for String {
    type Key = Seq<char>;

    open spec fn key(&self) -> Seq<char> {
        self@
    }

    fn same(&self, other: &Self) -> (b: bool) {
        *self == *other
    }
}

impl<T: PoolKey> PoolKey for Vec<T> {
    type Key = Seq<T::Key>;

    open spec fn key(&self) -> Seq<T::Key> {
        self@.map_values(|x: T| x.key())
    }

    fn same(&self, other: &Self) -> (b: bool) {
        if self.len() != other.len() {
            assert(self.key().len() != other.key().len());
            return false;
        }
        let mut i: usize = 0;
        while i < self.len()
            invariant
                i <= self@.len(),
                self@.len() == other@.len(),
                forall|j: int| 0 <= j < i ==> self@[j].key() == other@[j].key(),
            decreases self.len() - i,
        {
            if !self[i].same(&other[i]) {
                assert(self.key()[i as int] != other.key()[i as int]);
                return false;
            }
            i = i + 1;
        }
        assert(self.key() =~= other.key());
        true
    }
}

/// Whether two runs of bits are the same.
fn bits_same(a: &[FloatingBits], b: &[FloatingBits]) -> (r: bool)
    ensures
        r == (a@ == b@),
{
    if a.len() != b.len() {
        return false;
    }
    let mut i: usize = 0;
    while i < a.len()
        invariant
            i <= a@.len(),
            a@.len() == b@.len(),
            forall|j: int| 0 <= j < i ==> a@[j] == b@[j],
        decreases a.len() - i,
    {
        if a[i].0 != b[i].0 {
            assert(a@[i as int] != b@[i as int]);
            return false;
        }
        i = i + 1;
    }
    assert(a@ =~= b@);
    true
}

/// Whether two runs of pairs of bits are the same.
fn pairs_same(a: &[[FloatingBits; 2]], b: &[[FloatingBits; 2]]) -> (r: bool)
    ensures
        r == (a@.map_values(|x: [FloatingBits; 2]| x@) == b@.map_values(|x: [FloatingBits; 2]| x@)),
{
    if a.len() != b.len() {
        assert(a@.map_values(|x: [FloatingBits; 2]| x@).len() != b@.map_values(|x: [FloatingBits; 2]| x@).len());
        return false;
    }
    let mut i: usize = 0;
    while i < a.len()
        invariant
            i <= a@.len(),
            a@.len() == b@.len(),
            forall|j: int| 0 <= j < i ==> a@[j]@ == b@[j]@,
        decreases a.len() - i,
    {
        if !bits_same(a[i].as_slice(), b[i].as_slice()) {
            assert(a@.map_values(|x: [FloatingBits; 2]| x@)[i as int] != b@.map_values(|x: [FloatingBits; 2]| x@)[i as int]);
            return false;
        }
        i = i + 1;
    }
    assert(a@.map_values(|x: [FloatingBits; 2]| x@) =~= b@.map_values(|x: [FloatingBits; 2]| x@));
    true
}

/// Whether two runs of triples of bits are the same.
fn triples_same(a: &[[FloatingBits; 3]], b: &[[FloatingBits; 3]]) -> (r: bool)
    ensures
        r == (a@.map_values(|x: [FloatingBits; 3]| x@) == b@.map_values(|x: [FloatingBits; 3]| x@)),
{
    if a.len() != b.len() {
        assert(a@.map_values(|x: [FloatingBits; 3]| x@).len() != b@.map_values(|x: [FloatingBits; 3]| x@).len());
        return false;
    }
    let mut i: usize = 0;
    while i < a.len()
        invariant
            i <= a@.len(),
            a@.len() == b@.len(),
            forall|j: int| 0 <= j < i ==> a@[j]@ == b@[j]@,
        decreases a.len() - i,
    {
        if !bits_same(a[i].as_slice(), b[i].as_slice()) {
            assert(a@.map_values(|x: [FloatingBits; 3]| x@)[i as int] != b@.map_values(|x: [FloatingBits; 3]| x@)[i as int]);
            return false;
        }
        i = i + 1;
    }
    assert(a@.map_values(|x: [FloatingBits; 3]| x@) =~= b@.map_values(|x: [FloatingBits; 3]| x@));
    true
}

/// The values of a pose, row by row.
impl PoolKey for [FloatingBits; 12] {
    type Key = Seq<FloatingBits>;

    open spec fn key(&self) -> Seq<FloatingBits> {
        self@
    }

    fn same(&self, other: &Self) -> (b: bool) {
        bits_same(self.as_slice(), other.as_slice())
    }
}

/// The UVs of a triple of corners, each as a sequence.
pub open spec fn uv_rows(uvs: Seq<[FloatingBits; 2]>) -> Seq<Seq<FloatingBits>> {
    uvs.map_values(|x: [FloatingBits; 2]| x@)
}

/// The positions of a triple of corners, each as a sequence.
pub open spec fn position_rows(ps: Seq<[FloatingBits; 3]>) -> Seq<Seq<FloatingBits>> {
    ps.map_values(|x: [FloatingBits; 3]| x@)
}

/// A cube face: its direction and the UVs of three of its corners.
#[derive(Copy, Clone, Debug)]
pub struct Face {
    pub direction: Direction,
    pub uvs: [[FloatingBits; 2]; 3],
}

impl PoolKey for Face {
    type Key = (Direction, Seq<Seq<FloatingBits>>);

    open spec fn key(&self) -> (Direction, Seq<Seq<FloatingBits>>) {
        (self.direction, uv_rows(self.uvs@))
    }

    fn same(&self, other: &Self) -> (b: bool) {
        self.direction == other.direction && pairs_same(self.uvs.as_slice(), other.uvs.as_slice())
    }
}

/// A cube: its corners and the index of its face list.
#[derive(Copy, Clone, Debug)]
pub struct Cube {
    pub from: [FloatingBits; 3],
    pub to: [FloatingBits; 3],
    /// Into the pool of face lists.
    pub faces: usize,
}

impl PoolKey for Cube {
    type Key = (Seq<FloatingBits>, Seq<FloatingBits>, usize);

    open spec fn key(&self) -> (Seq<FloatingBits>, Seq<FloatingBits>, usize) {
        (self.from@, self.to@, self.faces)
    }

    fn same(&self, other: &Self) -> (b: bool) {
        bits_same(self.from.as_slice(), other.from.as_slice()) && bits_same(self.to.as_slice(), other.to.as_slice())
            && self.faces == other.faces
    }
}

/// A model part: the indices of its pose and of its cube list.
#[derive(Copy, Clone, Debug, PartialEq, Eq, Hash, Structural)]
pub struct Part {
    /// Into the pool of poses.
    pub pose: usize,
    /// Into the pool of cube lists.
    pub cubes: usize,
}

impl PoolKey for Part {
    type Key = Part;

    open spec fn key(&self) -> Part {
        *self
    }

    fn same(&self, other: &Self) -> (b: bool) {
        *self == *other
    }
}

/// A quad of a block model: its material, its shape and three of its corners.
#[derive(Copy, Clone, Debug)]
pub struct Quad {
    pub material: u8,
    pub kind: QuadKind,
    pub positions: [[FloatingBits; 3]; 3],
    pub uvs: [[FloatingBits; 2]; 3],
}

impl PoolKey for Quad {
    type Key = (u8, QuadKind, Seq<Seq<FloatingBits>>, Seq<Seq<FloatingBits>>);

    open spec fn key(&self) -> (u8, QuadKind, Seq<Seq<FloatingBits>>, Seq<Seq<FloatingBits>>) {
        (self.material, self.kind, position_rows(self.positions@), uv_rows(self.uvs@))
    }

    fn same(&self, other: &Self) -> (b: bool) {
        self.material == other.material && self.kind == other.kind && triples_same(
            self.positions.as_slice(),
            other.positions.as_slice(),
        ) && pairs_same(self.uvs.as_slice(), other.uvs.as_slice())
    }
}

/// A list of distinct values, each referred to by its position.
pub struct Pool<T> {
    items: Vec<T>,
}

impl<T: PoolKey> Pool<T> {
    /// The stored values, by content, in the order they came.
    pub closed spec fn keys(&self) -> Seq<T::Key> {
        self.items@.map_values(|t: T| t.key())
    }

    /// No value is stored twice.
    pub closed spec fn wf(&self) -> bool {
        forall|i: int, j: int| 0 <= i < j < self.items@.len() ==> self.items@[i].key() != self.items@[j].key()
    }

    /// An empty pool.
    pub fn new() -> (p: Pool<T>)
        ensures
            p.wf(),
            p.keys().len() == 0,
    {
        Pool { items: Vec::new() }
    }

    /// The index of a value: where an equal value is stored, else a new index at the end where
    /// it is stored now.
    pub fn pool(&mut self, item: T) -> (idx: usize)
        requires
            old(self).wf(),
        ensures
            final(self).wf(),
            old(self).keys().contains(item.key()) ==> final(self).keys() == old(self).keys() && idx < old(self).keys().len()
                && old(self).keys()[idx as int] == item.key(),
            !old(self).keys().contains(item.key()) ==> final(self).keys() == old(self).keys().push(item.key()) && idx
                == old(self).keys().len(),
    {
        let mut i: usize = 0;
        while i < self.items.len()
            invariant
                i <= self.items@.len(),
                self.wf(),
                *self == *old(self),
                forall|j: int| 0 <= j < i ==> self.items@[j].key() != item.key(),
            decreases self.items.len() - i,
        {
            if self.items[i].same(&item) {
                proof {
                    assert(self.keys()[i as int] == item.key());
                }
                return i;
            }
            i = i + 1;
        }
        proof {
            assert forall|j: int| 0 <= j < self.keys().len() implies self.keys()[j] != item.key() by {
                assert(self.keys()[j] == self.items@[j].key());
            }
        }
        let idx = self.items.len();
        let ghost before = self.keys();
        self.items.push(item);
        proof {
            assert(self.keys() =~= before.push(self.items@[idx as int].key()));
        }
        idx
    }

    /// The stored values, in the order they came.
    pub fn items(&self) -> (s: &[T])
        ensures
            s@.map_values(|t: T| t.key()) == self.keys(),
    {
        self.items.as_slice()
    }
}

/// The message for a material index that is not below the number of materials.
pub open spec fn material_range_message(raw: u32, count: usize) -> Seq<char> {
    "material index "@ + decimal(raw as int) + " is out of range (0.."@ + decimal(count as int) + ")"@
}

/// A state's material index, which must fit a byte and lie below the number of materials.
pub fn local_material(count: usize, raw: u32) -> (r: Result<u8, String>)
    ensures
        match r {
            Ok(i) => raw < 256 && raw < count && i == raw,
            Err(m) => !(raw < 256 && raw < count) && m@ == material_range_message(raw, count),
        },
{
    if raw < 256 && (raw as usize) < count {
        Ok(raw as u8)
    } else {
        let mut message = "material index ".to_owned();
        push_digits(&mut message, raw as u64);
        push_str(&mut message, " is out of range (0..");
        push_digits(&mut message, count as u64);
        push_str(&mut message, ")");
        Err(message)
    }
}

/// Whether `p` begins with `prefix`.
pub open spec fn begins_with(p: Seq<char>, prefix: Seq<char>) -> bool {
    prefix.len() <= p.len() && p.take(prefix.len() as int) == prefix
}

/// Whether `p` ends with `suffix`.
pub open spec fn ends_with(p: Seq<char>, suffix: Seq<char>) -> bool {
    suffix.len() <= p.len() && p.skip(p.len() - suffix.len()) == suffix
}

/// A material's sprite id: the sprite as written, or `namespace:name` for a file path
/// `[namespace:]textures/<name>.png` (namespace `minecraft` when not written); writing both or
/// neither is an error.
pub open spec fn material_texture(sprite: Option<Seq<char>>, path: Option<Seq<char>>) -> Result<Seq<char>, Seq<char>> {
    match (sprite, path) {
        (Some(s), None) => Ok(s),
        (None, Some(p)) => {
            let (ns, file) = match split_once(p, ':') {
                Some(pair) => pair,
                None => ("minecraft"@, p),
            };
            if begins_with(file, "textures/"@) && ends_with(file.skip("textures/"@.len() as int), ".png"@) {
                let rest = file.skip("textures/"@.len() as int);
                Ok(ns + ":"@ + rest.take(rest.len() - ".png"@.len()))
            } else {
                Err("invalid texture path: "@ + p + " (not in textures/**.png format)"@)
            }
        },
        _ => Err("a texture needs either a sprite or a path, but not both"@),
    }
}

/// A material's sprite id (see [`material_texture`]).
pub fn texture_of(sprite: &Option<String>, path: &Option<String>) -> (r: Result<String, String>)
    ensures
        match r {
            Ok(t) => material_texture(match sprite { Some(s) => Some(s@), None => None }, match path { Some(p) => Some(p@), None => None }) == Ok::<Seq<char>, Seq<char>>(t@),
            Err(m) => material_texture(match sprite { Some(s) => Some(s@), None => None }, match path { Some(p) => Some(p@), None => None }) == Err::<Seq<char>, Seq<char>>(m@),
        },
{
    match (sprite, path) {
        (Some(s), None) => Ok(s.clone()),
        (None, Some(p)) => {
            let pc = chars_of(p.as_str());
            proof {
                lemma_find_from(pc@, ':', 0);
            }
            let (ns, file): (String, Vec<char>) = match find_char(pc.as_slice(), ':', 0) {
                Some(i) => {
                    let ns = string_of_range(pc.as_slice(), 0, i);
                    let pl = pc.len();
                    let f = string_of_range(pc.as_slice(), i + 1, pl);
                    proof {
                        assert(ns@ =~= p@.take(i as int));
                        assert(f@ =~= p@.skip(i as int + 1));
                    }
                    (ns, chars_of(f.as_str()))
                },
                None => ("minecraft".to_owned(), pc),
            };
            let prefix = chars_of("textures/");
            let ok_prefix = starts_with(file.as_slice(), prefix.as_slice());
            let fl = file.len();
            let ok = ok_prefix && fl - prefix.len() >= 4 && file[fl - 4] == '.' && file[fl - 3] == 'p' && file[fl - 2] == 'n'
                && file[fl - 1] == 'g';
            proof {
                reveal_strlit(".png");
                if ok_prefix {
                    let rest = file@.skip("textures/"@.len() as int);
                    if rest.len() >= 4 {
                        assert(rest.skip(rest.len() - 4) =~= seq![file@[fl - 4], file@[fl - 3], file@[fl - 2], file@[fl - 1]]);
                    }
                }
            }
            if !ok {
                let mut m = "invalid texture path: ".to_owned();
                push_str(&mut m, p.as_str());
                push_str(&mut m, " (not in textures/**.png format)");
                return Err(m);
            }
            proof {
                let rest = file@.skip("textures/"@.len() as int);
                assert(rest.skip(rest.len() - 4) =~= ".png"@);
                assert(begins_with(file@, "textures/"@));
                assert(ends_with(rest, ".png"@));
            }
            let name = string_of_range(file.as_slice(), prefix.len(), fl - 4);
            let mut out = ns;
            push_str(&mut out, ":");
            push_str(&mut out, name.as_str());
            proof {
                let rest = file@.skip("textures/"@.len() as int);
                assert(name@ =~= rest.take(rest.len() - 4));
            }
            Ok(out)
        },
        _ => Err("a texture needs either a sprite or a path, but not both".to_owned()),
    }
}

/// The value of a hexadecimal digit.
pub open spec fn hex_digit(c: char) -> Option<nat> {
    if '0' <= c && c <= '9' {
        Some((c as nat - '0' as nat) as nat)
    } else if 'a' <= c && c <= 'f' {
        Some((c as nat - 'a' as nat + 10) as nat)
    } else if 'A' <= c && c <= 'F' {
        Some((c as nat - 'A' as nat + 10) as nat)
    } else {
        None
    }
}

/// The value of a string of hexadecimal digits, if every character is one.
pub open spec fn hex_value(d: Seq<char>) -> Option<nat>
    decreases d.len(),
{
    if d.len() == 0 {
        Some(0)
    } else {
        match (hex_value(d.drop_last()), hex_digit(d.last())) {
            (Some(v), Some(x)) => Some(v * 16 + x),
            _ => None,
        }
    }
}

/// What `u32::from_str_radix(s, 16)` gives: an optional leading `+`, then at least one
/// hexadecimal digit, with a value that fits a `u32`.
pub open spec fn parse_hex_u32(s: Seq<char>) -> Option<u32> {
    let d = if s.len() > 0 && s[0] == '+' { s.drop_first() } else { s };
    if d.len() == 0 {
        None
    } else {
        match hex_value(d) {
            Some(v) => if v <= u32::MAX { Some(v as u32) } else { None },
            None => None,
        }
    }
}

fn hex_digit_of(c: char) -> (r: Option<u32>)
    ensures
        match r {
            Some(x) => hex_digit(c) == Some(x as nat),
            None => hex_digit(c) is None,
        },
{
    if '0' <= c && c <= '9' {
        Some((c as u32) - ('0' as u32))
    } else if 'a' <= c && c <= 'f' {
        Some((c as u32) - ('a' as u32) + 10)
    } else if 'A' <= c && c <= 'F' {
        Some((c as u32) - ('A' as u32) + 10)
    } else {
        None
    }
}

/// A hexadecimal number (see [`parse_hex_u32`]).
pub fn from_hex(s: &[char]) -> (r: Option<u32>)
    ensures
        r == parse_hex_u32(s@),
{
    let start: usize = if s.len() > 0 && s[0] == '+' { 1 } else { 0 };
    let ghost d = if s@.len() > 0 && s@[0] == '+' { s@.drop_first() } else { s@ };
    proof {
        assert(d =~= s@.skip(start as int));
    }
    if start == s.len() {
        return None;
    }
    let mut value: u64 = 0;
    let mut i = start;
    proof {
        assert(d.take(0) =~= Seq::<char>::empty());
    }
    while i < s.len()
        invariant
            start <= i <= s@.len(),
            start < s@.len(),
            d == (if s@.len() > 0 && s@[0] == '+' { s@.drop_first() } else { s@ }),
            d =~= s@.skip(start as int),
            hex_value(d.take(i - start)) == Some(value as nat),
            value <= u32::MAX,
        decreases s.len() - i,
    {
        proof {
            assert(d.take(i - start + 1).drop_last() =~= d.take(i - start));
            assert(d.take(i - start + 1).last() == s@[i as int]);
        }
        match hex_digit_of(s[i]) {
            None => {
                proof {
                    assert(hex_value(d.take(i - start + 1)) is None);
                    lemma_hex_none_extends(d, i - start + 1);
                    assert(hex_value(d) is None);
                }
                return None;
            },
            Some(x) => {
                let next = value * 16 + (x as u64);
                if next > 0xffff_ffff {
                    proof {
                        assert(hex_value(d.take(i - start + 1)) == Some(next as nat));
                        lemma_hex_grows(d, i - start + 1);
                    }
                    return None;
                }
                value = next;
            },
        }
        i = i + 1;
    }
    proof {
        assert(d.take(i - start) =~= d);
    }
    Some(value as u32)
}

/// Once a prefix of the digits is not a number, neither is the whole.
proof fn lemma_hex_none_extends(d: Seq<char>, k: int)
    requires
        0 <= k <= d.len(),
        hex_value(d.take(k)) is None,
    ensures
        hex_value(d) is None,
    decreases d.len() - k,
{
    if k < d.len() {
        assert(d.take(k + 1).drop_last() =~= d.take(k));
        lemma_hex_none_extends(d, k + 1);
    } else {
        assert(d.take(k) =~= d);
    }
}

/// Once a prefix of the digits is past `u32::MAX`, so is the whole, if it is a number.
proof fn lemma_hex_grows(d: Seq<char>, k: int)
    requires
        0 <= k <= d.len(),
        hex_value(d.take(k)) matches Some(v) && v > u32::MAX,
    ensures
        match hex_value(d) {
            Some(v) => v > u32::MAX,
            None => true,
        },
    decreases d.len() - k,
{
    if k < d.len() {
        assert(d.take(k + 1).drop_last() =~= d.take(k));
        assert(d.take(k + 1).last() == d[k]);
        if hex_digit(d[k]) is None {
            lemma_hex_none_extends(d, k + 1);
        } else {
            lemma_hex_grows(d, k + 1);
        }
    } else {
        assert(d.take(k) =~= d);
    }
}

/// A tint color written `#rrggbb` (see [`parse_hex_u32`]); anything else is an error.
pub fn tint_color_of(hex: &String) -> (r: Result<u32, String>)
    ensures
        match r {
            Ok(c) => hex@.len() > 0 && hex@[0] == '#' && parse_hex_u32(hex@.drop_first()) == Some(c),
            Err(m) => !(hex@.len() > 0 && hex@[0] == '#' && parse_hex_u32(hex@.drop_first()) is Some)
                && m@ == "invalid tint color: "@ + hex@,
        },
{
    let c = chars_of(hex.as_str());
    if c.len() > 0 && c[0] == '#' {
        let rest = string_of_range(c.as_slice(), 1, c.len());
        let rc = chars_of(rest.as_str());
        proof {
            assert(rc@ =~= hex@.drop_first());
        }
        if let Some(v) = from_hex(rc.as_slice()) {
            return Ok(v);
        }
    }
    let mut m = "invalid tint color: ".to_owned();
    push_str(&mut m, hex.as_str());
    Err(m)
}

/// A tint index, which must fit a byte.
pub fn tint_index_of(idx: i32) -> (r: Result<u8, String>)
    ensures
        match r {
            Ok(b) => 0 <= idx < 256 && b == idx,
            Err(m) => !(0 <= idx < 256) && m@ == "tint index "@ + decimal(idx as int) + " is out of range"@,
        },
{
    if 0 <= idx && idx < 256 {
        Ok(idx as u8)
    } else {
        let mut m = "tint index ".to_owned();
        push_decimal(&mut m, idx as i64);
        push_str(&mut m, " is out of range");
        Err(m)
    }
}

/// A block's entry in the generated table: its id and the indices of its pooled lists.
pub struct Block {
    pub namespace: String,
    pub path: String,
    pub properties: usize,
    pub states: usize,
    pub materials: usize,
}

/// A block entry by value.
pub open spec fn block_view(b: Block) -> (Seq<char>, Seq<char>, usize, usize, usize) {
    (b.namespace@, b.path@, b.properties, b.states, b.materials)
}

/// A block entry's id: namespace, then path.
pub open spec fn block_key(b: Block) -> (Seq<char>, Seq<char>) {
    (b.namespace@, b.path@)
}

/// Order on ids: by namespace, then by path.
pub open spec fn key_le(a: (Seq<char>, Seq<char>), b: (Seq<char>, Seq<char>)) -> bool {
    if a.0 == b.0 { lex_le(a.1, b.1) } else { lex_le(a.0, b.0) }
}

/// The id order is total.
pub proof fn lemma_key_total(a: (Seq<char>, Seq<char>), b: (Seq<char>, Seq<char>))
    ensures
        key_le(a, b) || key_le(b, a),
{
    lemma_lex_total(a.0, b.0);
    lemma_lex_total(a.1, b.1);
}

/// The id order is transitive.
pub proof fn lemma_key_trans(a: (Seq<char>, Seq<char>), b: (Seq<char>, Seq<char>), c: (Seq<char>, Seq<char>))
    requires
        key_le(a, b),
        key_le(b, c),
    ensures
        key_le(a, c),
{
    if a.0 == b.0 && b.0 == c.0 {
        lemma_lex_trans(a.1, b.1, c.1);
    } else if a.0 == b.0 {
        assert(key_le(a, c));
    } else if b.0 == c.0 {
        assert(key_le(a, c));
    } else {
        lemma_lex_trans(a.0, b.0, c.0);
        if a.0 == c.0 {
            lemma_lex_antisym(a.0, b.0);
        }
    }
}

/// The id order is antisymmetric.
pub proof fn lemma_key_antisym(a: (Seq<char>, Seq<char>), b: (Seq<char>, Seq<char>))
    requires
        key_le(a, b),
        key_le(b, a),
    ensures
        a == b,
{
    if a.0 == b.0 {
        lemma_lex_antisym(a.1, b.1);
    } else {
        lemma_lex_antisym(a.0, b.0);
    }
}

/// The ids of the entries, in order.
pub open spec fn block_keys(bs: Seq<Block>) -> Seq<(Seq<char>, Seq<char>)> {
    bs.map_values(|b: Block| block_key(b))
}

/// Whether the entries are in id order.
pub open spec fn blocks_sorted(bs: Seq<Block>) -> bool {
    forall|i: int, j: int| 0 <= i < j < bs.len() ==> key_le(#[trigger] block_key(bs[i]), #[trigger] block_key(bs[j]))
}

fn block_le(a: &Block, b: &Block) -> (r: bool)
    ensures
        r == key_le(block_key(*a), block_key(*b)),
{
    if a.namespace == b.namespace {
        str_le(a.path.as_str(), b.path.as_str())
    } else {
        str_le(a.namespace.as_str(), b.namespace.as_str())
    }
}

fn sort_blocks(v: Vec<Block>) -> (out: Vec<Block>)
    ensures
        blocks_sorted(out@),
        out@.map_values(|b: Block| block_view(b)).to_multiset() == v@.map_values(|b: Block| block_view(b)).to_multiset(),
{
    let mut out: Vec<Block> = Vec::new();
    let mut rest = v;
    let ghost orig = rest@.map_values(|b: Block| block_view(b));
    proof {
        broadcast use vstd::multiset::group_multiset_axioms;

        assert(out@.map_values(|b: Block| block_view(b)) =~= Seq::empty());
        vstd::seq_lib::to_multiset_len(out@.map_values(|b: Block| block_view(b)));
        vstd::multiset::lemma_multiset_empty_len(out@.map_values(|b: Block| block_view(b)).to_multiset());
        assert(out@.map_values(|b: Block| block_view(b)).to_multiset().add(orig.to_multiset()) =~= orig.to_multiset());
    }
    while rest.len() > 0
        invariant
            blocks_sorted(out@),
            out@.map_values(|b: Block| block_view(b)).to_multiset().add(rest@.map_values(|b: Block| block_view(b)).to_multiset())
                == orig.to_multiset(),
        decreases rest.len(),
    {
        let ghost rv = rest@.map_values(|b: Block| block_view(b));
        let x = rest.pop().unwrap();
        let mut pos: usize = 0;
        while pos < out.len() && block_le(&out[pos], &x)
            invariant
                pos <= out@.len(),
                forall|j: int| 0 <= j < pos ==> key_le(#[trigger] block_key(out@[j]), block_key(x)),
            decreases out.len() - pos,
        {
            pos = pos + 1;
        }
        let ghost before = out@;
        let ghost bv = out@.map_values(|b: Block| block_view(b));
        proof {
            if pos < out@.len() {
                lemma_key_total(block_key(out@[pos as int]), block_key(x));
            }
        }
        let ghost xv = block_view(x);
        let ghost xk = block_key(x);
        out.insert(pos, x);
        proof {
            assert(out@ =~= before.insert(pos as int, out@[pos as int]));
            assert(out@.map_values(|b: Block| block_view(b)) =~= bv.insert(pos as int, xv));
            vstd::seq_lib::to_multiset_insert(bv, pos as int, xv);
            assert forall|i: int, j: int| 0 <= i < j < out@.len() implies key_le(#[trigger] block_key(out@[i]), #[trigger] block_key(out@[j])) by {
                if j > pos {
                    assert(block_key(out@[j]) == block_key(before[j - 1]));
                    if j - 1 > pos {
                        lemma_key_trans(xk, block_key(before[pos as int]), block_key(before[j - 1]));
                    }
                    assert(key_le(xk, block_key(out@[j])));
                    if i < pos {
                        assert(block_key(out@[i]) == block_key(before[i]));
                        lemma_key_trans(block_key(out@[i]), xk, block_key(out@[j]));
                    } else if i > pos {
                        assert(block_key(out@[i]) == block_key(before[i - 1]));
                    }
                } else if j == pos {
                    assert(block_key(out@[i]) == block_key(before[i]));
                } else {
                    assert(block_key(out@[i]) == block_key(before[i]));
                    assert(block_key(out@[j]) == block_key(before[j]));
                }
            }
            assert(rest@.map_values(|b: Block| block_view(b)).push(xv) =~= rv);
            vstd::seq_lib::to_multiset_build(rest@.map_values(|b: Block| block_view(b)), xv);
            assert(out@.map_values(|b: Block| block_view(b)).to_multiset().add(rest@.map_values(|b: Block| block_view(b)).to_multiset())
                =~= bv.to_multiset().add(rv.to_multiset()));
        }
    }
    proof {
        broadcast use vstd::multiset::group_multiset_axioms;

        vstd::seq_lib::to_multiset_len(rest@.map_values(|b: Block| block_view(b)));
        vstd::multiset::lemma_multiset_empty_len(rest@.map_values(|b: Block| block_view(b)).to_multiset());
        assert(out@.map_values(|b: Block| block_view(b)).to_multiset().add(rest@.map_values(|b: Block| block_view(b)).to_multiset())
            =~= out@.map_values(|b: Block| block_view(b)).to_multiset());
    }
    out
}

/// Whether two entries share an id.
pub open spec fn has_duplicate(bs: Seq<Block>) -> bool {
    exists|i: int, j: int| 0 <= i < j < bs.len() && block_key(bs[i]) == block_key(bs[j])
}

/// Sorts the entries by id; two entries with the same id are an error naming the smallest
/// such id as `namespace:path`.
pub fn finish_blocks(blocks: Vec<Block>) -> (r: (Vec<Block>, Result<(), String>))
    ensures
        blocks_sorted(r.0@),
        r.0@.map_values(|b: Block| block_view(b)).to_multiset() == blocks@.map_values(|b: Block| block_view(b)).to_multiset(),
        match r.1 {
            Ok(_) => !has_duplicate(r.0@),
            Err(id) => exists|i: int| 0 <= i < r.0@.len() - 1 && block_key(r.0@[i]) == block_key(#[trigger] r.0@[i + 1])
                && (forall|j: int| 0 <= j < i ==> block_key(r.0@[j]) != block_key(#[trigger] r.0@[j + 1]))
                && id@ == r.0@[i].namespace@ + ":"@ + r.0@[i].path@,
        },
{
    let ghost m0 = blocks@.map_values(|b: Block| block_view(b)).to_multiset();
    let sorted = sort_blocks(blocks);
    let n = sorted.len();
    let mut i: usize = 0;
    while n > 0 && i < n - 1
        invariant
            n == sorted@.len(),
            n > 0 ==> i <= n - 1,
            blocks_sorted(sorted@),
            sorted@.map_values(|b: Block| block_view(b)).to_multiset() == m0,
            m0 == blocks@.map_values(|b: Block| block_view(b)).to_multiset(),
            forall|j: int| 0 <= j < i ==> block_key(sorted@[j]) != block_key(#[trigger] sorted@[j + 1]),
        decreases n - i,
    {
        if sorted[i].namespace == sorted[i + 1].namespace && sorted[i].path == sorted[i + 1].path {
            let mut id = sorted[i].namespace.clone();
            push_str(&mut id, ":");
            push_str(&mut id, sorted[i].path.as_str());
            assert(block_key(sorted@[i as int]) == block_key(sorted@[i + 1]));
            let r = (sorted, Err(id));
            assert(r.0@.map_values(|b: Block| block_view(b)).to_multiset() == m0);
            assert(block_key(r.0@[i as int]) == block_key(r.0@[i + 1]));
            return r;
        }
        i = i + 1;
    }
    proof {
        assert forall|a: int, b: int| 0 <= a < b < sorted@.len() implies block_key(sorted@[a]) != block_key(sorted@[b]) by {
            if block_key(sorted@[a]) == block_key(sorted@[b]) {
                assert(key_le(block_key(sorted@[a]), block_key(sorted@[a + 1])));
                assert(key_le(block_key(sorted@[a + 1]), block_key(sorted@[b])));
                lemma_key_antisym(block_key(sorted@[a]), block_key(sorted@[a + 1]));
                assert(block_key(sorted@[a]) != block_key(sorted@[a + 1]));
            }
        }
    }
    (sorted, Ok(()))
}


/// What a block's state draws, by the index of its draw list.
#[derive(Copy, Clone, Debug, PartialEq, Eq, Hash, Structural)]
pub struct StateRecord {
    pub render_shape: RenderShape,
    /// Into the pool of draw lists.
    pub draws: usize,
}

impl PoolKey for StateRecord {
    type Key = StateRecord;

    open spec fn key(&self) -> StateRecord {
        *self
    }

    fn same(&self, other: &Self) -> (b: bool) {
        *self == *other
    }
}

/// What is drawn for one submission: a model by material and parts, or the quads of a block
/// model; indices point into the pools.
#[derive(Copy, Clone, Debug, PartialEq, Eq, Hash, Structural)]
pub enum DrawGeometry {
    Model { material: u8, parts: usize },
    BlockModel { quads: usize },
}

/// One submission of a state: its draw order, its pose and what it draws.
#[derive(Copy, Clone, Debug, PartialEq, Eq, Hash, Structural)]
pub struct Draw {
    pub order: i32,
    pub pose: usize,
    pub geometry: DrawGeometry,
}

impl PoolKey for Draw {
    type Key = Draw;

    open spec fn key(&self) -> Draw {
        *self
    }

    fn same(&self, other: &Self) -> (b: bool) {
        *self == *other
    }
}

/// A state of a block as generated: its key, how it renders, and its draw list.
#[derive(Clone, Debug)]
pub struct State {
    pub key: String,
    pub render_shape: RenderShape,
    pub draws: usize,
}

impl PoolKey for State {
    type Key = (Seq<char>, RenderShape, usize);

    open spec fn key(&self) -> (Seq<char>, RenderShape, usize) {
        (self.key@, self.render_shape, self.draws)
    }

    fn same(&self, other: &Self) -> (b: bool) {
        self.key == other.key && self.render_shape == other.render_shape && self.draws == other.draws
    }
}

/// How a material is drawn, as the generated table holds it.
#[derive(Clone, Debug)]
pub struct Material {
    pub texture: String,
    pub pipeline: String,
    pub cull: bool,
    pub blend: bool,
    pub depth_write: bool,
    pub alpha_cutout: Option<FloatingBits>,
    /// Scale factor, then constant.
    pub depth_bias: Option<[FloatingBits; 2]>,
    pub layering: Layering,
    pub tint_index: Option<u8>,
    pub tint_color: Option<u32>,
    pub shade: Option<Direction>,
    pub light_emission: u8,
}

/// A material by value.
pub struct MaterialKey {
    pub texture: Seq<char>,
    pub pipeline: Seq<char>,
    pub cull: bool,
    pub blend: bool,
    pub depth_write: bool,
    pub alpha_cutout: Option<FloatingBits>,
    pub depth_bias: Option<Seq<FloatingBits>>,
    pub layering: Layering,
    pub tint_index: Option<u8>,
    pub tint_color: Option<u32>,
    pub shade: Option<Direction>,
    pub light_emission: u8,
}

fn option_bits_same(a: &Option<FloatingBits>, b: &Option<FloatingBits>) -> (r: bool)
    ensures
        r == (*a == *b),
{
    match (a, b) {
        (Some(x), Some(y)) => x.0 == y.0,
        (None, None) => true,
        _ => false,
    }
}

fn option_pair_same(a: &Option<[FloatingBits; 2]>, b: &Option<[FloatingBits; 2]>) -> (r: bool)
    ensures
        r == (match a { Some(x) => Some(x@), None => None::<Seq<FloatingBits>> } == match b {
            Some(x) => Some(x@),
            None => None::<Seq<FloatingBits>>,
        }),
{
    match (a, b) {
        (Some(x), Some(y)) => bits_same(x.as_slice(), y.as_slice()),
        (None, None) => true,
        _ => false,
    }
}

fn option_u8_same(a: &Option<u8>, b: &Option<u8>) -> (r: bool)
    ensures
        r == (*a == *b),
{
    match (a, b) {
        (Some(x), Some(y)) => *x == *y,
        (None, None) => true,
        _ => false,
    }
}

fn option_u32_same(a: &Option<u32>, b: &Option<u32>) -> (r: bool)
    ensures
        r == (*a == *b),
{
    match (a, b) {
        (Some(x), Some(y)) => *x == *y,
        (None, None) => true,
        _ => false,
    }
}

fn option_direction_same(a: &Option<Direction>, b: &Option<Direction>) -> (r: bool)
    ensures
        r == (*a == *b),
{
    match (a, b) {
        (Some(x), Some(y)) => *x == *y,
        (None, None) => true,
        _ => false,
    }
}

impl PoolKey for Material {
    type Key = MaterialKey;

    open spec fn key(&self) -> MaterialKey {
        MaterialKey {
            texture: self.texture@,
            pipeline: self.pipeline@,
            cull: self.cull,
            blend: self.blend,
            depth_write: self.depth_write,
            alpha_cutout: self.alpha_cutout,
            depth_bias: match self.depth_bias {
                Some(x) => Some(x@),
                None => None,
            },
            layering: self.layering,
            tint_index: self.tint_index,
            tint_color: self.tint_color,
            shade: self.shade,
            light_emission: self.light_emission,
        }
    }

    fn same(&self, other: &Self) -> (b: bool) {
        self.texture == other.texture && self.pipeline == other.pipeline && self.cull == other.cull && self.blend
            == other.blend && self.depth_write == other.depth_write && option_bits_same(&self.alpha_cutout, &other.alpha_cutout)
            && option_pair_same(&self.depth_bias, &other.depth_bias) && self.layering == other.layering
            && option_u8_same(&self.tint_index, &other.tint_index) && option_u32_same(&self.tint_color, &other.tint_color)
            && option_direction_same(&self.shade, &other.shade) && self.light_emission == other.light_emission
    }
}

/// Whether a state is worth keeping: one rendered as a model with nothing to draw is left to
/// the pack's own model.
pub open spec fn state_kept(record: StateRecord, draw_lists: Seq<Seq<Draw>>) -> bool {
    record.render_shape != RenderShape::Model || draw_lists[record.draws as int].len() > 0
}

/// The states kept, in order, as key, render shape and draw list.
pub open spec fn kept_states(states: Seq<(Seq<char>, StateRecord)>, draw_lists: Seq<Seq<Draw>>) -> Seq<(Seq<char>, RenderShape, usize)>
    decreases states.len(),
{
    if states.len() == 0 {
        Seq::empty()
    } else {
        let before = kept_states(states.drop_last(), draw_lists);
        let (key, record) = states.last();
        if state_kept(record, draw_lists) {
            before.push((key, record.render_shape, record.draws))
        } else {
            before
        }
    }
}

/// The states of a block to generate, in order (see [`kept_states`]).
pub fn block_states(collapsed: Vec<(String, StateRecord)>, draw_lists: &Pool<Vec<Draw>>) -> (out: Vec<State>)
    requires
        forall|i: int| 0 <= i < collapsed@.len() ==> (#[trigger] collapsed@[i]).1.draws < draw_lists.keys().len(),
    ensures
        out@.map_values(|s: State| (s.key@, s.render_shape, s.draws)) == kept_states(
            collapsed@.map_values(|e: (String, StateRecord)| (e.0@, e.1)),
            draw_lists.keys(),
        ),
{
    let ghost cv = collapsed@.map_values(|e: (String, StateRecord)| (e.0@, e.1));
    let items = draw_lists.items();
    let mut out: Vec<State> = Vec::new();
    for entry in it: collapsed.into_iter()
        invariant
            cv == it.seq().map_values(|e: (String, StateRecord)| (e.0@, e.1)),
            forall|i: int| 0 <= i < cv.len() ==> (#[trigger] cv[i]).1.draws < draw_lists.keys().len(),
            items@.map_values(|t: Vec<Draw>| t.key()) == draw_lists.keys(),
            out@.map_values(|s: State| (s.key@, s.render_shape, s.draws)) == kept_states(cv.take(it.index()), draw_lists.keys()),
    {
        let ghost k = it.index();
        proof {
            assert(cv.take(k + 1).drop_last() =~= cv.take(k));
            assert(cv.take(k + 1).last() == cv[k]);
            assert(cv[k] == (entry.0@, entry.1));
        }
        let (key, record) = entry;
        assert(record.draws < items@.len());
        assert(items@[record.draws as int].key() == draw_lists.keys()[record.draws as int]);
        let keep = match record.render_shape {
            RenderShape::Model => items[record.draws].len() > 0,
            RenderShape::Invisible => true,
        };
        if keep {
            let ghost before = out@;
            let ghost kv = key@;
            out.push(State { key, render_shape: record.render_shape, draws: record.draws });
            proof {
                assert(out@.map_values(|s: State| (s.key@, s.render_shape, s.draws)) =~= before.map_values(
                    |s: State| (s.key@, s.render_shape, s.draws),
                ).push((kv, record.render_shape, record.draws)));
            }
        }
    }
    proof {
        assert(cv.take(cv.len() as int) =~= cv);
    }
    out
}

/// The properties that change what is drawn, in order.
pub open spec fn relevant_of(properties: Seq<Seq<char>>, relevant: Seq<bool>) -> Seq<Seq<char>>
    decreases properties.len(),
{
    if properties.len() == 0 || relevant.len() == 0 {
        Seq::empty()
    } else {
        let n = if properties.len() < relevant.len() { properties.len() } else { relevant.len() };
        let ps = properties.take(n as int);
        let before = relevant_of(ps.drop_last(), relevant.take(n as int).drop_last());
        if relevant[n - 1] {
            before.push(ps.last())
        } else {
            before
        }
    }
}

/// The properties marked relevant, in order (see [`relevant_of`]).
pub fn relevant_properties(properties: &Vec<String>, relevant: &Vec<bool>) -> (out: Vec<String>)
    ensures
        out@.map_values(|p: String| p@) == relevant_of(properties@.map_values(|p: String| p@), relevant@),
{
    let ghost pv = properties@.map_values(|p: String| p@);
    let n: usize = if properties.len() < relevant.len() { properties.len() } else { relevant.len() };
    let mut out: Vec<String> = Vec::new();
    let mut i: usize = 0;
    while i < n
        invariant
            i <= n,
            n <= properties@.len(),
            n <= relevant@.len(),
            pv == properties@.map_values(|p: String| p@),
            out@.map_values(|p: String| p@) == relevant_of(pv.take(i as int), relevant@.take(i as int)),
        decreases n - i,
    {
        proof {
            let ps = pv.take(i as int + 1);
            let rs = relevant@.take(i as int + 1);
            assert(ps.take(i as int + 1) =~= ps);
            assert(rs.take(i as int + 1) =~= rs);
            assert(ps.drop_last() =~= pv.take(i as int));
            assert(rs.drop_last() =~= relevant@.take(i as int));
        }
        if relevant[i] {
            let ghost before = out@;
            out.push(properties[i].clone());
            proof {
                assert(out@.map_values(|p: String| p@) =~= before.map_values(|p: String| p@).push(pv[i as int]));
            }
        }
        i = i + 1;
    }
    proof {
        let m = if pv.len() < relevant@.len() { pv.len() } else { relevant@.len() };
        assert(pv.take(m as int).take(m as int) =~= pv.take(m as int));
        assert(relevant@.take(m as int).take(m as int) =~= relevant@.take(m as int));
        lemma_relevant_prefix(pv, relevant@);
    }
    out
}

proof fn lemma_relevant_prefix(properties: Seq<Seq<char>>, relevant: Seq<bool>)
    ensures
        ({
            let n = if properties.len() < relevant.len() { properties.len() } else { relevant.len() };
            relevant_of(properties, relevant) == relevant_of(properties.take(n as int), relevant.take(n as int))
        }),
{
    let n = if properties.len() < relevant.len() { properties.len() } else { relevant.len() };
    assert(properties.take(n as int).take(n as int) =~= properties.take(n as int));
    assert(relevant.take(n as int).take(n as int) =~= relevant.take(n as int));
}

/// A block id's namespace and path: `minecraft` when no namespace is written.
pub open spec fn block_name(block: Seq<char>) -> (Seq<char>, Seq<char>) {
    match split_once(block, ':') {
        Some(pair) => pair,
        None => ("minecraft"@, block),
    }
}

/// Splits a block id into its namespace and path (see [`block_name`]).
pub fn split_block_id(block: &str) -> (out: (String, String))
    ensures
        (out.0@, out.1@) == block_name(block@),
{
    let chars = chars_of(block);
    proof {
        lemma_find_from(chars@, ':', 0);
    }
    match find_char(chars.as_slice(), ':', 0) {
        Some(i) => {
            let n = chars.len();
            let ns = string_of_range(chars.as_slice(), 0, i);
            let path = string_of_range(chars.as_slice(), i + 1, n);
            proof {
                assert(ns@ =~= block@.take(i as int));
                assert(path@ =~= block@.skip(i as int + 1));
            }
            (ns, path)
        },
        None => ("minecraft".to_owned(), block.to_owned()),
    }
}

} // verus!
