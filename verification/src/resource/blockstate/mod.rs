//! Block states: variant keys, `when` conditions, and the models a state applies.

pub mod cache;

use vstd::prelude::*;
use crate::direction::Quadrant;
use crate::resource::id::ResourceId;
use crate::text::{chars_of, find_from, lemma_find_from, lemma_find_from_at, lemma_find_from_none, push_str, string_of_range};

verus! {

/// Why a block state could not be loaded.
#[derive(Clone, Debug)]
pub enum BlockStateError {
    NotFound(ResourceId),
    Parse(ResourceId, String),
}

/// The sentence a block state error reads as.
pub open spec fn blockstate_error_text(e: BlockStateError) -> Seq<char> {
    match e {
        BlockStateError::NotFound(id) => "No known pack provides block state "@ + id.text(),
        BlockStateError::Parse(id, m) => "Failed to parse block state "@ + id.text() + ": "@ + m@,
    }
}

impl BlockStateError {
    /// The error as a sentence (see [`blockstate_error_text`]).
    pub fn to_string(&self) -> (out: String)
        ensures
            out@ == blockstate_error_text(*self),
    {
        match self {
            BlockStateError::NotFound(id) => {
                let mut out = "No known pack provides block state ".to_owned();
                push_str(&mut out, id.to_string().as_str());
                out
            },
            BlockStateError::Parse(id, m) => {
                let mut out = "Failed to parse block state ".to_owned();
                push_str(&mut out, id.to_string().as_str());
                push_str(&mut out, ": ");
                push_str(&mut out, m.as_str());
                out
            },
        }
    }
}

/// Where the name and the value of one `name=value` pair lie in a variant key, by character
/// position.
#[derive(Copy, Clone, Debug, Default)]
pub struct PropertyRange {
    pub name_start: u16,
    pub name_end: u16,
    pub value_start: u16,
    pub value_end: u16,
}

/// A range by value.
pub open spec fn range_view(p: PropertyRange) -> (int, int, int, int) {
    (p.name_start as int, p.name_end as int, p.value_start as int, p.value_end as int)
}

/// The position of the first `c` at or after `from`, else the end of the text.
pub open spec fn next_or_end(s: Seq<char>, c: char, from: int) -> int {
    match find_from(s, c, from) {
        Some(i) => i,
        None => s.len() as int,
    }
}

/// The `name=value` pairs of `s[start..]`: the text is split at commas, and each piece that
/// holds an `=` is a pair split at its first `=`; other pieces are skipped.
pub open spec fn ranges_from(s: Seq<char>, start: int) -> Seq<(int, int, int, int)>
    decreases s.len() - start,
{
    if start < 0 || start > s.len() {
        Seq::empty()
    } else {
        let end = next_or_end(s, ',', start);
        let here = match find_from(s, '=', start) {
            Some(q) => if q < end {
                seq![(start, q, q + 1, end)]
            } else {
                Seq::empty()
            },
            None => Seq::empty(),
        };
        if start <= end < s.len() {
            here + ranges_from(s, end + 1)
        } else {
            here
        }
    }
}

/// The `(name, value)` pairs of a variant key (see [`ranges_from`]).
pub open spec fn property_pairs(s: Seq<char>) -> Seq<(Seq<char>, Seq<char>)> {
    ranges_from(s, 0).map_values(|r: (int, int, int, int)| (s.subrange(r.0, r.1), s.subrange(r.2, r.3)))
}

/// The ranges of the `name=value` pairs of a variant key (see [`ranges_from`]).
pub fn scan_pairs(src: &[char]) -> (out: Vec<PropertyRange>)
    requires
        src@.len() <= u16::MAX,
    ensures
        out@.map_values(|p: PropertyRange| range_view(p)) == ranges_from(src@, 0),
{
    let n = src.len();
    let mut out: Vec<PropertyRange> = Vec::new();
    let mut start: usize = 0;
    let mut eq: Option<usize> = None;
    let mut i: usize = 0;
    while i <= n
        invariant
            n == src@.len(),
            n <= u16::MAX,
            start <= i <= n + 1,
            i == n + 1 ==> start == n + 1,
            forall|j: int| start <= j < i && j < n ==> src@[j] != ',',
            match eq {
                Some(q) => start <= q < i && q < n && src@[q as int] == '=' && forall|j: int| start <= j < q ==> src@[j] != '=',
                None => forall|j: int| start <= j < i && j < n ==> src@[j] != '=',
            },
            out@.map_values(|p: PropertyRange| range_view(p)) + ranges_from(src@, start as int) == ranges_from(src@, 0),
        decreases n + 1 - i,
    {
        if i == n || src[i] == ',' {
            let ghost before = out@.map_values(|p: PropertyRange| range_view(p));
            proof {
                if i < n {
                    lemma_find_from_at(src@, ',', start as int, i as int);
                } else {
                    lemma_find_from_none(src@, ',', start as int);
                }
                assert(next_or_end(src@, ',', start as int) == i);
                match eq {
                    Some(q) => {
                        lemma_find_from_at(src@, '=', start as int, q as int);
                    },
                    None => {
                        lemma_find_from(src@, '=', start as int);
                    },
                }
            }
            if let Some(q) = eq {
                out.push(PropertyRange { name_start: start as u16, name_end: q as u16, value_start: (q + 1) as u16, value_end: i as u16 });
                proof {
                    assert(out@.map_values(|p: PropertyRange| range_view(p)) =~= before.push((start as int, q as int, q + 1, i as int)));
                }
            }
            proof {
                let after = out@.map_values(|p: PropertyRange| range_view(p));
                if i < n {
                    assert(after + ranges_from(src@, i as int + 1) =~= before + ranges_from(src@, start as int));
                } else {
                    assert(ranges_from(src@, i as int + 1) =~= Seq::<(int, int, int, int)>::empty());
                    assert(after + ranges_from(src@, i as int + 1) =~= before + ranges_from(src@, start as int));
                }
            }
            start = i + 1;
            eq = None;
        } else if src[i] == '=' && eq.is_none() {
            eq = Some(i);
        }
        i = i + 1;
    }
    proof {
        assert(ranges_from(src@, start as int) =~= Seq::<(int, int, int, int)>::empty());
        assert(out@.map_values(|p: PropertyRange| range_view(p)) =~= ranges_from(src@, 0));
    }
    out
}

/// A variant key with the ranges of its `name=value` pairs.
pub struct StateProperties {
    key: String,
    pairs: Vec<PropertyRange>,
}

impl StateProperties {
    /// The key the pairs were read from.
    pub closed spec fn key(&self) -> Seq<char> {
        self.key@
    }

    /// The ranges match the key.
    pub closed spec fn wf(&self) -> bool {
        &&& self.key@.len() <= u16::MAX
        &&& self.pairs@.map_values(|p: PropertyRange| range_view(p)) == ranges_from(self.key@, 0)
    }

    /// The ranges of the key's `name=value` pairs.
    pub fn ranges(&self) -> (r: &[PropertyRange])
        requires
            self.wf(),
        ensures
            r@.map_values(|p: PropertyRange| range_view(p)) == ranges_from(self.key(), 0),
    {
        self.pairs.as_slice()
    }

    /// The key's `(name, value)` pairs, in order.
    pub fn iter(&self) -> (out: Vec<(String, String)>)
        requires
            self.wf(),
        ensures
            out@.map_values(|p: (String, String)| (p.0@, p.1@)) == property_pairs(self.key()),
    {
        let chars = chars_of(self.key.as_str());
        let ghost rv = self.pairs@.map_values(|p: PropertyRange| range_view(p));
        let mut out: Vec<(String, String)> = Vec::new();
        let mut i: usize = 0;
        proof {
            lemma_ranges_valid(self.key@, 0);
        }
        while i < self.pairs.len()
            invariant
                i <= self.pairs@.len(),
                chars@ == self.key@,
                rv == self.pairs@.map_values(|p: PropertyRange| range_view(p)),
                rv == ranges_from(self.key@, 0),
                forall|j: int| 0 <= j < rv.len() ==> 0 <= (#[trigger] rv[j]).0 <= rv[j].1 && rv[j].1 + 1 == rv[j].2 && rv[j].2 <= rv[j].3 <= self.key@.len(),
                out@.map_values(|p: (String, String)| (p.0@, p.1@)) == property_pairs(self.key@).take(i as int),
            decreases self.pairs.len() - i,
        {
            let p = self.pairs[i];
            assert(range_view(p) == rv[i as int]);
            let name = string_of_range(chars.as_slice(), p.name_start as usize, p.name_end as usize);
            let value = string_of_range(chars.as_slice(), p.value_start as usize, p.value_end as usize);
            out.push((name, value));
            proof {
                assert(property_pairs(self.key@).take(i as int + 1) =~= property_pairs(self.key@).take(i as int).push(
                    property_pairs(self.key@)[i as int],
                ));
                assert(out@.map_values(|p: (String, String)| (p.0@, p.1@)) =~= property_pairs(self.key@).take(i as int + 1));
            }
            i = i + 1;
        }
        proof {
            assert(property_pairs(self.key@).take(i as int) =~= property_pairs(self.key@));
        }
        out
    }
}

/// Each range lies in the text, with its name before its value and one `=` between them.
pub proof fn lemma_ranges_valid(s: Seq<char>, start: int)
    ensures
        forall|j: int| 0 <= j < ranges_from(s, start).len() ==> {
            let r = #[trigger] ranges_from(s, start)[j];
            0 <= r.0 <= r.1 && r.1 + 1 == r.2 && r.2 <= r.3 <= s.len()
        },
    decreases s.len() - start,
{
    if 0 <= start <= s.len() {
        lemma_find_from(s, ',', start);
        lemma_find_from(s, '=', start);
        let end = next_or_end(s, ',', start);
        let here = match find_from(s, '=', start) {
            Some(q) => if q < end {
                seq![(start, q, q + 1, end)]
            } else {
                Seq::empty()
            },
            None => Seq::empty(),
        };
        if start <= end < s.len() {
            lemma_ranges_valid(s, end + 1);
            let rest = ranges_from(s, end + 1);
            assert(ranges_from(s, start) == here + rest);
            assert forall|j: int| 0 <= j < ranges_from(s, start).len() implies {
                let r = #[trigger] ranges_from(s, start)[j];
                0 <= r.0 <= r.1 && r.1 + 1 == r.2 && r.2 <= r.3 <= s.len()
            } by {
                if j >= here.len() {
                    assert(ranges_from(s, start)[j] == rest[j - here.len()]);
                }
            }
        } else {
            assert(ranges_from(s, start) == here);
        }
    }
}

/// Reads the `name=value` pairs of a variant key.
pub fn parse_properties(properties: String) -> (p: StateProperties)
    requires
        properties@.len() <= u16::MAX,
    ensures
        p.wf(),
        p.key() == properties@,
{
    let chars = chars_of(properties.as_str());
    let pairs = scan_pairs(chars.as_slice());
    StateProperties { key: properties, pairs }
}

/// How a model applied by a block state is turned, and whether its textures stay put.
#[derive(Copy, Clone, Debug, Default, PartialEq, Eq, Hash)]
pub struct ModelState {
    pub x: Quadrant,
    pub y: Quadrant,
    pub z: Quadrant,
    pub uv_lock: bool,
}

/// One term of a `when` clause: a property and the values it may take, separated by `|`; a
/// value written `!v` matches anything but `v`.
#[derive(Clone, Debug)]
pub struct Term {
    pub property: String,
    pub alternatives: String,
}

/// A `when` clause of a multipart block state.
#[derive(Debug)]
pub enum Condition {
    Or(Vec<Condition>),
    And(Vec<Condition>),
    Terms(Vec<Term>),
}

/// The models a block state applies: by variant key, or by part with optional conditions.
/// Each entry lists models with their weights.
pub enum BlockStateModel<P> {
    Variants(Vec<(StateProperties, Vec<(P, u32)>)>),
    Multipart(Vec<(Option<Condition>, Vec<(P, u32)>)>),
}

} // verus!
