//! The pools of the capture table generator: every captured block file is read into them, and
//! each table entry refers to the others by index.

use vstd::prelude::*;
use crate::capture_gen::model::{direction_name, Direction, FloatingBits, QuadKind};
use crate::capture_gen::pool::{
    local_material, material_range_message, material_texture, parse_hex_u32, position_rows, texture_of, tint_color_of,
    tint_index_of, MaterialKey, uv_rows, Block, Cube, Draw, DrawGeometry, Face, Material,
    Part, Pool, PoolKey, Quad, State, StateRecord, block_key, block_name, block_states, block_view, blocks_sorted,
    finish_blocks, has_duplicate, kept_states, relevant_of, relevant_properties, split_block_id,
};
use crate::capture_gen::raw::{RawBlockFile, RawCube, RawMaterial, RawPart, RawQuad, RawState, RawSubmission};
use crate::capture_gen::states::{collapse_states, collapsed, column_irrelevant, grid_from, state_key, StateGrid};
use crate::text::{decimal, push_digits, push_str, strictly_sorted, views};

verus! {

/// Whether `b` holds every entry of `a` at the same place.
pub open spec fn extends<K>(a: Seq<K>, b: Seq<K>) -> bool {
    a.len() <= b.len() && forall|i: int| 0 <= i < a.len() ==> #[trigger] b[i] == a[i]
}

/// All that has been read so far, each kind of entry pooled once.
pub struct Pools {
    pub poses: Pool<[FloatingBits; 12]>,
    pub faces: Pool<Vec<Face>>,
    pub cubes: Pool<Vec<Cube>>,
    pub parts: Pool<Vec<Part>>,
    pub quads: Pool<Vec<Quad>>,
    pub materials: Pool<Material>,
    /// Runs of indices into `materials`.
    pub material_lists: Pool<Vec<usize>>,
    pub draws: Pool<Vec<Draw>>,
    pub states: Pool<Vec<State>>,
    pub property_lists: Pool<Vec<String>>,
    pub blocks: Vec<Block>,
}

impl Pools {
    /// Every index held in a pool refers to an entry of the pool it points into.
    pub open spec fn refs_ok(&self) -> bool {
        &&& forall|i: int, k: int|
            #![trigger self.cubes.keys()[i][k]]
            0 <= i < self.cubes.keys().len() && 0 <= k < self.cubes.keys()[i].len() ==> self.cubes.keys()[i][k].2
                < self.faces.keys().len()
        &&& forall|i: int, k: int|
            #![trigger self.parts.keys()[i][k]]
            0 <= i < self.parts.keys().len() && 0 <= k < self.parts.keys()[i].len() ==> {
                &&& self.parts.keys()[i][k].pose < self.poses.keys().len()
                &&& self.parts.keys()[i][k].cubes < self.cubes.keys().len()
            }
        &&& forall|i: int, k: int|
            #![trigger self.material_lists.keys()[i][k]]
            0 <= i < self.material_lists.keys().len() && 0 <= k < self.material_lists.keys()[i].len()
                ==> self.material_lists.keys()[i][k] < self.materials.keys().len()
        &&& forall|i: int, k: int|
            #![trigger self.draws.keys()[i][k]]
            0 <= i < self.draws.keys().len() && 0 <= k < self.draws.keys()[i].len() ==> draw_refs_ok(
                self.draws.keys()[i][k],
                self.poses.keys().len(),
                self.parts.keys().len(),
                self.quads.keys().len(),
            )
        &&& forall|i: int, k: int|
            #![trigger self.states.keys()[i][k]]
            0 <= i < self.states.keys().len() && 0 <= k < self.states.keys()[i].len() ==> self.states.keys()[i][k].2
                < self.draws.keys().len()
        &&& forall|b: int|
            #![trigger self.blocks@[b]]
            0 <= b < self.blocks@.len() ==> {
                &&& self.blocks@[b].properties < self.property_lists.keys().len()
                &&& self.blocks@[b].states < self.states.keys().len()
                &&& self.blocks@[b].materials < self.material_lists.keys().len()
            }
    }

    /// No pool holds a value twice, and every index refers to an entry.
    pub open spec fn wf(&self) -> bool {
        &&& self.poses.wf()
        &&& self.faces.wf()
        &&& self.cubes.wf()
        &&& self.parts.wf()
        &&& self.quads.wf()
        &&& self.materials.wf()
        &&& self.material_lists.wf()
        &&& self.draws.wf()
        &&& self.states.wf()
        &&& self.property_lists.wf()
        &&& self.refs_ok()
    }

    /// Every pool of `next` holds every entry of `self` at the same place.
    pub open spec fn grows(&self, next: &Pools) -> bool {
        &&& extends(self.poses.keys(), next.poses.keys())
        &&& extends(self.faces.keys(), next.faces.keys())
        &&& extends(self.cubes.keys(), next.cubes.keys())
        &&& extends(self.parts.keys(), next.parts.keys())
        &&& extends(self.quads.keys(), next.quads.keys())
        &&& extends(self.materials.keys(), next.materials.keys())
        &&& extends(self.material_lists.keys(), next.material_lists.keys())
        &&& extends(self.draws.keys(), next.draws.keys())
        &&& extends(self.states.keys(), next.states.keys())
        &&& extends(self.property_lists.keys(), next.property_lists.keys())
    }
}

/// A draw's indices lie below the sizes of the pools they point into.
pub open spec fn draw_refs_ok(d: Draw, poses: nat, parts: nat, quads: nat) -> bool {
    &&& d.pose < poses
    &&& match d.geometry {
        DrawGeometry::Model { parts: p, .. } => p < parts,
        DrawGeometry::BlockModel { quads: q } => q < quads,
    }
}

/// A captured face as pooled: its direction and the UVs of its first three corners.
pub open spec fn face_key(e: (Direction, Vec<[FloatingBits; 2]>)) -> (Direction, Seq<Seq<FloatingBits>>) {
    (e.0, uv_rows(e.1@.take(3)))
}

/// The faces of a cube as pooled.
pub open spec fn face_keys(c: RawCube) -> Seq<(Direction, Seq<Seq<FloatingBits>>)> {
    c.faces@.map_values(|e: (Direction, Vec<[FloatingBits; 2]>)| face_key(e))
}

/// Each face of a cube with its number of UVs.
pub open spec fn face_counts(c: RawCube) -> Seq<(Direction, nat)> {
    c.faces@.map_values(|e: (Direction, Vec<[FloatingBits; 2]>)| (e.0, e.1@.len()))
}

/// Each face of a run of cubes with its number of UVs, in order.
pub open spec fn cubes_face_counts(cs: Seq<RawCube>) -> Seq<(Direction, nat)>
    decreases cs.len(),
{
    if cs.len() == 0 {
        Seq::empty()
    } else {
        cubes_face_counts(cs.drop_last()) + face_counts(cs.last())
    }
}

/// Each face of a run of parts with its number of UVs, in order.
pub open spec fn parts_face_counts(ps: Seq<RawPart>) -> Seq<(Direction, nat)>
    decreases ps.len(),
{
    if ps.len() == 0 {
        Seq::empty()
    } else {
        parts_face_counts(ps.drop_last()) + cubes_face_counts(ps.last().cubes@)
    }
}

/// The first face that does not have four UVs.
pub open spec fn first_bad_face(fs: Seq<(Direction, nat)>) -> Option<(Direction, nat)>
    decreases fs.len(),
{
    if fs.len() == 0 {
        None
    } else {
        match first_bad_face(fs.drop_last()) {
            Some(f) => Some(f),
            None => if fs.last().1 != 4 { Some(fs.last()) } else { None },
        }
    }
}

/// The message for a face without four UVs.
pub open spec fn uv_count_message(f: (Direction, nat)) -> Seq<char> {
    "cube face "@ + direction_name(f.0) + " has unexpected number of UVs (expected 4, found "@ + decimal(f.1 as int) + ")"@
}

/// Once a prefix has a bad face, the whole has the same first bad face.
pub proof fn lemma_first_bad_prefix(s: Seq<(Direction, nat)>, n: int)
    requires
        0 <= n <= s.len(),
        first_bad_face(s.take(n)) is Some,
    ensures
        first_bad_face(s) == first_bad_face(s.take(n)),
    decreases s.len() - n,
{
    if n < s.len() {
        assert(s.take(n + 1).drop_last() =~= s.take(n));
        lemma_first_bad_prefix(s, n + 1);
    } else {
        assert(s.take(n) =~= s);
    }
}

/// The first bad face of two runs: that of the first run, else that of the second.
pub proof fn lemma_first_bad_concat(a: Seq<(Direction, nat)>, b: Seq<(Direction, nat)>)
    ensures
        first_bad_face(a + b) == match first_bad_face(a) {
            Some(f) => Some(f),
            None => first_bad_face(b),
        },
    decreases b.len(),
{
    if b.len() == 0 {
        assert(a + b =~= a);
    } else {
        assert((a + b).drop_last() =~= a + b.drop_last());
        lemma_first_bad_concat(a, b.drop_last());
    }
}

/// A cube list entry matches a captured cube: same corners, and a face list as captured.
pub open spec fn cube_matches(p: &Pools, c: (Seq<FloatingBits>, Seq<FloatingBits>, usize), raw: RawCube) -> bool {
    &&& c.0 == raw.from@
    &&& c.1 == raw.to@
    &&& c.2 < p.faces.keys().len()
    &&& p.faces.keys()[c.2 as int] == face_keys(raw)
}

/// Pooled cube list `i` holds the captured cubes, in order.
pub open spec fn cubes_ok(p: &Pools, i: usize, cubes: Seq<RawCube>) -> bool {
    &&& i < p.cubes.keys().len()
    &&& p.cubes.keys()[i as int].len() == cubes.len()
    &&& forall|k: int| 0 <= k < cubes.len() ==> #[trigger] cube_matches(p, p.cubes.keys()[i as int][k], cubes[k])
}

/// A part entry matches a captured part: its pose and its cubes.
pub open spec fn part_matches(p: &Pools, e: Part, raw: RawPart) -> bool {
    &&& e.pose < p.poses.keys().len()
    &&& p.poses.keys()[e.pose as int] == raw.pose@
    &&& cubes_ok(p, e.cubes, raw.cubes@)
}

/// Pooled part list `i` holds the captured parts, in order.
pub open spec fn parts_ok(p: &Pools, i: usize, parts: Seq<RawPart>) -> bool {
    &&& i < p.parts.keys().len()
    &&& p.parts.keys()[i as int].len() == parts.len()
    &&& forall|k: int| 0 <= k < parts.len() ==> #[trigger] part_matches(p, p.parts.keys()[i as int][k], parts[k])
}

/// What holds of a cube list entry stays true as the pools grow.
pub proof fn lemma_cube_matches_grows(a: &Pools, b: &Pools, c: (Seq<FloatingBits>, Seq<FloatingBits>, usize), raw: RawCube)
    requires
        a.grows(b),
        cube_matches(a, c, raw),
    ensures
        cube_matches(b, c, raw),
{
    assert(b.faces.keys()[c.2 as int] == a.faces.keys()[c.2 as int]);
}

/// What holds of a pooled cube list stays true as the pools grow.
pub proof fn lemma_cubes_ok_grows(a: &Pools, b: &Pools, i: usize, cubes: Seq<RawCube>)
    requires
        a.grows(b),
        cubes_ok(a, i, cubes),
    ensures
        cubes_ok(b, i, cubes),
{
    assert(b.cubes.keys()[i as int] == a.cubes.keys()[i as int]);
    assert forall|k: int| 0 <= k < cubes.len() implies #[trigger] cube_matches(b, b.cubes.keys()[i as int][k], cubes[k]) by {
        lemma_cube_matches_grows(a, b, a.cubes.keys()[i as int][k], cubes[k]);
    }
}

/// What holds of a part entry stays true as the pools grow.
pub proof fn lemma_part_matches_grows(a: &Pools, b: &Pools, e: Part, raw: RawPart)
    requires
        a.grows(b),
        part_matches(a, e, raw),
    ensures
        part_matches(b, e, raw),
{
    assert(b.poses.keys()[e.pose as int] == a.poses.keys()[e.pose as int]);
    lemma_cubes_ok_grows(a, b, e.cubes, raw.cubes@);
}

/// What holds of a pooled part list stays true as the pools grow.
pub proof fn lemma_parts_ok_grows(a: &Pools, b: &Pools, i: usize, parts: Seq<RawPart>)
    requires
        a.grows(b),
        parts_ok(a, i, parts),
    ensures
        parts_ok(b, i, parts),
{
    assert(b.parts.keys()[i as int] == a.parts.keys()[i as int]);
    assert forall|k: int| 0 <= k < parts.len() implies #[trigger] part_matches(b, b.parts.keys()[i as int][k], parts[k]) by {
        lemma_part_matches_grows(a, b, a.parts.keys()[i as int][k], parts[k]);
    }
}

/// Adding a cube list whose faces exist keeps every index valid.
proof fn lemma_refs_after_cubes(a: &Pools, b: &Pools)
    requires
        a.refs_ok(),
        a.grows(b),
        b.poses == a.poses,
        b.faces == a.faces,
        b.parts == a.parts,
        b.quads == a.quads,
        b.materials == a.materials,
        b.material_lists == a.material_lists,
        b.draws == a.draws,
        b.states == a.states,
        b.property_lists == a.property_lists,
        b.blocks == a.blocks,
        forall|i: int, k: int|
            0 <= i < b.cubes.keys().len() && 0 <= k < b.cubes.keys()[i].len() ==> #[trigger] b.cubes.keys()[i][k].2
                < b.faces.keys().len(),
    ensures
        b.refs_ok(),
{
    assert forall|i: int, k: int| 0 <= i < b.parts.keys().len() && 0 <= k < b.parts.keys()[i].len() implies {
        &&& #[trigger] b.parts.keys()[i][k].pose < b.poses.keys().len()
        &&& b.parts.keys()[i][k].cubes < b.cubes.keys().len()
    } by {
        assert(a.parts.keys()[i][k].cubes < a.cubes.keys().len());
    }
    assert forall|i: int, k: int| 0 <= i < b.draws.keys().len() && 0 <= k < b.draws.keys()[i].len() implies draw_refs_ok(
        #[trigger] b.draws.keys()[i][k],
        b.poses.keys().len(),
        b.parts.keys().len(),
        b.quads.keys().len(),
    ) by {
        assert(draw_refs_ok(a.draws.keys()[i][k], a.poses.keys().len(), a.parts.keys().len(), a.quads.keys().len()));
    }
}

/// Growing is transitive.
pub proof fn lemma_grows_trans(a: &Pools, b: &Pools, c: &Pools)
    requires
        a.grows(b),
        b.grows(c),
    ensures
        a.grows(c),
{
}

impl Pools {
    /// Empty pools.
    pub fn new() -> (p: Pools)
        ensures
            p.wf(),
            p.blocks@.len() == 0,
            p.poses.keys().len() == 0,
            p.faces.keys().len() == 0,
            p.cubes.keys().len() == 0,
            p.parts.keys().len() == 0,
            p.quads.keys().len() == 0,
            p.materials.keys().len() == 0,
            p.material_lists.keys().len() == 0,
            p.draws.keys().len() == 0,
            p.states.keys().len() == 0,
            p.property_lists.keys().len() == 0,
    {
        Pools {
            poses: Pool::new(),
            faces: Pool::new(),
            cubes: Pool::new(),
            parts: Pool::new(),
            quads: Pool::new(),
            materials: Pool::new(),
            material_lists: Pool::new(),
            draws: Pool::new(),
            states: Pool::new(),
            property_lists: Pool::new(),
            blocks: Vec::new(),
        }
    }

    /// The index of a pose.
    pub fn pose(&mut self, pose: &[FloatingBits; 12]) -> (i: usize)
        requires
            old(self).wf(),
        ensures
            final(self).wf(),
            old(self).grows(&*final(self)),
            final(self).blocks@ == old(self).blocks@,
            i < final(self).poses.keys().len(),
            final(self).poses.keys()[i as int] == pose@,
    {
        let ghost before = *self;
        let i = self.poses.pool(*pose);
        proof {
            assert(before.grows(&*self));
        }
        i
    }

    /// The index of a cube's face list, once every face has four UVs.
    fn cube_faces(&mut self, cube: &RawCube) -> (r: Result<usize, String>)
        requires
            old(self).wf(),
        ensures
            final(self).wf(),
            old(self).grows(&*final(self)),
            final(self).blocks@ == old(self).blocks@,
            match r {
                Ok(i) => first_bad_face(face_counts(*cube)) is None && i < final(self).faces.keys().len()
                    && final(self).faces.keys()[i as int] == face_keys(*cube),
                Err(m) => first_bad_face(face_counts(*cube)) matches Some(f) && m@ == uv_count_message(f),
            },
    {
        let ghost counts = face_counts(*cube);
        let mut faces: Vec<Face> = Vec::new();
        let mut i: usize = 0;
        while i < cube.faces.len()
            invariant
                i <= cube.faces@.len(),
                *self == *old(self),
                self.wf(),
                counts == face_counts(*cube),
                faces@.map_values(|f: Face| f.key()) == face_keys(*cube).take(i as int),
                first_bad_face(counts.take(i as int)) is None,
            decreases cube.faces.len() - i,
        {
            let uvs = &cube.faces[i].1;
            let dir = cube.faces[i].0;
            proof {
                assert(counts.take(i as int + 1).drop_last() =~= counts.take(i as int));
                assert(counts.take(i as int + 1).last() == (dir, uvs@.len()));
            }
            if uvs.len() != 4 {
                let mut m = "cube face ".to_owned();
                push_str(&mut m, dir.to_string().as_str());
                push_str(&mut m, " has unexpected number of UVs (expected 4, found ");
                push_digits(&mut m, uvs.len() as u64);
                push_str(&mut m, ")");
                proof {
                    lemma_first_bad_prefix(counts, i as int + 1);
                }
                return Err(m);
            }
            let face = Face { direction: dir, uvs: [uvs[0], uvs[1], uvs[2]] };
            proof {
                assert(face.uvs@ =~= uvs@.take(3));
            }
            let ghost before = faces@;
            faces.push(face);
            proof {
                assert(faces@.map_values(|f: Face| f.key()) =~= before.map_values(|f: Face| f.key()).push(face.key()));
                assert(face_keys(*cube).take(i as int + 1) =~= face_keys(*cube).take(i as int).push(face_key(cube.faces@[i as int])));
            }
            i = i + 1;
        }
        proof {
            assert(counts.take(i as int) =~= counts);
            assert(face_keys(*cube).take(i as int) =~= face_keys(*cube));
        }
        let ghost before = *self;
        let idx = self.faces.pool(faces);
        proof {
            assert(before.grows(&*self));
        }
        Ok(idx)
    }

    /// The cube list of a part, each cube's face list pooled.
    fn cube_list(&mut self, cubes: &Vec<RawCube>) -> (r: Result<Vec<Cube>, String>)
        requires
            old(self).wf(),
        ensures
            final(self).wf(),
            old(self).grows(&*final(self)),
            final(self).blocks@ == old(self).blocks@,
            match r {
                Ok(list) => first_bad_face(cubes_face_counts(cubes@)) is None && list@.len() == cubes@.len() && forall|k: int|
                    0 <= k < cubes@.len() ==> #[trigger] cube_matches(&*final(self), list@[k].key(), cubes@[k]),
                Err(m) => first_bad_face(cubes_face_counts(cubes@)) matches Some(f) && m@ == uv_count_message(f),
            },
    {
        let ghost start = *self;
        let mut list: Vec<Cube> = Vec::new();
        let mut i: usize = 0;
        while i < cubes.len()
            invariant
                i <= cubes@.len(),
                start == *old(self),
                self.wf(),
                start.grows(&*self),
                self.blocks@ == start.blocks@,
                list@.len() == i,
                first_bad_face(cubes_face_counts(cubes@.take(i as int))) is None,
                forall|k: int| 0 <= k < i ==> #[trigger] cube_matches(&*self, list@[k].key(), cubes@[k]),
            decreases cubes.len() - i,
        {
            proof {
                assert(cubes@.take(i as int + 1).drop_last() =~= cubes@.take(i as int));
                assert(cubes@.take(i as int + 1).last() == cubes@[i as int]);
                lemma_first_bad_concat(cubes_face_counts(cubes@.take(i as int)), face_counts(cubes@[i as int]));
            }
            let ghost mid = *self;
            let faces = match self.cube_faces(&cubes[i]) {
                Ok(f) => f,
                Err(m) => {
                    proof {
                        lemma_first_bad_split(cubes@, i as int + 1);
                        lemma_grows_trans(&start, &mid, &*self);
                    }
                    return Err(m);
                },
            };
            proof {
                lemma_grows_trans(&start, &mid, &*self);
                assert forall|k: int| 0 <= k < i implies #[trigger] cube_matches(&*self, list@[k].key(), cubes@[k]) by {
                    lemma_cube_matches_grows(&mid, &*self, list@[k].key(), cubes@[k]);
                }
            }
            let cube = Cube { from: cubes[i].from, to: cubes[i].to, faces };
            list.push(cube);
            i = i + 1;
        }
        proof {
            assert(cubes@.take(i as int) =~= cubes@);
        }
        Ok(list)
    }
}

/// Once the faces of a prefix of cubes hold a bad face, all the cubes do, with the same one.
proof fn lemma_first_bad_split(cubes: Seq<RawCube>, n: int)
    requires
        0 <= n <= cubes.len(),
        first_bad_face(cubes_face_counts(cubes.take(n))) is Some,
    ensures
        first_bad_face(cubes_face_counts(cubes)) == first_bad_face(cubes_face_counts(cubes.take(n))),
    decreases cubes.len() - n,
{
    if n < cubes.len() {
        assert(cubes.take(n + 1).drop_last() =~= cubes.take(n));
        lemma_first_bad_concat(cubes_face_counts(cubes.take(n)), face_counts(cubes[n]));
        lemma_first_bad_split(cubes, n + 1);
    } else {
        assert(cubes.take(n) =~= cubes);
    }
}

/// Once the faces of a prefix of parts hold a bad face, all the parts do, with the same one.
proof fn lemma_first_bad_parts_split(parts: Seq<RawPart>, n: int)
    requires
        0 <= n <= parts.len(),
        first_bad_face(parts_face_counts(parts.take(n))) is Some,
    ensures
        first_bad_face(parts_face_counts(parts)) == first_bad_face(parts_face_counts(parts.take(n))),
    decreases parts.len() - n,
{
    if n < parts.len() {
        assert(parts.take(n + 1).drop_last() =~= parts.take(n));
        lemma_first_bad_concat(parts_face_counts(parts.take(n)), cubes_face_counts(parts[n].cubes@));
        lemma_first_bad_parts_split(parts, n + 1);
    } else {
        assert(parts.take(n) =~= parts);
    }
}

/// The number of corners of a quad of each shape.
pub open spec fn corner_count(kind: QuadKind) -> nat {
    match kind {
        QuadKind::Parallelogram => 4,
        QuadKind::Triangle => 3,
    }
}

/// The name of a quad shape.
pub open spec fn quad_kind_name(kind: QuadKind) -> Seq<char> {
    match kind {
        QuadKind::Parallelogram => "Parallelogram"@,
        QuadKind::Triangle => "Triangle"@,
    }
}

/// What is wrong with a captured quad, if anything: a wrong number of corners, or a material
/// index out of range.
pub open spec fn quad_problem(q: RawQuad, materials: usize) -> Option<Seq<char>> {
    let n = corner_count(q.kind);
    if q.positions@.len() != n || q.uvs@.len() != n {
        Some("A "@ + quad_kind_name(q.kind) + " needs "@ + decimal(n as int) + " positions and uvs)"@)
    } else if !(q.material < 256 && q.material < materials) {
        Some(material_range_message(q.material, materials))
    } else {
        None
    }
}

/// The first problem among captured quads, in order.
pub open spec fn first_quad_problem(qs: Seq<RawQuad>, materials: usize) -> Option<Seq<char>>
    decreases qs.len(),
{
    if qs.len() == 0 {
        None
    } else {
        match first_quad_problem(qs.drop_last(), materials) {
            Some(m) => Some(m),
            None => quad_problem(qs.last(), materials),
        }
    }
}

/// A captured quad as pooled: its material, its shape and its first three corners.
pub open spec fn quad_key(q: RawQuad) -> (u8, QuadKind, Seq<Seq<FloatingBits>>, Seq<Seq<FloatingBits>>) {
    (q.material as u8, q.kind, position_rows(q.positions@.take(3)), uv_rows(q.uvs@.take(3)))
}

/// Once a prefix of quads has a problem, the whole run has the same first problem.
proof fn lemma_first_quad_problem_prefix(qs: Seq<RawQuad>, materials: usize, n: int)
    requires
        0 <= n <= qs.len(),
        first_quad_problem(qs.take(n), materials) is Some,
    ensures
        first_quad_problem(qs, materials) == first_quad_problem(qs.take(n), materials),
    decreases qs.len() - n,
{
    if n < qs.len() {
        assert(qs.take(n + 1).drop_last() =~= qs.take(n));
        lemma_first_quad_problem_prefix(qs, materials, n + 1);
    } else {
        assert(qs.take(n) =~= qs);
    }
}

/// What is wrong with a submission, if anything: its material index, a cube face, or a quad.
pub open spec fn draw_problem(sub: RawSubmission, materials: usize) -> Option<Seq<char>> {
    match sub {
        RawSubmission::Model { material, parts, .. } => if !(material < 256 && material < materials) {
            Some(material_range_message(material, materials))
        } else {
            match first_bad_face(parts_face_counts(parts@)) {
                Some(f) => Some(uv_count_message(f)),
                None => None,
            }
        },
        RawSubmission::BlockModel { quads, .. } => first_quad_problem(quads@, materials),
    }
}

/// A draw entry matches a captured submission: same order, its pose, and what it draws.
pub open spec fn draw_matches(p: &Pools, d: Draw, sub: RawSubmission) -> bool {
    match sub {
        RawSubmission::Model { order, material, pose, parts } => {
            &&& d.order == order
            &&& d.pose < p.poses.keys().len()
            &&& p.poses.keys()[d.pose as int] == pose@
            &&& d.geometry matches DrawGeometry::Model { material: m, parts: i } && m == material && parts_ok(p, i, parts@)
        },
        RawSubmission::BlockModel { order, pose, quads } => {
            &&& d.order == order
            &&& d.pose < p.poses.keys().len()
            &&& p.poses.keys()[d.pose as int] == pose@
            &&& d.geometry matches DrawGeometry::BlockModel { quads: i } && i < p.quads.keys().len() && p.quads.keys()[i as int]
                == quads@.map_values(|q: RawQuad| quad_key(q))
        },
    }
}

/// What holds of a draw entry stays true as the pools grow.
pub proof fn lemma_draw_matches_grows(a: &Pools, b: &Pools, d: Draw, sub: RawSubmission)
    requires
        a.grows(b),
        draw_matches(a, d, sub),
    ensures
        draw_matches(b, d, sub),
{
    assert(b.poses.keys()[d.pose as int] == a.poses.keys()[d.pose as int]);
    match d.geometry {
        DrawGeometry::Model { parts: i, .. } => {
            match sub {
                RawSubmission::Model { parts, .. } => lemma_parts_ok_grows(a, b, i, parts@),
                _ => {},
            }
        },
        DrawGeometry::BlockModel { quads: i } => {
            assert(b.quads.keys()[i as int] == a.quads.keys()[i as int]);
        },
    }
}

impl Pools {
    /// The index of a list of model parts, once every cube face has four UVs.
    pub fn model_parts(&mut self, parts: &Vec<RawPart>) -> (r: Result<usize, String>)
        requires
            old(self).wf(),
        ensures
            final(self).wf(),
            old(self).grows(&*final(self)),
            final(self).blocks@ == old(self).blocks@,
            match r {
                Ok(i) => first_bad_face(parts_face_counts(parts@)) is None && parts_ok(&*final(self), i, parts@),
                Err(m) => first_bad_face(parts_face_counts(parts@)) matches Some(f) && m@ == uv_count_message(f),
            },
    {
        let ghost start = *self;
        let mut records: Vec<Part> = Vec::new();
        let mut i: usize = 0;
        while i < parts.len()
            invariant
                i <= parts@.len(),
                start == *old(self),
                self.wf(),
                start.grows(&*self),
                self.blocks@ == start.blocks@,
                records@.len() == i,
                first_bad_face(parts_face_counts(parts@.take(i as int))) is None,
                forall|k: int| 0 <= k < i ==> #[trigger] part_matches(&*self, records@[k], parts@[k]),
            decreases parts.len() - i,
        {
            proof {
                assert(parts@.take(i as int + 1).drop_last() =~= parts@.take(i as int));
                assert(parts@.take(i as int + 1).last() == parts@[i as int]);
                lemma_first_bad_concat(parts_face_counts(parts@.take(i as int)), cubes_face_counts(parts@[i as int].cubes@));
            }
            let ghost s0 = *self;
            let cubes = match self.cube_list(&parts[i].cubes) {
                Ok(c) => c,
                Err(m) => {
                    proof {
                        lemma_first_bad_parts_split(parts@, i as int + 1);
                        lemma_grows_trans(&start, &s0, &*self);
                    }
                    return Err(m);
                },
            };
            let ghost s1 = *self;
            let pose = self.pose(&parts[i].pose);
            let ghost s2 = *self;
            let idx = self.cubes.pool(cubes);
            proof {
                assert(s2.grows(&*self));
                lemma_grows_trans(&s1, &s2, &*self);
                assert forall|k: int| 0 <= k < cubes@.len() implies #[trigger] cube_matches(
                    &*self,
                    self.cubes.keys()[idx as int][k],
                    parts@[i as int].cubes@[k],
                ) by {
                    assert(self.cubes.keys()[idx as int][k] == cubes@[k].key());
                    lemma_cube_matches_grows(&s1, &*self, cubes@[k].key(), parts@[i as int].cubes@[k]);
                }
                assert(cubes_ok(&*self, idx, parts@[i as int].cubes@));
                assert forall|x: int, k: int|
                    0 <= x < self.cubes.keys().len() && 0 <= k < self.cubes.keys()[x].len() implies #[trigger] self.cubes.keys()[x][k].2
                        < self.faces.keys().len() by {
                    if x < s2.cubes.keys().len() {
                        assert(self.cubes.keys()[x] == s2.cubes.keys()[x]);
                    } else {
                        assert(cube_matches(&*self, self.cubes.keys()[idx as int][k], parts@[i as int].cubes@[k]));
                    }
                }
                assert(self.poses.keys()[pose as int] == s2.poses.keys()[pose as int]);
                lemma_grows_trans(&s0, &s1, &*self);
                lemma_grows_trans(&start, &s0, &*self);
                assert forall|k: int| 0 <= k < i implies #[trigger] part_matches(&*self, records@[k], parts@[k]) by {
                    lemma_part_matches_grows(&s0, &*self, records@[k], parts@[k]);
                }
            }
            proof {
                lemma_refs_after_cubes(&s2, &*self);
            }
            records.push(Part { pose, cubes: idx });
            i = i + 1;
        }
        proof {
            assert(parts@.take(i as int) =~= parts@);
        }
        let ghost s3 = *self;
        let idx = self.parts.pool(records);
        proof {
            assert(s3.grows(&*self));
            assert forall|x: int, k: int|
                0 <= x < self.parts.keys().len() && 0 <= k < self.parts.keys()[x].len() implies {
                    &&& #[trigger] self.parts.keys()[x][k].pose < self.poses.keys().len()
                    &&& self.parts.keys()[x][k].cubes < self.cubes.keys().len()
                } by {
                if x < s3.parts.keys().len() {
                    assert(self.parts.keys()[x] == s3.parts.keys()[x]);
                    assert(s3.parts.keys()[x][k].pose < s3.poses.keys().len());
                    assert(s3.parts.keys()[x][k].cubes < s3.cubes.keys().len());
                    assert(self.poses.keys() == s3.poses.keys());
                    assert(self.cubes.keys() == s3.cubes.keys());
                } else {
                    assert(x == idx as int);
                    assert(self.parts.keys()[idx as int][k] == records@[k]);
                    assert(part_matches(&s3, records@[k], parts@[k]));
                    assert(self.poses.keys() == s3.poses.keys());
                    assert(self.cubes.keys() == s3.cubes.keys());
                }
            }
            assert forall|k: int| 0 <= k < parts@.len() implies #[trigger] part_matches(
                &*self,
                self.parts.keys()[idx as int][k],
                parts@[k],
            ) by {
                assert(self.parts.keys()[idx as int][k] == records@[k]);
                lemma_part_matches_grows(&s3, &*self, records@[k], parts@[k]);
            }
        }
        Ok(idx)
    }

    /// The index of a block model's quads, once each has its corners and a material in range.
    pub fn block_model_quads(&mut self, quads: &Vec<RawQuad>, materials: usize) -> (r: Result<usize, String>)
        requires
            old(self).wf(),
        ensures
            final(self).wf(),
            old(self).grows(&*final(self)),
            final(self).blocks@ == old(self).blocks@,
            match r {
                Ok(i) => first_quad_problem(quads@, materials) is None && i < final(self).quads.keys().len()
                    && final(self).quads.keys()[i as int] == quads@.map_values(|q: RawQuad| quad_key(q)),
                Err(m) => first_quad_problem(quads@, materials) == Some(m@),
            },
    {
        let mut records: Vec<Quad> = Vec::new();
        let mut i: usize = 0;
        while i < quads.len()
            invariant
                i <= quads@.len(),
                *self == *old(self),
                self.wf(),
                first_quad_problem(quads@.take(i as int), materials) is None,
                records@.map_values(|q: Quad| q.key()) == quads@.take(i as int).map_values(|q: RawQuad| quad_key(q)),
            decreases quads.len() - i,
        {
            let quad = &quads[i];
            proof {
                assert(quads@.take(i as int + 1).drop_last() =~= quads@.take(i as int));
                assert(quads@.take(i as int + 1).last() == *quad);
            }
            let vertices: usize = match quad.kind {
                QuadKind::Parallelogram => 4,
                QuadKind::Triangle => 3,
            };
            if quad.positions.len() != vertices || quad.uvs.len() != vertices {
                let mut m = "A ".to_owned();
                match quad.kind {
                    QuadKind::Parallelogram => push_str(&mut m, "Parallelogram"),
                    QuadKind::Triangle => push_str(&mut m, "Triangle"),
                }
                push_str(&mut m, " needs ");
                push_digits(&mut m, vertices as u64);
                push_str(&mut m, " positions and uvs)");
                proof {
                    lemma_first_quad_problem_prefix(quads@, materials, i as int + 1);
                }
                return Err(m);
            }
            let material = match local_material(materials, quad.material) {
                Ok(x) => x,
                Err(m) => {
                    proof {
                        lemma_first_quad_problem_prefix(quads@, materials, i as int + 1);
                    }
                    return Err(m);
                },
            };
            let p = &quad.positions;
            let u = &quad.uvs;
            let record = Quad { material, kind: quad.kind, positions: [p[0], p[1], p[2]], uvs: [u[0], u[1], u[2]] };
            proof {
                assert(record.positions@ =~= p@.take(3));
                assert(record.uvs@ =~= u@.take(3));
                assert(record.key() == quad_key(*quad));
            }
            let ghost before = records@;
            records.push(record);
            proof {
                assert(records@.map_values(|q: Quad| q.key()) =~= before.map_values(|q: Quad| q.key()).push(record.key()));
                assert(quads@.take(i as int + 1).map_values(|q: RawQuad| quad_key(q)) =~= quads@.take(i as int).map_values(
                    |q: RawQuad| quad_key(q),
                ).push(quad_key(*quad)));
            }
            i = i + 1;
        }
        proof {
            assert(quads@.take(i as int) =~= quads@);
        }
        let ghost before = *self;
        let idx = self.quads.pool(records);
        proof {
            assert(before.grows(&*self));
        }
        Ok(idx)
    }

    /// The draw entry of a submission: its material index checked, and its geometry pooled.
    pub fn draw(&mut self, sub: &RawSubmission, materials: usize) -> (r: Result<Draw, String>)
        requires
            old(self).wf(),
        ensures
            final(self).wf(),
            old(self).grows(&*final(self)),
            final(self).blocks@ == old(self).blocks@,
            match r {
                Ok(d) => draw_problem(*sub, materials) is None && draw_matches(&*final(self), d, *sub) && draw_refs_ok(
                    d,
                    final(self).poses.keys().len(),
                    final(self).parts.keys().len(),
                    final(self).quads.keys().len(),
                ),
                Err(m) => draw_problem(*sub, materials) == Some(m@),
            },
    {
        let ghost start = *self;
        match sub {
            RawSubmission::Model { order, material, pose, parts } => {
                let m = local_material(materials, *material)?;
                let parts_idx = self.model_parts(parts)?;
                let ghost s1 = *self;
                let pose_idx = self.pose(pose);
                let d = Draw { order: *order, pose: pose_idx, geometry: DrawGeometry::Model { material: m, parts: parts_idx } };
                proof {
                    lemma_parts_ok_grows(&s1, &*self, parts_idx, parts@);
                    lemma_grows_trans(&start, &s1, &*self);
                }
                Ok(d)
            },
            RawSubmission::BlockModel { order, pose, quads } => {
                let q = self.block_model_quads(quads, materials)?;
                let ghost s1 = *self;
                let pose_idx = self.pose(pose);
                let d = Draw { order: *order, pose: pose_idx, geometry: DrawGeometry::BlockModel { quads: q } };
                proof {
                    assert(self.quads.keys()[q as int] == s1.quads.keys()[q as int]);
                    lemma_grows_trans(&start, &s1, &*self);
                }
                Ok(d)
            },
        }
    }
}

/// An optional string by value.
pub open spec fn opt_view(o: Option<String>) -> Option<Seq<char>> {
    match o {
        Some(s) => Some(s@),
        None => None,
    }
}

/// A material's tint color: none, or `#` and a hexadecimal number.
pub open spec fn tint_color_field(t: Option<String>) -> Result<Option<u32>, Seq<char>> {
    match t {
        None => Ok(None),
        Some(h) => match if h@.len() > 0 && h@[0] == '#' { parse_hex_u32(h@.drop_first()) } else { None } {
            Some(c) => Ok(Some(c)),
            None => Err("invalid tint color: "@ + h@),
        },
    }
}

/// A material's tint index: none, or one that fits a byte.
pub open spec fn tint_index_field(t: Option<i32>) -> Result<Option<u8>, Seq<char>> {
    match t {
        None => Ok(None),
        Some(x) => if 0 <= x < 256 {
            Ok(Some(x as u8))
        } else {
            Err("tint index "@ + decimal(x as int) + " is out of range"@)
        },
    }
}

/// A captured material as pooled, or the first of its fields that is wrong: the texture,
/// then the tint color, then the tint index.
pub open spec fn material_fields(raw: RawMaterial) -> Result<MaterialKey, Seq<char>> {
    match material_texture(opt_view(raw.texture.sprite), opt_view(raw.texture.path)) {
        Err(e) => Err(e),
        Ok(texture) => match tint_color_field(raw.tint_color) {
            Err(e) => Err(e),
            Ok(tint_color) => match tint_index_field(raw.tint_index) {
                Err(e) => Err(e),
                Ok(tint_index) => Ok(
                    MaterialKey {
                        texture,
                        pipeline: raw.pipeline@,
                        cull: raw.cull,
                        blend: raw.blend,
                        depth_write: raw.depth_write,
                        alpha_cutout: raw.alpha_cutout,
                        depth_bias: match raw.depth_bias {
                            Some(x) => Some(x@),
                            None => None,
                        },
                        layering: raw.layering,
                        tint_index,
                        tint_color,
                        shade: raw.shade,
                        light_emission: raw.light_emission,
                    },
                ),
            },
        },
    }
}

impl Pools {
    /// The index of a captured material, once its texture, tint color and tint index are valid.
    pub fn material(&mut self, raw: &RawMaterial) -> (r: Result<usize, String>)
        requires
            old(self).wf(),
        ensures
            final(self).wf(),
            old(self).grows(&*final(self)),
            final(self).blocks@ == old(self).blocks@,
            match r {
                Ok(i) => material_fields(*raw) matches Ok(k) && i < final(self).materials.keys().len()
                    && final(self).materials.keys()[i as int] == k,
                Err(m) => material_fields(*raw) == Err::<MaterialKey, Seq<char>>(m@),
            },
    {
        let texture = texture_of(&raw.texture.sprite, &raw.texture.path)?;
        let tint_color = match &raw.tint_color {
            None => None,
            Some(h) => Some(tint_color_of(h)?),
        };
        let tint_index = match raw.tint_index {
            None => None,
            Some(x) => Some(tint_index_of(x)?),
        };
        let material = Material {
            texture,
            pipeline: raw.pipeline.clone(),
            cull: raw.cull,
            blend: raw.blend,
            depth_write: raw.depth_write,
            alpha_cutout: raw.alpha_cutout,
            depth_bias: raw.depth_bias,
            layering: raw.layering,
            tint_index,
            tint_color,
            shade: raw.shade,
            light_emission: raw.light_emission,
        };
        let ghost before = *self;
        let i = self.materials.pool(material);
        proof {
            assert(before.grows(&*self));
        }
        Ok(i)
    }
}

/// The first material whose fields are wrong, in order.
pub open spec fn first_material_problem(ms: Seq<RawMaterial>) -> Option<Seq<char>>
    decreases ms.len(),
{
    if ms.len() == 0 {
        None
    } else {
        match first_material_problem(ms.drop_last()) {
            Some(m) => Some(m),
            None => match material_fields(ms.last()) {
                Err(e) => Some(e),
                Ok(_) => None,
            },
        }
    }
}

/// Pooled material list `i` holds the captured materials, in order.
pub open spec fn materials_ok(p: &Pools, i: usize, ms: Seq<RawMaterial>) -> bool {
    &&& i < p.material_lists.keys().len()
    &&& p.material_lists.keys()[i as int].len() == ms.len()
    &&& forall|k: int| 0 <= k < ms.len() ==> #[trigger] material_at(p, p.material_lists.keys()[i as int][k], ms[k])
}

/// Pooled material `i` is the captured material.
pub open spec fn material_at(p: &Pools, i: usize, raw: RawMaterial) -> bool {
    &&& i < p.materials.keys().len()
    &&& material_fields(raw) == Ok::<MaterialKey, Seq<char>>(p.materials.keys()[i as int])
}

/// What a state submits: nothing when nothing was captured.
pub open spec fn submissions(st: RawState) -> Seq<RawSubmission> {
    match st.capture {
        Some(v) => v@,
        None => Seq::empty(),
    }
}

/// The first problem among submissions, in order.
pub open spec fn first_draw_problem(subs: Seq<RawSubmission>, materials: usize) -> Option<Seq<char>>
    decreases subs.len(),
{
    if subs.len() == 0 {
        None
    } else {
        match first_draw_problem(subs.drop_last(), materials) {
            Some(m) => Some(m),
            None => draw_problem(subs.last(), materials),
        }
    }
}

/// The first problem among the submissions of the states, in order.
pub open spec fn first_state_problem(states: Seq<(String, RawState)>, materials: usize) -> Option<Seq<char>>
    decreases states.len(),
{
    if states.len() == 0 {
        None
    } else {
        match first_state_problem(states.drop_last(), materials) {
            Some(m) => Some(m),
            None => first_draw_problem(submissions(states.last().1), materials),
        }
    }
}

/// Pooled draw list `i` holds a state's submissions, in order.
pub open spec fn draws_ok(p: &Pools, i: usize, subs: Seq<RawSubmission>) -> bool {
    &&& i < p.draws.keys().len()
    &&& p.draws.keys()[i as int].len() == subs.len()
    &&& forall|j: int| 0 <= j < subs.len() ==> #[trigger] draw_matches(p, p.draws.keys()[i as int][j], subs[j])
}

/// A state's record: its render shape, and a draw list that holds its submissions.
pub open spec fn record_matches(p: &Pools, r: StateRecord, st: RawState) -> bool {
    &&& r.render_shape == st.render_shape
    &&& draws_ok(p, r.draws, submissions(st))
}

/// The records of the states, in order.
pub open spec fn records_match(p: &Pools, records: Seq<StateRecord>, states: Seq<(String, RawState)>) -> bool {
    &&& records.len() == states.len()
    &&& forall|k: int| 0 <= k < states.len() ==> #[trigger] record_matches(p, records[k], states[k].1)
}

/// What holds of a pooled draw list stays true as the pools grow.
pub proof fn lemma_draws_ok_grows(a: &Pools, b: &Pools, i: usize, subs: Seq<RawSubmission>)
    requires
        a.grows(b),
        draws_ok(a, i, subs),
    ensures
        draws_ok(b, i, subs),
{
    assert(b.draws.keys()[i as int] == a.draws.keys()[i as int]);
    assert forall|j: int| 0 <= j < subs.len() implies #[trigger] draw_matches(b, b.draws.keys()[i as int][j], subs[j]) by {
        lemma_draw_matches_grows(a, b, a.draws.keys()[i as int][j], subs[j]);
    }
}

/// Once a prefix of submissions has a problem, all of them have the same first problem.
proof fn lemma_first_draw_problem_prefix(subs: Seq<RawSubmission>, materials: usize, n: int)
    requires
        0 <= n <= subs.len(),
        first_draw_problem(subs.take(n), materials) is Some,
    ensures
        first_draw_problem(subs, materials) == first_draw_problem(subs.take(n), materials),
    decreases subs.len() - n,
{
    if n < subs.len() {
        assert(subs.take(n + 1).drop_last() =~= subs.take(n));
        lemma_first_draw_problem_prefix(subs, materials, n + 1);
    } else {
        assert(subs.take(n) =~= subs);
    }
}

/// Once a prefix of states has a problem, all of them have the same first problem.
proof fn lemma_first_state_problem_prefix(states: Seq<(String, RawState)>, materials: usize, n: int)
    requires
        0 <= n <= states.len(),
        first_state_problem(states.take(n), materials) is Some,
    ensures
        first_state_problem(states, materials) == first_state_problem(states.take(n), materials),
    decreases states.len() - n,
{
    if n < states.len() {
        assert(states.take(n + 1).drop_last() =~= states.take(n));
        lemma_first_state_problem_prefix(states, materials, n + 1);
    } else {
        assert(states.take(n) =~= states);
    }
}

/// Once a prefix of materials has a problem, all of them have the same first problem.
proof fn lemma_first_material_problem_prefix(ms: Seq<RawMaterial>, n: int)
    requires
        0 <= n <= ms.len(),
        first_material_problem(ms.take(n)) is Some,
    ensures
        first_material_problem(ms) == first_material_problem(ms.take(n)),
    decreases ms.len() - n,
{
    if n < ms.len() {
        assert(ms.take(n + 1).drop_last() =~= ms.take(n));
        lemma_first_material_problem_prefix(ms, n + 1);
    } else {
        assert(ms.take(n) =~= ms);
    }
}

impl Pools {
    /// The indices of a block's materials, in order.
    fn block_materials(&mut self, materials: &Vec<RawMaterial>) -> (r: Result<Vec<usize>, String>)
        requires
            old(self).wf(),
        ensures
            final(self).wf(),
            old(self).grows(&*final(self)),
            final(self).blocks@ == old(self).blocks@,
            match r {
                Ok(v) => first_material_problem(materials@) is None && v@.len() == materials@.len() && forall|k: int|
                    0 <= k < materials@.len() ==> #[trigger] material_at(&*final(self), v@[k], materials@[k]),
                Err(m) => first_material_problem(materials@) == Some(m@),
            },
    {
        let ghost start = *self;
        let mut out: Vec<usize> = Vec::new();
        let mut i: usize = 0;
        while i < materials.len()
            invariant
                i <= materials@.len(),
                start == *old(self),
                self.wf(),
                start.grows(&*self),
                self.blocks@ == start.blocks@,
                out@.len() == i,
                first_material_problem(materials@.take(i as int)) is None,
                forall|k: int| 0 <= k < i ==> #[trigger] material_at(&*self, out@[k], materials@[k]),
            decreases materials.len() - i,
        {
            proof {
                assert(materials@.take(i as int + 1).drop_last() =~= materials@.take(i as int));
                assert(materials@.take(i as int + 1).last() == materials@[i as int]);
            }
            let ghost s0 = *self;
            let idx = match self.material(&materials[i]) {
                Ok(x) => x,
                Err(m) => {
                    proof {
                        lemma_first_material_problem_prefix(materials@, i as int + 1);
                        lemma_grows_trans(&start, &s0, &*self);
                    }
                    return Err(m);
                },
            };
            proof {
                lemma_grows_trans(&start, &s0, &*self);
                assert forall|k: int| 0 <= k < i implies #[trigger] material_at(&*self, out@[k], materials@[k]) by {
                    assert(material_at(&s0, out@[k], materials@[k]));
                    assert(self.materials.keys()[out@[k] as int] == s0.materials.keys()[out@[k] as int]);
                }
            }
            out.push(idx);
            i = i + 1;
        }
        proof {
            assert(materials@.take(i as int) =~= materials@);
        }
        Ok(out)
    }

    /// The index of a state's draw list, once each submission is valid.
    fn state_draws(&mut self, st: &RawState, materials: usize) -> (r: Result<usize, String>)
        requires
            old(self).wf(),
        ensures
            final(self).wf(),
            old(self).grows(&*final(self)),
            final(self).blocks@ == old(self).blocks@,
            match r {
                Ok(i) => first_draw_problem(submissions(*st), materials) is None && draws_ok(&*final(self), i, submissions(*st)),
                Err(m) => first_draw_problem(submissions(*st), materials) == Some(m@),
            },
    {
        let ghost start = *self;
        let ghost subs = submissions(*st);
        let empty: Vec<RawSubmission> = Vec::new();
        let list = match &st.capture {
            Some(v) => v,
            None => &empty,
        };
        assert(list@ == subs);
        let mut out: Vec<Draw> = Vec::new();
        let mut i: usize = 0;
        while i < list.len()
            invariant
                i <= list@.len(),
                list@ == subs,
                subs == submissions(*st),
                start == *old(self),
                self.wf(),
                start.grows(&*self),
                self.blocks@ == start.blocks@,
                out@.len() == i,
                first_draw_problem(subs.take(i as int), materials) is None,
                forall|k: int| 0 <= k < i ==> #[trigger] draw_matches(&*self, out@[k], subs[k]),
                forall|k: int| 0 <= k < i ==> draw_refs_ok(
                    #[trigger] out@[k],
                    self.poses.keys().len(),
                    self.parts.keys().len(),
                    self.quads.keys().len(),
                ),
            decreases list.len() - i,
        {
            proof {
                assert(subs.take(i as int + 1).drop_last() =~= subs.take(i as int));
                assert(subs.take(i as int + 1).last() == subs[i as int]);
            }
            let ghost s0 = *self;
            let d = match self.draw(&list[i], materials) {
                Ok(d) => d,
                Err(m) => {
                    proof {
                        lemma_first_draw_problem_prefix(subs, materials, i as int + 1);
                        lemma_grows_trans(&start, &s0, &*self);
                    }
                    return Err(m);
                },
            };
            proof {
                lemma_grows_trans(&start, &s0, &*self);
                assert forall|k: int| 0 <= k < i implies #[trigger] draw_matches(&*self, out@[k], subs[k]) by {
                    lemma_draw_matches_grows(&s0, &*self, out@[k], subs[k]);
                }
            }
            out.push(d);
            i = i + 1;
        }
        proof {
            assert(subs.take(i as int) =~= subs);
        }
        let ghost s1 = *self;
        let idx = self.draws.pool(out);
        proof {
            assert(s1.grows(&*self));
            assert forall|x: int, k: int|
                0 <= x < self.draws.keys().len() && 0 <= k < self.draws.keys()[x].len() implies draw_refs_ok(
                    #[trigger] self.draws.keys()[x][k],
                    self.poses.keys().len(),
                    self.parts.keys().len(),
                    self.quads.keys().len(),
                ) by {
                if x < s1.draws.keys().len() {
                    assert(self.draws.keys()[x] == s1.draws.keys()[x]);
                    assert(draw_refs_ok(s1.draws.keys()[x][k], s1.poses.keys().len(), s1.parts.keys().len(), s1.quads.keys().len()));
                } else {
                    assert(self.draws.keys()[idx as int][k] == out@[k]);
                }
            }
            assert forall|j: int| 0 <= j < subs.len() implies #[trigger] draw_matches(&*self, self.draws.keys()[idx as int][j], subs[j]) by {
                assert(self.draws.keys()[idx as int][j] == out@[j]);
                lemma_draw_matches_grows(&s1, &*self, out@[j], subs[j]);
            }
        }
        Ok(idx)
    }

    /// The records of a block's states, in order, each state's draw list pooled.
    fn state_records(&mut self, states: &Vec<(String, RawState)>, materials: usize) -> (r: Result<Vec<StateRecord>, String>)
        requires
            old(self).wf(),
        ensures
            final(self).wf(),
            old(self).grows(&*final(self)),
            final(self).blocks@ == old(self).blocks@,
            match r {
                Ok(v) => first_state_problem(states@, materials) is None && records_match(&*final(self), v@, states@),
                Err(m) => first_state_problem(states@, materials) == Some(m@),
            },
    {
        let ghost start = *self;
        let mut out: Vec<StateRecord> = Vec::new();
        let mut i: usize = 0;
        while i < states.len()
            invariant
                i <= states@.len(),
                start == *old(self),
                self.wf(),
                start.grows(&*self),
                self.blocks@ == start.blocks@,
                out@.len() == i,
                first_state_problem(states@.take(i as int), materials) is None,
                forall|k: int| 0 <= k < i ==> #[trigger] record_matches(&*self, out@[k], states@[k].1),
            decreases states.len() - i,
        {
            proof {
                assert(states@.take(i as int + 1).drop_last() =~= states@.take(i as int));
                assert(states@.take(i as int + 1).last() == states@[i as int]);
            }
            let ghost s0 = *self;
            let idx = match self.state_draws(&states[i].1, materials) {
                Ok(x) => x,
                Err(m) => {
                    proof {
                        lemma_first_state_problem_prefix(states@, materials, i as int + 1);
                        lemma_grows_trans(&start, &s0, &*self);
                    }
                    return Err(m);
                },
            };
            proof {
                lemma_grows_trans(&start, &s0, &*self);
                assert forall|k: int| 0 <= k < i implies #[trigger] record_matches(&*self, out@[k], states@[k].1) by {
                    assert(record_matches(&s0, out@[k], states@[k].1));
                    lemma_draws_ok_grows(&s0, &*self, out@[k].draws, submissions(states@[k].1));
                }
            }
            out.push(StateRecord { render_shape: states[i].1.render_shape, draws: idx });
            i = i + 1;
        }
        proof {
            assert(states@.take(i as int) =~= states@);
        }
        Ok(out)
    }
}

/// The keys of a file's states, in order.
pub open spec fn state_keys(file: RawBlockFile) -> Seq<Seq<char>> {
    file.states@.map_values(|e: (String, RawState)| e.0@)
}

/// What is wrong with a captured block file, if anything: its state keys, then its materials,
/// then its states' submissions.
pub open spec fn block_error(file: RawBlockFile) -> Option<Seq<char>> {
    match grid_from(state_keys(file), 0, Seq::empty(), Seq::empty()) {
        Err(m) => Some(m),
        Ok(_) => match first_material_problem(file.materials@) {
            Some(m) => Some(m),
            None => first_state_problem(file.states@, file.materials@.len() as usize),
        },
    }
}

/// For each property, whether the records change along it.
pub open spec fn relevance(props: Seq<Seq<char>>, rows: Seq<Seq<Seq<char>>>, records: Seq<StateRecord>) -> Seq<bool> {
    Seq::new(props.len(), |c: int| !column_irrelevant(rows, records, c))
}

/// Each row's key with only the relevant properties.
pub open spec fn short_keys(props: Seq<Seq<char>>, rows: Seq<Seq<Seq<char>>>, relevant: Seq<bool>) -> Seq<Seq<char>> {
    Seq::new(rows.len(), |i: int| state_key(props, rows[i], relevant))
}

/// The entries of a table: each key once, in strict lexicographic order, with its value.
pub open spec fn sorted_entries(cs: Seq<(Seq<char>, StateRecord)>, m: Map<Seq<char>, StateRecord>) -> bool {
    &&& strictly_sorted(cs.map_values(|e: (Seq<char>, StateRecord)| e.0))
    &&& cs.map_values(|e: (Seq<char>, StateRecord)| e.0).to_set() == m.dom()
    &&& forall|i: int| 0 <= i < cs.len() ==> (#[trigger] cs[i]).1 == m[cs[i].0]
}

/// What reading a block file leaves in `after`, given the records of its states and its
/// states' entries by key: when no state is kept, the blocks as they were; else one block
/// more, with the file's block id, its relevant properties, its kept states and its materials.
pub open spec fn block_outcome(
    p: &Pools,
    file: RawBlockFile,
    records: Seq<StateRecord>,
    cs: Seq<(Seq<char>, StateRecord)>,
    before: Seq<Block>,
    after: Seq<Block>,
) -> bool {
    match grid_from(state_keys(file), 0, Seq::empty(), Seq::empty()) {
        Err(_) => false,
        Ok(grid) => {
            let relevant = relevance(grid.0, grid.1, records);
            let kept = kept_states(cs, p.draws.keys());
            &&& sorted_entries(cs, collapsed(short_keys(grid.0, grid.1, relevant), records))
            &&& if kept.len() == 0 {
                after == before
            } else {
                &&& after.len() == before.len() + 1
                &&& after.drop_last() == before
                &&& (after.last().namespace@, after.last().path@) == block_name(file.block@)
                &&& after.last().properties < p.property_lists.keys().len()
                &&& p.property_lists.keys()[after.last().properties as int] == relevant_of(grid.0, relevant)
                &&& after.last().states < p.states.keys().len()
                &&& p.states.keys()[after.last().states as int] == kept
                &&& materials_ok(p, after.last().materials, file.materials@)
            }
        },
    }
}

/// What reading a block file did to the pools: for some records of its states, and its
/// states' entries by key, the outcome described by [`block_outcome`].
pub open spec fn block_read(before: &Pools, after: &Pools, file: RawBlockFile) -> bool {
    exists|records: Seq<StateRecord>, cs: Seq<(Seq<char>, StateRecord)>|
        records_match(after, records, file.states@) && #[trigger] block_outcome(after, file, records, cs, before.blocks@, after.blocks@)
}

/// Every value of a collapsed table is one of the records.
proof fn lemma_collapsed_bound(keys: Seq<Seq<char>>, records: Seq<StateRecord>, bound: nat)
    requires
        forall|j: int| 0 <= j < records.len() ==> (#[trigger] records[j]).draws < bound,
    ensures
        forall|k: Seq<char>| #[trigger] collapsed(keys, records).dom().contains(k) ==> collapsed(keys, records)[k].draws < bound,
    decreases keys.len(),
{
    if keys.len() > 0 && records.len() > 0 {
        let n = if keys.len() < records.len() { keys.len() } else { records.len() };
        let ks = keys.take(n as int);
        let rs = records.take(n as int);
        assert forall|j: int| 0 <= j < rs.drop_last().len() implies (#[trigger] rs.drop_last()[j]).draws < bound by {
            assert(rs.drop_last()[j] == records[j]);
        }
        lemma_collapsed_bound(ks.drop_last(), rs.drop_last(), bound);
        assert(rs.last() == records[n - 1]);
    }
}

/// Every kept state refers to a draw list of one of the entries.
proof fn lemma_kept_bound(cs: Seq<(Seq<char>, StateRecord)>, dl: Seq<Seq<Draw>>, bound: nat)
    requires
        forall|i: int| 0 <= i < cs.len() ==> (#[trigger] cs[i]).1.draws < bound,
    ensures
        forall|x: int| 0 <= x < kept_states(cs, dl).len() ==> (#[trigger] kept_states(cs, dl)[x]).2 < bound,
    decreases cs.len(),
{
    if cs.len() > 0 {
        assert forall|i: int| 0 <= i < cs.drop_last().len() implies (#[trigger] cs.drop_last()[i]).1.draws < bound by {
            assert(cs.drop_last()[i] == cs[i]);
        }
        lemma_kept_bound(cs.drop_last(), dl, bound);
        assert(cs.last() == cs[cs.len() - 1]);
        let before = kept_states(cs.drop_last(), dl);
        assert forall|x: int| 0 <= x < kept_states(cs, dl).len() implies (#[trigger] kept_states(cs, dl)[x]).2 < bound by {
            if x < before.len() {
                assert(kept_states(cs, dl)[x] == before[x]);
            }
        }
    }
}

impl Pools {
    /// Reads a captured block file into the pools: its state keys into a grid, its materials,
    /// and each state's submissions; then keeps the properties that change what is drawn, one
    /// state per distinct key, and adds a block entry unless no state is left to draw.
    pub fn block(&mut self, file: &RawBlockFile) -> (r: Result<(), String>)
        requires
            old(self).wf(),
        ensures
            final(self).wf(),
            old(self).grows(&*final(self)),
            match r {
                Err(m) => block_error(*file) == Some(m@),
                Ok(_) => block_error(*file) is None && block_read(&*old(self), &*final(self), *file),
            },
    {
        let ghost start = *self;
        let ghost sk = state_keys(*file);
        let (namespace, block_path) = split_block_id(file.block.as_str());
        let mut keys: Vec<String> = Vec::new();
        let mut i: usize = 0;
        while i < file.states.len()
            invariant
                i <= file.states@.len(),
                sk == state_keys(*file),
                views(keys@) == sk.take(i as int),
            decreases file.states.len() - i,
        {
            let ghost before = views(keys@);
            keys.push(file.states[i].0.clone());
            proof {
                assert(views(keys@) =~= before.push(file.states@[i as int].0@));
                assert(sk.take(i as int + 1) =~= sk.take(i as int).push(sk[i as int]));
            }
            i = i + 1;
        }
        proof {
            assert(sk.take(i as int) =~= sk);
        }
        let grid = StateGrid::parse(&keys)?;
        let ghost props = grid.view_pair().0;
        let ghost rows = grid.view_pair().1;
        let materials = self.block_materials(&file.materials)?;
        let ghost s1 = *self;
        let records = self.state_records(&file.states, materials.len())?;
        let ghost s2 = *self;
        proof {
            lemma_grows_trans(&start, &s1, &s2);
            assert forall|k: int| 0 <= k < file.materials@.len() implies #[trigger] material_at(&s2, materials@[k], file.materials@[k]) by {
                assert(material_at(&s1, materials@[k], file.materials@[k]));
                assert(s2.materials.keys()[materials@[k] as int] == s1.materials.keys()[materials@[k] as int]);
            }
        }
        let relevant = grid.relevant(records.as_slice());
        proof {
            assert(relevant@ =~= relevance(props, rows, records@));
        }
        let short = grid.keys(relevant.as_slice());
        proof {
            assert(views(short@) =~= short_keys(props, rows, relevant@));
        }
        let ghost table = collapsed(views(short@), records@);
        let entries = collapse_states(short, &records);
        let ghost cs = entries@.map_values(|e: (String, StateRecord)| (e.0@, e.1));
        proof {
            assert(cs.map_values(|e: (Seq<char>, StateRecord)| e.0) =~= entries@.map_values(|e: (String, StateRecord)| e.0@));
            assert forall|x: int| 0 <= x < cs.len() implies (#[trigger] cs[x]).1 == table[cs[x].0] by {
                assert(cs[x] == (entries@[x].0@, entries@[x].1));
            }
            assert(sorted_entries(cs, table));
            assert forall|j: int| 0 <= j < records@.len() implies (#[trigger] records@[j]).draws < self.draws.keys().len() by {
                assert(record_matches(&*self, records@[j], file.states@[j].1));
            }
            lemma_collapsed_bound(views(short@), records@, self.draws.keys().len());
            assert forall|x: int| 0 <= x < entries@.len() implies (#[trigger] entries@[x]).1.draws < self.draws.keys().len() by {
                assert(cs[x] == (entries@[x].0@, entries@[x].1));
                assert(cs.map_values(|e: (Seq<char>, StateRecord)| e.0)[x] == cs[x].0);
                assert(table.dom().contains(cs[x].0));
            }
        }
        let states = block_states(entries, &self.draws);
        let ghost kept = kept_states(cs, self.draws.keys());
        proof {
            assert(states@.map_values(|st: State| st.key()) =~= kept);
        }
        if states.len() == 0 {
            proof {
                assert(kept.len() == 0);
                assert(block_outcome(&*self, *file, records@, cs, start.blocks@, self.blocks@));
            }
            return Ok(());
        }
        let props_kept = relevant_properties(&grid.properties, &relevant);
        proof {
            assert(grid.properties@.map_values(|p: String| p@) =~= props);
            assert(props_kept@.map_values(|x: String| x.key()) =~= props_kept@.map_values(|p: String| p@));
        }
        let ghost s3 = *self;
        let properties = self.property_lists.pool(props_kept);
        let ghost s4 = *self;
        let states_idx = self.states.pool(states);
        let ghost s5 = *self;
        let materials_idx = self.material_lists.pool(materials);
        let ghost s6 = *self;
        proof {
            assert(s3.grows(&s4));
            assert(s4.grows(&s5));
            assert(s5.grows(&s6));
            lemma_grows_trans(&s3, &s4, &s5);
            lemma_grows_trans(&s3, &s5, &s6);
            lemma_grows_trans(&start, &s2, &s6);
            lemma_kept_bound(cs, s3.draws.keys(), s3.draws.keys().len());
            assert forall|x: int, k: int|
                0 <= x < s6.states.keys().len() && 0 <= k < s6.states.keys()[x].len() implies #[trigger] s6.states.keys()[x][k].2
                    < s6.draws.keys().len() by {
                if x < s4.states.keys().len() {
                    assert(s6.states.keys()[x] == s4.states.keys()[x]);
                    assert(s4.states.keys()[x][k].2 < s4.draws.keys().len());
                } else {
                    assert(s6.states.keys()[x] == kept);
                    assert(kept[k].2 < s3.draws.keys().len());
                }
            }
            assert forall|x: int, k: int|
                0 <= x < s6.material_lists.keys().len() && 0 <= k < s6.material_lists.keys()[x].len() implies #[trigger] s6.material_lists.keys()[x][k]
                    < s6.materials.keys().len() by {
                if x < s5.material_lists.keys().len() {
                    assert(s6.material_lists.keys()[x] == s5.material_lists.keys()[x]);
                    assert(s5.material_lists.keys()[x][k] < s5.materials.keys().len());
                } else {
                    assert(s6.material_lists.keys()[x][k] == materials@[k]);
                    assert(material_at(&s2, materials@[k], file.materials@[k]));
                }
            }
            assert forall|k: int| 0 <= k < file.materials@.len() implies #[trigger] material_at(
                &s6,
                s6.material_lists.keys()[materials_idx as int][k],
                file.materials@[k],
            ) by {
                assert(s6.material_lists.keys()[materials_idx as int][k] == materials@[k]);
                assert(material_at(&s2, materials@[k], file.materials@[k]));
            }
        }
        let ghost before_blocks = self.blocks@;
        self.blocks.push(Block { namespace, path: block_path, properties, states: states_idx, materials: materials_idx });
        proof {
            assert(self.blocks@.drop_last() =~= before_blocks);
            assert forall|x: int, k: int|
                0 <= x < self.draws.keys().len() && 0 <= k < self.draws.keys()[x].len() implies draw_refs_ok(
                    #[trigger] self.draws.keys()[x][k],
                    self.poses.keys().len(),
                    self.parts.keys().len(),
                    self.quads.keys().len(),
                ) by {
                assert(self.draws.keys() == s2.draws.keys());
                assert(draw_refs_ok(s2.draws.keys()[x][k], s2.poses.keys().len(), s2.parts.keys().len(), s2.quads.keys().len()));
            }
            assert forall|j: int| 0 <= j < file.states@.len() implies #[trigger] record_matches(&*self, records@[j], file.states@[j].1) by {
                assert(record_matches(&s2, records@[j], file.states@[j].1));
                lemma_draws_ok_grows(&s2, &*self, records@[j].draws, submissions(file.states@[j].1));
            }
            assert(self.draws.keys() == s3.draws.keys());
            assert(grid_from(state_keys(*file), 0, Seq::empty(), Seq::empty()) == Ok::<(Seq<Seq<char>>, Seq<Seq<Seq<char>>>), Seq<char>>((props, rows)));
            assert(kept.len() > 0);
            assert(self.blocks@.len() == start.blocks@.len() + 1);
            assert(self.blocks@.drop_last() == start.blocks@);
            assert((self.blocks@.last().namespace@, self.blocks@.last().path@) == block_name(file.block@));
            assert(self.property_lists.keys()[properties as int] == relevant_of(props, relevance(props, rows, records@)));
            assert(self.states.keys()[states_idx as int] == kept);
            assert forall|k: int| 0 <= k < file.materials@.len() implies #[trigger] material_at(
                &*self,
                self.material_lists.keys()[materials_idx as int][k],
                file.materials@[k],
            ) by {
                assert(material_at(&s6, s6.material_lists.keys()[materials_idx as int][k], file.materials@[k]));
            }
            assert(materials_ok(&*self, materials_idx, file.materials@));
            assert forall|b: int| 0 <= b < self.blocks@.len() implies {
                &&& #[trigger] self.blocks@[b].properties < self.property_lists.keys().len()
                &&& self.blocks@[b].states < self.states.keys().len()
                &&& self.blocks@[b].materials < self.material_lists.keys().len()
            } by {
                if b < before_blocks.len() {
                    assert(self.blocks@[b] == s2.blocks@[b]);
                    assert(s2.blocks@[b].properties < s2.property_lists.keys().len());
                    assert(s2.blocks@[b].states < s2.states.keys().len());
                    assert(s2.blocks@[b].materials < s2.material_lists.keys().len());
                }
            }
            assert(block_outcome(&*self, *file, records@, cs, start.blocks@, self.blocks@));
        }
        Ok(())
    }

    /// Sorts the block entries by id; two entries with the same id are an error naming the
    /// smallest such id as `namespace:path` (see [`finish_blocks`]).
    pub fn finish(&mut self) -> (r: Result<(), String>)
        requires
            old(self).wf(),
        ensures
            final(self).wf(),
            old(self).grows(&*final(self)),
            blocks_sorted(final(self).blocks@),
            final(self).blocks@.map_values(|b: Block| block_view(b)).to_multiset() == old(self).blocks@.map_values(
                |b: Block| block_view(b),
            ).to_multiset(),
            match r {
                Ok(_) => !has_duplicate(final(self).blocks@),
                Err(m) => exists|i: int|
                    0 <= i < final(self).blocks@.len() - 1 && block_key(final(self).blocks@[i]) == block_key(
                        #[trigger] final(self).blocks@[i + 1],
                    ) && (forall|j: int| 0 <= j < i ==> block_key(final(self).blocks@[j]) != block_key(#[trigger] final(self).blocks@[j + 1]))
                        && m@ == final(self).blocks@[i].namespace@ + ":"@ + final(self).blocks@[i].path@,
            },
    {
        let mut blocks: Vec<Block> = Vec::new();
        std::mem::swap(&mut blocks, &mut self.blocks);
        let ghost m0 = blocks@.map_values(|b: Block| block_view(b)).to_multiset();
        let (sorted, result) = finish_blocks(blocks);
        let ghost m1 = sorted@.map_values(|b: Block| block_view(b)).to_multiset();
        proof {
            assert forall|b: int| 0 <= b < sorted@.len() implies {
                &&& #[trigger] sorted@[b].properties < self.property_lists.keys().len()
                &&& sorted@[b].states < self.states.keys().len()
                &&& sorted@[b].materials < self.material_lists.keys().len()
            } by {
                lemma_view_in_multiset(sorted@, b);
                lemma_multiset_has_view(old(self).blocks@, block_view(sorted@[b]));
            }
        }
        self.blocks = sorted;
        assert(self.blocks@ == sorted@);
        result
    }
}

/// An entry's view is counted in the multiset of the views.
proof fn lemma_view_in_multiset(bs: Seq<Block>, b: int)
    requires
        0 <= b < bs.len(),
    ensures
        bs.map_values(|x: Block| block_view(x)).to_multiset().count(block_view(bs[b])) > 0,
{
    let vs = bs.map_values(|x: Block| block_view(x));
    assert(vs[b] == block_view(bs[b]));
    vs.to_multiset_ensures();
    assert(vs.contains(block_view(bs[b])));
}

/// A view counted in the multiset of the views is the view of some entry.
proof fn lemma_multiset_has_view(bs: Seq<Block>, v: (Seq<char>, Seq<char>, usize, usize, usize))
    requires
        bs.map_values(|x: Block| block_view(x)).to_multiset().count(v) > 0,
    ensures
        exists|b: int| 0 <= b < bs.len() && block_view(#[trigger] bs[b]) == v,
{
    let vs = bs.map_values(|x: Block| block_view(x));
    vs.to_multiset_ensures();
    assert(vs.contains(v));
    let b = choose|b: int| 0 <= b < vs.len() && vs[b] == v;
    assert(block_view(bs[b]) == v);
}

} // verus!
