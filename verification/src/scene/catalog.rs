//! The catalog: which items and block states the packs define.

use vstd::prelude::*;
use crate::resource::id::{ResourceId, id_of_file};
use crate::text::{chars_of, views};

verus! {

/// Whether a pack path names a catalog entry: it is a resource file whose path does not start
/// with `_`.
pub open spec fn catalog_entry(path: Seq<char>) -> Option<(Seq<char>, Seq<char>)> {
    match id_of_file(path) {
        Some((ns, p)) => if p.len() > 0 && p[0] == '_' { None } else { Some((ns, p)) },
        None => None,
    }
}

/// The entries the listed paths name, in order.
pub open spec fn catalog_entries(paths: Seq<Seq<char>>) -> Seq<(Seq<char>, Seq<char>)>
    decreases paths.len(),
{
    if paths.len() == 0 {
        Seq::empty()
    } else {
        let rest = catalog_entries(paths.drop_last());
        match catalog_entry(paths.last()) {
            Some(e) => rest.push(e),
            None => rest,
        }
    }
}

/// The items and block states the packs define.
pub struct Catalog {
    pub items: Vec<ResourceId>,
    pub block_states: Vec<ResourceId>,
}

/// The identifiers the listed paths name, skipping paths that are not resource files and
/// names starting with `_` (see [`catalog_entries`]).
pub fn catalog_ids(paths: &Vec<String>) -> (out: Vec<ResourceId>)
    ensures
        out@.map_values(|id: ResourceId| id.pair()) == catalog_entries(views(paths@)),
{
    let ghost pv = views(paths@);
    let mut out: Vec<ResourceId> = Vec::new();
    let mut i: usize = 0;
    while i < paths.len()
        invariant
            i <= paths@.len(),
            pv == views(paths@),
            out@.map_values(|id: ResourceId| id.pair()) == catalog_entries(pv.take(i as int)),
        decreases paths.len() - i,
    {
        proof {
            assert(pv.take(i as int + 1).drop_last() =~= pv.take(i as int));
            assert(pv.take(i as int + 1).last() == paths@[i as int]@);
        }
        let ghost before = out@.map_values(|id: ResourceId| id.pair());
        match ResourceId::from_path(paths[i].as_str()) {
            Ok(id) => {
                let c = chars_of(id.path.as_str());
                if !(c.len() > 0 && c[0] == '_') {
                    let ghost k = id.pair();
                    out.push(id);
                    proof {
                        assert(out@.map_values(|id: ResourceId| id.pair()) =~= before.push(k));
                    }
                }
            },
            Err(_) => {},
        }
        i = i + 1;
    }
    proof {
        assert(pv.take(i as int) =~= pv);
    }
    out
}

} // verus!
