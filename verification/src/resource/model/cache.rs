//! Walking a model's parent chain: each model, then its parent, until a model without one, a
//! model not loaded yet, a cycle, or the depth limit.

use vstd::prelude::*;
use crate::diagnostics::{Diagnostics, DiagnosticsView, Severity, Site, SiteView, recorded};
use crate::resource::id::{IdMap, ResourceId, parse_id};
use crate::util::collections::StrMap;
use crate::text::push_str;

verus! {

/// The longest parent chain that is followed.
pub const MAX_DEPTH: usize = 64;

/// An identifier by value.
pub type IdKey = (Seq<char>, Seq<char>);

/// Why a walk up the parent chain stopped.
#[derive(Clone, Debug)]
pub enum ChainStop {
    /// A model with no parent was reached.
    Complete,
    /// This model is not loaded.
    Missing(ResourceId),
    /// This model was already in the chain.
    Cyclic(ResourceId),
    /// The chain reached the depth limit.
    TooDeep,
}

/// Why a walk stopped, by value.
pub enum StopView {
    Complete,
    Missing(IdKey),
    Cyclic(IdKey),
    TooDeep,
}

impl View for ChainStop {
    type V = StopView;

    open spec fn view(&self) -> StopView {
        match self {
            ChainStop::Complete => StopView::Complete,
            ChainStop::Missing(id) => StopView::Missing(id.pair()),
            ChainStop::Cyclic(id) => StopView::Cyclic(id.pair()),
            ChainStop::TooDeep => StopView::TooDeep,
        }
    }
}

/// The parents of the loaded models, by value.
pub open spec fn parent_view(parents: Map<IdKey, Option<ResourceId>>) -> Map<IdKey, Option<IdKey>> {
    parents.map_values(|p: Option<ResourceId>| match p {
        Some(id) => Some(id.pair()),
        None => None,
    })
}

/// The models a walk adds from `current` on, and why it stops, given the models already seen
/// and the length of the chain so far: a model already seen is a cycle; a chain at the limit is
/// too deep; a model not loaded is missing; otherwise the model is added and the walk goes on
/// to its parent, if it has one.
pub open spec fn walk(parents: Map<IdKey, Option<IdKey>>, current: IdKey, seen: Set<IdKey>, len: nat) -> (Seq<IdKey>, StopView)
    decreases MAX_DEPTH - len,
{
    if seen.contains(current) {
        (Seq::empty(), StopView::Cyclic(current))
    } else if len >= MAX_DEPTH {
        (Seq::empty(), StopView::TooDeep)
    } else if !parents.contains_key(current) {
        (Seq::empty(), StopView::Missing(current))
    } else {
        match parents[current] {
            None => (seq![current], StopView::Complete),
            Some(p) => {
                let (rest, stop) = walk(parents, p, seen.insert(current), len + 1);
                (seq![current] + rest, stop)
            },
        }
    }
}

/// Walks up the parent chain from `start`, adding each model to the chain and to the models
/// seen (see [`walk`]).
pub fn chain_cached(
    start: ResourceId,
    chain: &mut Vec<ResourceId>,
    seen: &mut IdMap<()>,
    parents: &IdMap<Option<ResourceId>>,
) -> (stop: ChainStop)
    requires
        old(seen).wf(),
        parents.wf(),
        old(chain)@.len() <= MAX_DEPTH,
    ensures
        final(seen).wf(),
        ({
            let (added, s) = walk(parent_view(parents@), start.pair(), old(seen)@.dom(), old(chain)@.len());
            &&& final(chain)@.map_values(|id: ResourceId| id.pair()) == old(chain)@.map_values(|id: ResourceId| id.pair()) + added
            &&& stop@ == s
            &&& final(seen)@.dom() == old(seen)@.dom() + added.to_set()
        }),
{
    let ghost pv = parent_view(parents@);
    let ghost w0 = walk(pv, start.pair(), seen@.dom(), chain@.len() as nat);
    let ghost c0 = chain@.map_values(|id: ResourceId| id.pair());
    let ghost s0 = seen@.dom();
    let mut next: Option<ResourceId> = Some(start);
    let ghost mut added: Seq<IdKey> = Seq::empty();
    loop
        invariant
            w0 == walk(parent_view(parents@), start.pair(), old(seen)@.dom(), old(chain)@.len() as nat),
            c0 == old(chain)@.map_values(|id: ResourceId| id.pair()),
            s0 == old(seen)@.dom(),
            seen.wf(),
            parents.wf(),
            pv == parent_view(parents@),
            chain@.len() <= MAX_DEPTH,
            chain@.map_values(|id: ResourceId| id.pair()) == c0 + added,
            seen@.dom() == s0 + added.to_set(),
            next is Some ==> ({
                let (rest, s) = walk(pv, next->0.pair(), seen@.dom(), chain@.len() as nat);
                (added + rest, s) == w0
            }),
            next is None ==> w0 == (added, StopView::Complete),
        decreases MAX_DEPTH - chain@.len(), (if next is Some { 1int } else { 0int }),
    {
        let current = match next {
            Some(c) => c,
            None => {
                return ChainStop::Complete;
            },
        };
        if seen.contains_key(&current) {
            proof {
                assert(added + Seq::<IdKey>::empty() =~= added);
            }
            return ChainStop::Cyclic(current);
        }
        if chain.len() >= MAX_DEPTH {
            proof {
                assert(added + Seq::<IdKey>::empty() =~= added);
            }
            return ChainStop::TooDeep;
        }
        let parent = match parents.get(&current) {
            Some(p) => match p {
                Some(id) => Some(id.duplicate()),
                None => None,
            },
            None => {
                proof {
                    assert(added + Seq::<IdKey>::empty() =~= added);
                }
                return ChainStop::Missing(current);
            },
        };
        let ghost ck = current.pair();
        let ghost before_chain = chain@.map_values(|id: ResourceId| id.pair());
        let ghost before_seen = seen@.dom();
        seen.insert(current.duplicate(), ());
        chain.push(current);
        proof {
            assert(chain@.map_values(|id: ResourceId| id.pair()) =~= before_chain.push(ck));
            assert(c0 + added.push(ck) =~= (c0 + added).push(ck));
            added.lemma_push_to_set_commute(ck);
            assert(added.push(ck).to_set() =~= added.to_set().insert(ck));
            assert(seen@.dom() =~= s0 + added.push(ck).to_set());
            match &parent {
                Some(p) => {
                    assert(pv[ck] == Some(p.pair()));
                    let (rest, s) = walk(pv, p.pair(), before_seen.insert(ck), before_chain.len() + 1);
                    assert(walk(pv, ck, before_seen, before_chain.len() as nat) == (seq![ck] + rest, s));
                    assert(added + (seq![ck] + rest) =~= added.push(ck) + rest);
                    assert(seen@.dom() =~= before_seen.insert(ck));
                },
                None => {
                    assert(pv[ck] is None);
                    assert(added + seq![ck] =~= added.push(ck));
                },
            }
            added = added.push(ck);
        }
        next = parent;
    }
}

/// Where a cycle found while fetching a chain is reported.
pub open spec fn fetch_cyclic_site() -> SiteView {
    ("resource/model/cache.rs"@, 138u32, 21u32)
}

/// Where a chain found too deep while fetching it is reported.
pub open spec fn fetch_deep_site() -> SiteView {
    ("resource/model/cache.rs"@, 142u32, 21u32)
}

/// Where a cycle found in a chain of loaded models is reported.
pub open spec fn cached_cyclic_site() -> SiteView {
    ("resource/model/cache.rs"@, 175u32, 41u32)
}

/// Where a chain of loaded models found too deep is reported.
pub open spec fn cached_deep_site() -> SiteView {
    ("resource/model/cache.rs"@, 176u32, 41u32)
}

/// What reporting a walk's stop records: a cycle names the model where it closed; a chain too
/// deep says so; other stops record nothing. Each is reported at its own site.
pub open spec fn stop_reports(d: DiagnosticsView, id: ResourceId, stop: StopView, cyclic: SiteView, deep: SiteView) -> DiagnosticsView {
    match stop {
        StopView::Cyclic(at) => recorded(d, Severity::Warning, cyclic, id.text(), Seq::empty(), "cyclic model parent at "@ + at.0 + ":"@ + at.1),
        StopView::TooDeep => recorded(d, Severity::Warning, deep, id.text(), Seq::empty(), "model parent chain too deep"@),
        _ => d,
    }
}

/// Reports a walk that stopped at a cycle or at the depth limit, against the model walked
/// from (see [`stop_reports`]).
fn report_stop(stop: &ChainStop, id: &ResourceId, cyclic: &Site, deep: &Site, diag: &mut Diagnostics)
    requires
        old(diag).wf(),
    ensures
        final(diag).wf(),
        final(diag)@ == stop_reports(old(diag)@, *id, stop@, cyclic@, deep@),
{
    match stop {
        ChainStop::Cyclic(at) => {
            let mut m = "cyclic model parent at ".to_owned();
            push_str(&mut m, at.to_string().as_str());
            assert(m@ =~= "cyclic model parent at "@ + at.pair().0 + ":"@ + at.pair().1);
            diag.warn(cyclic, id.to_string().as_str(), m);
        },
        ChainStop::TooDeep => {
            diag.warn(deep, id.to_string().as_str(), "model parent chain too deep".to_owned());
        },
        _ => {},
    }
}

/// The models of a batch still to be read: each identifier the first time it comes, unless it
/// was seen in an earlier round or is already loaded.
pub open spec fn pending(batch: Seq<IdKey>, seen: Set<IdKey>, known: Set<IdKey>) -> Seq<IdKey>
    decreases batch.len(),
{
    if batch.len() == 0 {
        Seq::empty()
    } else {
        let before = pending(batch.drop_last(), seen, known);
        let id = batch.last();
        if seen.contains(id) || batch.drop_last().contains(id) || known.contains(id) {
            before
        } else {
            before.push(id)
        }
    }
}

/// Keeps the models of a batch that still have to be read (see [`pending`]); every identifier
/// of the batch is marked as seen.
pub fn pending_batch<P>(batch: Vec<ResourceId>, seen: &mut IdMap<()>, known: &IdMap<P>) -> (out: Vec<ResourceId>)
    requires
        old(seen).wf(),
        known.wf(),
    ensures
        final(seen).wf(),
        out@.map_values(|id: ResourceId| id.pair()) == pending(batch@.map_values(|id: ResourceId| id.pair()), old(seen)@.dom(), known@.dom()),
        final(seen)@.dom() == old(seen)@.dom() + batch@.map_values(|id: ResourceId| id.pair()).to_set(),
{
    let ghost keys = batch@.map_values(|id: ResourceId| id.pair());
    let ghost s0 = seen@.dom();
    let mut out: Vec<ResourceId> = Vec::new();
    for id in it: batch.into_iter()
        invariant
            keys == it.seq().map_values(|id: ResourceId| id.pair()),
            s0 == old(seen)@.dom(),
            seen.wf(),
            known.wf(),
            out@.map_values(|id: ResourceId| id.pair()) == pending(keys.take(it.index()), s0, known@.dom()),
            seen@.dom() == s0 + keys.take(it.index()).to_set(),
    {
        let ghost k = it.index();
        proof {
            assert(keys.take(k + 1).drop_last() =~= keys.take(k));
            assert(keys.take(k + 1).last() == id.pair());
            assert(keys.take(k + 1).to_set() =~= keys.take(k).to_set().insert(id.pair())) by {
                assert(keys.take(k + 1) =~= keys.take(k).push(id.pair()));
                keys.take(k).lemma_push_to_set_commute(id.pair());
            }
            assert(seen@.dom().contains(id.pair()) == (s0.contains(id.pair()) || keys.take(k).contains(id.pair()))) by {
                if keys.take(k).contains(id.pair()) {
                    let j = choose|j: int| 0 <= j < keys.take(k).len() && keys.take(k)[j] == id.pair();
                    assert(keys.take(k).to_set().contains(keys.take(k)[j]));
                }
            }
        }
        let first = !seen.contains_key(&id);
        if first {
            let key = id.duplicate();
            seen.insert(key, ());
        }
        if first && !known.contains_key(&id) {
            let ghost before = out@;
            out.push(id);
            proof {
                assert(out@.map_values(|id: ResourceId| id.pair()) =~= before.map_values(|id: ResourceId| id.pair()).push(keys[k]));
            }
        }
        proof {
            assert(seen@.dom() =~= s0 + keys.take(k + 1).to_set());
        }
    }
    proof {
        assert(keys.take(keys.len() as int) =~= keys);
    }
    out
}

/// The parents of the models read in one round, in order, for the next round.
pub open spec fn parents_read(results: Seq<(ResourceId, Result<Option<ResourceId>, String>)>) -> Seq<IdKey>
    decreases results.len(),
{
    if results.len() == 0 {
        Seq::empty()
    } else {
        let before = parents_read(results.drop_last());
        match results.last().1 {
            Ok(Some(p)) => before.push(p.pair()),
            _ => before,
        }
    }
}

/// Where a model that could not be read is reported.
pub open spec fn read_site() -> SiteView {
    ("resource/model/cache.rs"@, 82u32, 31u32)
}

/// What a round of reading records: each model that could not be read, with why.
pub open spec fn read_reports(d: DiagnosticsView, results: Seq<(ResourceId, Result<Option<ResourceId>, String>)>) -> DiagnosticsView
    decreases results.len(),
{
    if results.len() == 0 {
        d
    } else {
        let before = read_reports(d, results.drop_last());
        let (id, r) = results.last();
        match r {
            Err(m) => recorded(before, Severity::Error, read_site(), id.text(), Seq::empty(), m@),
            Ok(_) => before,
        }
    }
}

/// Takes a round of read models, each with its parent or why it could not be read: reports
/// the failures (see [`read_reports`]) and gives the parents to read next (see
/// [`parents_read`]).
pub fn absorb_round(results: &Vec<(ResourceId, Result<Option<ResourceId>, String>)>, diag: &mut Diagnostics) -> (next: Vec<ResourceId>)
    requires
        old(diag).wf(),
    ensures
        final(diag).wf(),
        next@.map_values(|id: ResourceId| id.pair()) == parents_read(results@),
        final(diag)@ == read_reports(old(diag)@, results@),
{
    let ghost d0 = diag@;
    let mut next: Vec<ResourceId> = Vec::new();
    let mut i: usize = 0;
    while i < results.len()
        invariant
            i <= results@.len(),
            diag.wf(),
            next@.map_values(|id: ResourceId| id.pair()) == parents_read(results@.take(i as int)),
            diag@ == read_reports(d0, results@.take(i as int)),
        decreases results.len() - i,
    {
        proof {
            assert(results@.take(i as int + 1).drop_last() =~= results@.take(i as int));
            assert(results@.take(i as int + 1).last() == results@[i as int]);
        }
        let entry = &results[i];
        match &entry.1 {
            Ok(Some(p)) => {
                let ghost before = next@;
                next.push(p.duplicate());
                proof {
                    assert(next@.map_values(|id: ResourceId| id.pair()) =~= before.map_values(|id: ResourceId| id.pair()).push(p.pair()));
                }
            },
            Ok(None) => {},
            Err(m) => {
                let site = Site::at("resource/model/cache.rs", 82, 31);
                diag.error(&site, entry.0.to_string().as_str(), m.clone());
            },
        }
        i = i + 1;
    }
    proof {
        assert(results@.take(i as int) =~= results@);
    }
    next
}

/// What a walk for a model that may still have to be read leads to.
pub enum ChainAction {
    /// The chain is final.
    Done,
    /// This model has to be read before the walk goes on from it.
    Fetch(ResourceId),
}

/// Decides, after a walk from the loaded models, whether the chain is final: a missing model
/// is fetched; a cycle or the depth limit is reported (see [`stop_reports`]) and ends it.
pub fn chain_next(stop: ChainStop, id: &ResourceId, diag: &mut Diagnostics) -> (action: ChainAction)
    requires
        old(diag).wf(),
    ensures
        final(diag).wf(),
        final(diag)@ == stop_reports(old(diag)@, *id, stop@, fetch_cyclic_site(), fetch_deep_site()),
        match stop@ {
            StopView::Missing(at) => action matches ChainAction::Fetch(m) && m.pair() == at,
            _ => action is Done,
        },
{
    let cyclic = Site::at("resource/model/cache.rs", 138, 21);
    let deep = Site::at("resource/model/cache.rs", 142, 21);
    report_stop(&stop, id, &cyclic, &deep, diag);
    match stop {
        ChainStop::Missing(at) => ChainAction::Fetch(at),
        _ => ChainAction::Done,
    }
}

/// Decides whether a chain walked from the loaded models is merged into a model: not when a
/// model in it is missing or the chain is empty; a cycle or the depth limit is reported (see
/// [`stop_reports`]) and the chain found so far is used.
pub fn chain_usable(stop: &ChainStop, chain_len: usize, id: &ResourceId, diag: &mut Diagnostics) -> (usable: bool)
    requires
        old(diag).wf(),
    ensures
        final(diag).wf(),
        final(diag)@ == (if stop@ is Missing { old(diag)@ } else { stop_reports(old(diag)@, *id, stop@, cached_cyclic_site(), cached_deep_site()) }),
        usable == (!(stop@ is Missing) && chain_len > 0),
{
    if let ChainStop::Missing(_) = stop {
        return false;
    }
    let cyclic = Site::at("resource/model/cache.rs", 175, 41);
    let deep = Site::at("resource/model/cache.rs", 176, 41);
    report_stop(stop, id, &cyclic, &deep, diag);
    chain_len > 0
}

/// Where a parent that could not be read is reported.
pub open spec fn fetch_site() -> SiteView {
    ("resource/model/cache.rs"@, 142u32, 25u32)
}

/// Reports a parent that could not be read against the model walked from, and says whether the
/// chain so far is ended by the placeholder model: it is when the chain is not empty.
pub fn fetch_failed(message: String, chain_len: usize, id: &ResourceId, diag: &mut Diagnostics) -> (append_missing: bool)
    requires
        old(diag).wf(),
    ensures
        final(diag).wf(),
        final(diag)@ == recorded(old(diag)@, Severity::Error, fetch_site(), id.text(), Seq::empty(), message@),
        append_missing == (chain_len > 0),
{
    let site = Site::at("resource/model/cache.rs", 142, 25);
    diag.error(&site, id.to_string().as_str(), message);
    chain_len > 0
}

/// The identifiers of the texture references of the loaded models: each reference once, in the
/// order first met, read as an identifier; a reference that is not one is left out.
pub open spec fn texture_refs(refs: Seq<Seq<char>>) -> Seq<IdKey>
    decreases refs.len(),
{
    if refs.len() == 0 {
        Seq::empty()
    } else {
        let before = texture_refs(refs.drop_last());
        let r = refs.last();
        if refs.drop_last().contains(r) {
            before
        } else {
            match parse_id(r) {
                Some(id) => before.push(id),
                None => before,
            }
        }
    }
}

/// The textures to load for the references of the loaded models (see [`texture_refs`]).
pub fn texture_ids(refs: &Vec<String>) -> (ids: Vec<ResourceId>)
    ensures
        ids@.map_values(|id: ResourceId| id.pair()) == texture_refs(refs@.map_values(|r: String| r@)),
{
    let ghost rv = refs@.map_values(|r: String| r@);
    let mut seen: StrMap<()> = StrMap::new();
    let mut ids: Vec<ResourceId> = Vec::new();
    let mut i: usize = 0;
    while i < refs.len()
        invariant
            i <= refs@.len(),
            rv == refs@.map_values(|r: String| r@),
            seen.wf(),
            forall|x: Seq<char>| #[trigger] seen@.contains_key(x) <==> rv.take(i as int).contains(x),
            ids@.map_values(|id: ResourceId| id.pair()) == texture_refs(rv.take(i as int)),
        decreases refs.len() - i,
    {
        let ghost t = rv.take(i as int + 1);
        proof {
            assert(t.drop_last() =~= rv.take(i as int));
            assert(t.last() == refs@[i as int]@);
        }
        let r = &refs[i];
        if !seen.contains_key(r.as_str()) {
            seen.insert(r.clone(), ());
            match ResourceId::from_str(r.as_str()) {
                Ok(id) => {
                    let ghost before = ids@;
                    ids.push(id);
                    proof {
                        assert(ids@.map_values(|id: ResourceId| id.pair()) =~= before.map_values(|id: ResourceId| id.pair()).push(id.pair()));
                    }
                },
                Err(_) => {},
            }
        }
        proof {
            assert forall|x: Seq<char>| seen@.contains_key(x) <==> t.contains(x) by {
                if t.contains(x) && x != t.last() {
                    let j = choose|j: int| 0 <= j < t.len() && t[j] == x;
                    assert(rv.take(i as int)[j] == x);
                }
                if rv.take(i as int).contains(x) {
                    let j = choose|j: int| 0 <= j < i && rv.take(i as int)[j] == x;
                    assert(t[j] == x);
                }
                if x == t.last() {
                    assert(t[i as int] == x);
                }
            }
        }
        i = i + 1;
    }
    proof {
        assert(rv.take(i as int) =~= rv);
    }
    ids
}

/// A round reads each model once: the models it keeps do not repeat, were neither seen in an
/// earlier round nor loaded, and come from the batch; and every model of the batch that was
/// neither seen nor loaded is kept.
pub proof fn lemma_pending(batch: Seq<IdKey>, seen: Set<IdKey>, known: Set<IdKey>)
    ensures
        pending(batch, seen, known).no_duplicates(),
        forall|i: int| 0 <= i < pending(batch, seen, known).len() ==> {
            let x = #[trigger] pending(batch, seen, known)[i];
            !seen.contains(x) && !known.contains(x) && batch.contains(x)
        },
        forall|x: IdKey| batch.contains(x) && !seen.contains(x) && !known.contains(x) ==> #[trigger] pending(batch, seen, known).contains(x),
    decreases batch.len(),
{
    if batch.len() > 0 {
        let dl = batch.drop_last();
        let last = batch.last();
        lemma_pending(dl, seen, known);
        let before = pending(dl, seen, known);
        assert forall|x: IdKey| #[trigger] dl.contains(x) implies batch.contains(x) by {
            let j = choose|j: int| 0 <= j < dl.len() && dl[j] == x;
            assert(batch[j] == x);
        }
        assert forall|x: IdKey| batch.contains(x) && x != last implies #[trigger] dl.contains(x) by {
            let j = choose|j: int| 0 <= j < batch.len() && batch[j] == x;
            assert(j < dl.len());
            assert(dl[j] == x);
        }
        if !(seen.contains(last) || dl.contains(last) || known.contains(last)) {
            let out = before.push(last);
            assert(pending(batch, seen, known) == out);
            assert forall|i: int, j: int| 0 <= i < j < out.len() implies out[i] != out[j] by {
                if j == out.len() - 1 {
                    assert(out[i] == before[i]);
                    assert(dl.contains(before[i]));
                }
            }
            assert forall|i: int| 0 <= i < out.len() implies {
                let x = #[trigger] out[i];
                !seen.contains(x) && !known.contains(x) && batch.contains(x)
            } by {
                if i < before.len() {
                    assert(out[i] == before[i]);
                } else {
                    assert(batch[batch.len() - 1] == last);
                }
            }
            assert forall|x: IdKey| batch.contains(x) && !seen.contains(x) && !known.contains(x) implies #[trigger] out.contains(x) by {
                if x == last {
                    assert(out[out.len() - 1] == x);
                } else {
                    assert(before.contains(x));
                    let j = choose|j: int| 0 <= j < before.len() && before[j] == x;
                    assert(out[j] == x);
                }
            }
        } else {
            assert(pending(batch, seen, known) == before);
            assert forall|x: IdKey| batch.contains(x) && !seen.contains(x) && !known.contains(x) implies #[trigger] before.contains(x) by {
                if x == last {
                    assert(dl.contains(x));
                }
            }
        }
    }
}

/// A walk never adds a model twice or a model already seen, never takes the chain past the
/// depth limit, and each model it adds after the first is the parent of the one before.
pub proof fn lemma_walk_chain(parents: Map<IdKey, Option<IdKey>>, current: IdKey, seen: Set<IdKey>, len: nat)
    requires
        len <= MAX_DEPTH,
    ensures
        ({
            let added = walk(parents, current, seen, len).0;
            &&& added.no_duplicates()
            &&& forall|i: int| 0 <= i < added.len() ==> !seen.contains(#[trigger] added[i])
            &&& len + added.len() <= MAX_DEPTH
            &&& added.len() > 0 ==> added[0] == current
            &&& forall|i: int| 0 <= i < added.len() - 1 ==> parents.contains_key(#[trigger] added[i]) && parents[added[i]] == Some(added[i + 1])
        }),
    decreases MAX_DEPTH - len,
{
    if !seen.contains(current) && len < MAX_DEPTH && parents.contains_key(current) {
        match parents[current] {
            None => {},
            Some(p) => {
                lemma_walk_chain(parents, p, seen.insert(current), len + 1);
                let rest = walk(parents, p, seen.insert(current), len + 1).0;
                let added = seq![current] + rest;
                assert(walk(parents, current, seen, len).0 == added);
                assert forall|i: int, j: int| 0 <= i < added.len() && 0 <= j < added.len() && i != j implies added[i] != added[j] by {
                    if i > 0 && j > 0 {
                        assert(added[i] == rest[i - 1] && added[j] == rest[j - 1]);
                    } else if i == 0 {
                        assert(added[j] == rest[j - 1]);
                        assert(!seen.insert(current).contains(rest[j - 1]));
                    } else {
                        assert(added[i] == rest[i - 1]);
                        assert(!seen.insert(current).contains(rest[i - 1]));
                    }
                }
                assert forall|i: int| 0 <= i < added.len() implies !seen.contains(#[trigger] added[i]) by {
                    if i > 0 {
                        assert(added[i] == rest[i - 1]);
                    }
                }
                assert forall|i: int| 0 <= i < added.len() - 1 implies parents.contains_key(#[trigger] added[i]) && parents[added[i]] == Some(added[i + 1]) by {
                    if i > 0 {
                        assert(added[i] == rest[i - 1] && added[i + 1] == rest[i]);
                    } else {
                        assert(added[1] == rest[0]);
                    }
                }
            },
        }
    }
}

} // verus!
