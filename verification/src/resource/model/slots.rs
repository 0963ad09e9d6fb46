//! Resolving a model's texture slots through its parent chain.

use vstd::prelude::*;
use vstd::relations::sorted_by;
use crate::diagnostics::{Diagnostics, Severity, Site, SiteView, recorded};
use crate::resource::texture::{SlotView, TextureSlot, reference_of};
use crate::text::{join, joined, lex_le, push_str, sort_strings, views};
use crate::util::collections::{StrMap, keys_distinct, has_key, pairs_map, lemma_pairs_map_push};

verus! {

/// The abstract content of a slot before resolution.
pub enum ContentsView {
    Value(SlotView),
    Reference(Seq<char>),
}

/// A slot of a model as written: a sprite, or a reference to another slot by name.
#[derive(Clone, Debug)]
pub enum SlotContents {
    Value(TextureSlot),
    Reference(String),
}

impl View for SlotContents {
    type V = ContentsView;

    open spec fn view(&self) -> ContentsView {
        match self {
            SlotContents::Value(s) => ContentsView::Value(s@),
            SlotContents::Reference(r) => ContentsView::Reference(r@),
        }
    }
}

/// What a slot written as `slot` holds: a reference when its sprite starts with `#`.
pub open spec fn contents_of(slot: SlotView) -> ContentsView {
    match reference_of(slot.sprite) {
        Some(r) => ContentsView::Reference(r),
        None => ContentsView::Value(slot),
    }
}

impl SlotContents {
    /// The contents of a slot as written: a `#name` sprite refers to the slot `name`.
    pub fn from(value: TextureSlot) -> (c: SlotContents)
        ensures
            c@ == contents_of(value@),
    {
        match value.reference_target() {
            Some(r) => SlotContents::Reference(r),
            None => SlotContents::Value(value),
        }
    }

    /// A copy of the contents.
    pub fn duplicate(&self) -> (c: SlotContents)
        ensures
            c@ == self@,
    {
        match self {
            SlotContents::Value(s) => SlotContents::Value(s.duplicate()),
            SlotContents::Reference(r) => SlotContents::Reference(r.clone()),
        }
    }
}

/// A table of slot contents, by view.
pub open spec fn contents_view(m: Map<Seq<char>, SlotContents>) -> Map<Seq<char>, ContentsView> {
    m.map_values(|c: SlotContents| c@)
}

/// The slot tables of a chain of models, child first, by view.
pub open spec fn chain_view(chain: Seq<&StrMap<SlotContents>>) -> Seq<Map<Seq<char>, ContentsView>> {
    chain.map_values(|m: &StrMap<SlotContents>| contents_view(m@))
}

/// The slots of a chain of models: each model's slots over those of the models after it.
pub open spec fn merged(chain: Seq<Map<Seq<char>, ContentsView>>) -> Map<Seq<char>, ContentsView>
    decreases chain.len(),
{
    if chain.len() == 0 {
        Map::empty()
    } else {
        merged(chain.drop_first()).union_prefer_right(chain[0])
    }
}

fn merge_layers(chain: &[&StrMap<SlotContents>]) -> (out: StrMap<SlotContents>)
    requires
        forall|i: int| 0 <= i < chain@.len() ==> (#[trigger] chain@[i]).wf(),
    ensures
        out.wf(),
        contents_view(out@) == merged(chain_view(chain@)),
{
    let ghost cv = chain_view(chain@);
    let mut out: StrMap<SlotContents> = StrMap::new();
    let mut li = chain.len();
    proof {
        assert(cv.skip(li as int) =~= Seq::<Map<Seq<char>, ContentsView>>::empty());
        assert(contents_view(out@) =~= Map::<Seq<char>, ContentsView>::empty());
    }
    while li > 0
        invariant
            li <= chain@.len(),
            cv == chain_view(chain@),
            forall|i: int| 0 <= i < chain@.len() ==> (#[trigger] chain@[i]).wf(),
            out.wf(),
            contents_view(out@) == merged(cv.skip(li as int)),
        decreases li,
    {
        li = li - 1;
        let layer: &StrMap<SlotContents> = chain[li];
        let ghost base = merged(cv.skip(li as int + 1));
        let ghost es = layer.entries();
        let n = layer.len();
        let mut j: usize = 0;
        proof {
            assert(pairs_map(es.take(0)) =~= Map::<Seq<char>, SlotContents>::empty());
            assert(base.union_prefer_right(contents_view(pairs_map(es.take(0)))) =~= base);
        }
        while j < n
            invariant
                j <= n,
                n == es.len(),
                es == layer.entries(),
                layer.wf(),
                out.wf(),
                contents_view(out@) == base.union_prefer_right(contents_view(pairs_map(es.take(j as int)))),
            decreases n - j,
        {
            let k = layer.key_at(j).clone();
            let c = layer.value_at(j).duplicate();
            let ghost before = out@;
            out.insert(k, c);
            proof {
                let t = es.take(j as int);
                assert(keys_distinct(t));
                assert(!has_key(t, es[j as int].0)) by {
                    if has_key(t, es[j as int].0) {
                        let i = choose|i: int| 0 <= i < t.len() && #[trigger] t[i].0 == es[j as int].0;
                        assert(es[i].0 == es[j as int].0);
                    }
                }
                lemma_pairs_map_push(t, es[j as int].0, es[j as int].1);
                assert(es.take(j as int + 1) =~= t.push((es[j as int].0, es[j as int].1)));
                let kk = es[j as int].0;
                assert(contents_view(out@) =~= contents_view(before).insert(kk, c@));
                assert(contents_view(pairs_map(es.take(j as int + 1))) =~= contents_view(pairs_map(t)).insert(kk, c@));
                assert(contents_view(out@) =~= base.union_prefer_right(contents_view(pairs_map(es.take(j as int + 1)))));
            }
            j = j + 1;
        }
        proof {
            assert(es.take(n as int) =~= es);
            assert(cv.skip(li as int).drop_first() =~= cv.skip(li as int + 1));
            assert(cv.skip(li as int)[0] == cv[li as int]);
            assert(cv[li as int] == contents_view(layer@));
        }
    }
    proof {
        assert(cv.skip(0) =~= cv);
    }
    out
}

/// The names of the slots that hold references.
pub open spec fn reference_keys(m: Map<Seq<char>, ContentsView>) -> Set<Seq<char>> {
    Set::new(|k: Seq<char>| m.contains_key(k) && m[k] is Reference)
}

/// The sprite that slot `target` leads to, following at most `fuel` references.
pub open spec fn chase(m: Map<Seq<char>, ContentsView>, target: Seq<char>, fuel: nat) -> Option<SlotView>
    decreases fuel,
{
    if !m.contains_key(target) {
        None
    } else {
        match m[target] {
            ContentsView::Value(v) => Some(v),
            ContentsView::Reference(r) => if fuel == 0 {
                None
            } else {
                chase(m, r, (fuel - 1) as nat)
            },
        }
    }
}

/// How many references are followed from a slot's own reference: one more than there are
/// references, which is enough for any chain that ends in a sprite.
pub open spec fn hop_limit(m: Map<Seq<char>, ContentsView>) -> nat {
    reference_keys(m).len() + 1
}

/// The sprite a slot resolves to, if it does.
pub open spec fn slot_of(m: Map<Seq<char>, ContentsView>, k: Seq<char>) -> Option<SlotView> {
    chase(m, k, hop_limit(m) + 1)
}

/// The resolved slots: every slot that leads to a sprite, with that sprite.
pub open spec fn resolved(m: Map<Seq<char>, ContentsView>) -> Map<Seq<char>, SlotView> {
    Map::new(|k: Seq<char>| slot_of(m, k) is Some, |k: Seq<char>| slot_of(m, k)->0)
}

/// The slots whose references lead nowhere.
pub open spec fn stuck_keys(m: Map<Seq<char>, ContentsView>) -> Set<Seq<char>> {
    Set::new(|k: Seq<char>| m.contains_key(k) && slot_of(m, k) is None)
}

/// How an unresolved slot is listed: `#name -> #target`.
pub open spec fn reference_label(m: Map<Seq<char>, ContentsView>, k: Seq<char>) -> Seq<char> {
    "#"@ + k + " -> #"@ + m[k]->Reference_0
}

/// The warning for the unresolved slots, listed in the given order.
pub open spec fn unresolved_message(labels: Seq<Seq<char>>) -> Seq<char> {
    "Unresolved texture references: "@ + joined(labels, ", "@)
}

/// `keys` lists the unresolved slots once each, and `labels` is their listing in
/// lexicographic order.
pub open spec fn lists_stuck(m: Map<Seq<char>, ContentsView>, keys: Seq<Seq<char>>, labels: Seq<Seq<char>>) -> bool {
    &&& keys.no_duplicates()
    &&& keys.to_set() == stuck_keys(m)
    &&& sorted_by(labels, |a: Seq<char>, b: Seq<char>| lex_le(a, b))
    &&& labels.to_multiset() == keys.map_values(|k: Seq<char>| reference_label(m, k)).to_multiset()
}

/// Where slot resolution reports its warning.
pub open spec fn slots_site() -> SiteView {
    ("resource/model/slots.rs"@, 62u32, 9u32)
}

fn count_references(m: &StrMap<SlotContents>) -> (n: usize)
    requires
        m.wf(),
    ensures
        n == reference_keys(contents_view(m@)).len(),
{
    let ghost cm = contents_view(m@);
    let ghost es = m.entries();
    let n = m.len();
    let mut count: usize = 0;
    let mut i: usize = 0;
    let ghost mut rk: Seq<Seq<char>> = Seq::empty();
    proof {
        m.lemma_entries();
    }
    while i < n
        invariant
            i <= n,
            n == es.len(),
            es == m.entries(),
            m.wf(),
            cm == contents_view(m@),
            count == rk.len(),
            count <= i,
            rk.no_duplicates(),
            forall|k: Seq<char>| #[trigger] rk.contains(k) <==> (exists|j: int| 0 <= j < i && #[trigger] es[j].0 == k && es[j].1 is Reference),
            forall|j: int| 0 <= j < es.len() ==> cm.contains_key(#[trigger] es[j].0) && cm[es[j].0] == es[j].1@,
            forall|k: Seq<char>| #[trigger] cm.contains_key(k) ==> exists|j: int| 0 <= j < es.len() && #[trigger] es[j].0 == k,
        decreases n - i,
    {
        let c = m.value_at(i);
        if let SlotContents::Reference(_) = c {
            proof {
                assert(!rk.contains(es[i as int].0)) by {
                    if rk.contains(es[i as int].0) {
                        let j = choose|j: int| 0 <= j < i && #[trigger] es[j].0 == es[i as int].0 && es[j].1 is Reference;
                        assert(es[j].0 != es[i as int].0);
                    }
                }
                let rk2 = rk.push(es[i as int].0);
                assert forall|k: Seq<char>| #[trigger] rk2.contains(k) <==> (exists|j: int| 0 <= j < i + 1 && #[trigger] es[j].0 == k && es[j].1 is Reference) by {
                    if rk2.contains(k) && k != es[i as int].0 {
                        assert(rk.contains(k));
                    }
                    if rk2.contains(k) && k == es[i as int].0 {
                        assert(es[i as int].0 == k && es[i as int].1 is Reference);
                    }
                    if exists|j: int| 0 <= j < i + 1 && #[trigger] es[j].0 == k && es[j].1 is Reference {
                        let j = choose|j: int| 0 <= j < i + 1 && #[trigger] es[j].0 == k && es[j].1 is Reference;
                        if j < i {
                            assert(rk.contains(k));
                            assert(rk2[rk.index_of(k)] == k);
                        } else {
                            assert(rk2[rk.len() as int] == k);
                        }
                    }
                }
                rk = rk2;
            }
            count = count + 1;
        } else {
            proof {
                assert forall|k: Seq<char>| #[trigger] rk.contains(k) <==> (exists|j: int| 0 <= j < i + 1 && #[trigger] es[j].0 == k && es[j].1 is Reference) by {
                    if exists|j: int| 0 <= j < i + 1 && #[trigger] es[j].0 == k && es[j].1 is Reference {
                        let j = choose|j: int| 0 <= j < i + 1 && #[trigger] es[j].0 == k && es[j].1 is Reference;
                        assert(j != i);
                    }
                }
            }
        }
        i = i + 1;
    }
    proof {
        assert forall|k: Seq<char>| rk.to_set().contains(k) <==> reference_keys(cm).contains(k) by {
            if rk.contains(k) {
                let j = choose|j: int| 0 <= j < i && #[trigger] es[j].0 == k && es[j].1 is Reference;
                assert(cm[es[j].0] == es[j].1@);
            }
            if reference_keys(cm).contains(k) {
                let j = choose|j: int| 0 <= j < es.len() && #[trigger] es[j].0 == k;
                assert(cm[es[j].0] == es[j].1@);
                assert(es[j].1 is Reference);
            }
        }
        assert(rk.to_set() =~= reference_keys(cm));
        rk.unique_seq_to_set();
    }
    count
}

fn chase_from(m: &StrMap<SlotContents>, start: &String, limit: u128) -> (res: Option<TextureSlot>)
    requires
        m.wf(),
    ensures
        match res {
            Some(s) => chase(contents_view(m@), start@, limit as nat) == Some(s@),
            None => chase(contents_view(m@), start@, limit as nat) is None,
        },
{
    let ghost cm = contents_view(m@);
    let mut target = start.clone();
    let mut hops: u128 = 0;
    loop
        invariant
            m.wf(),
            cm == contents_view(m@),
            hops <= limit,
            chase(cm, start@, limit as nat) == chase(cm, target@, (limit - hops) as nat),
        decreases limit - hops,
    {
        match m.get(target.as_str()) {
            Some(SlotContents::Value(v)) => {
                return Some(v.duplicate());
            },
            Some(SlotContents::Reference(next)) => {
                if hops < limit {
                    target = next.clone();
                    hops = hops + 1;
                } else {
                    return None;
                }
            },
            None => {
                return None;
            },
        }
    }
}

/// Resolves the texture slots of a chain of models, child first: each model's slots override
/// those of its parents, and references are followed to the sprite they lead to. Slots whose
/// references lead nowhere are left out and reported in one warning, listed in lexicographic
/// order.
pub fn resolve_slots(chain: &[&StrMap<SlotContents>], subject: &str, diag: &mut Diagnostics) -> (out: StrMap<TextureSlot>)
    requires
        forall|i: int| 0 <= i < chain@.len() ==> (#[trigger] chain@[i]).wf(),
        old(diag).wf(),
    ensures
        out.wf(),
        final(diag).wf(),
        out@.map_values(|s: TextureSlot| s@) == resolved(merged(chain_view(chain@))),
        stuck_keys(merged(chain_view(chain@))).len() == 0 ==> final(diag)@ == old(diag)@,
        stuck_keys(merged(chain_view(chain@))).len() > 0 ==> exists|keys: Seq<Seq<char>>, labels: Seq<Seq<char>>|
            #[trigger] lists_stuck(merged(chain_view(chain@)), keys, labels)
            && final(diag)@ == recorded(old(diag)@, Severity::Warning, slots_site(), subject@, Seq::empty(), unresolved_message(labels)),
{
    let merged_slots = merge_layers(chain);
    let ghost cm = contents_view(merged_slots@);
    let ghost es = merged_slots.entries();
    let limit: u128 = count_references(&merged_slots) as u128 + 1;
    let n = merged_slots.len();
    let mut out: StrMap<TextureSlot> = StrMap::new();
    let mut labels: Vec<String> = Vec::new();
    let ghost mut keys: Seq<Seq<char>> = Seq::empty();
    let mut i: usize = 0;
    proof {
        merged_slots.lemma_entries();
        assert(out@.map_values(|s: TextureSlot| s@) =~= Map::new(
            |k: Seq<char>| has_key(es.take(0), k) && slot_of(cm, k) is Some,
            |k: Seq<char>| slot_of(cm, k)->0,
        ));
    }
    while i < n
        invariant
            i <= n,
            n == es.len(),
            es == merged_slots.entries(),
            merged_slots.wf(),
            cm == contents_view(merged_slots@),
            limit == hop_limit(cm),
            forall|j: int| 0 <= j < es.len() ==> cm.contains_key(#[trigger] es[j].0) && cm[es[j].0] == es[j].1@,
            forall|k: Seq<char>| #[trigger] cm.contains_key(k) ==> exists|j: int| 0 <= j < es.len() && #[trigger] es[j].0 == k,
            out.wf(),
            out@.map_values(|s: TextureSlot| s@) == Map::new(
                |k: Seq<char>| has_key(es.take(i as int), k) && slot_of(cm, k) is Some,
                |k: Seq<char>| slot_of(cm, k)->0,
            ),
            keys.no_duplicates(),
            forall|k: Seq<char>| #[trigger] keys.contains(k) <==> (has_key(es.take(i as int), k) && slot_of(cm, k) is None),
            views(labels@) == keys.map_values(|k: Seq<char>| reference_label(cm, k)),
        decreases n - i,
    {
        let k = merged_slots.key_at(i);
        let ghost kv = es[i as int].0;
        proof {
            assert(es.take(i as int + 1) =~= es.take(i as int).push(es[i as int]));
            assert forall|x: Seq<char>| #[trigger] has_key(es.take(i as int + 1), x) <==> (has_key(es.take(i as int), x) || x == kv) by {
                let t1 = es.take(i as int + 1);
                if has_key(t1, x) && x != kv {
                    let j = choose|j: int| 0 <= j < t1.len() && #[trigger] t1[j].0 == x;
                    assert(es.take(i as int)[j].0 == x);
                }
                if x == kv {
                    assert(t1[i as int].0 == x);
                }
                if has_key(es.take(i as int), x) {
                    let j = choose|j: int| 0 <= j < i && #[trigger] es.take(i as int)[j].0 == x;
                    assert(t1[j].0 == x);
                }
            }
            assert(!has_key(es.take(i as int), kv)) by {
                if has_key(es.take(i as int), kv) {
                    let j = choose|j: int| 0 <= j < i && #[trigger] es.take(i as int)[j].0 == kv;
                    assert(es[j].0 == kv);
                }
            }
        }
        let ghost before_out = out@.map_values(|s: TextureSlot| s@);
        match merged_slots.value_at(i) {
            SlotContents::Value(v) => {
                proof {
                    assert(slot_of(cm, kv) == Some(v@));
                }
                out.insert(k.clone(), v.duplicate());
                proof {
                    assert(out@.map_values(|s: TextureSlot| s@) =~= before_out.insert(kv, v@));
                    assert(out@.map_values(|s: TextureSlot| s@) =~= Map::new(
                        |k: Seq<char>| has_key(es.take(i as int + 1), k) && slot_of(cm, k) is Some,
                        |k: Seq<char>| slot_of(cm, k)->0,
                    ));
                    assert forall|x: Seq<char>| #[trigger] keys.contains(x) <==> (has_key(es.take(i as int + 1), x) && slot_of(cm, x) is None) by {}
                }
            },
            SlotContents::Reference(r) => {
                let found = chase_from(&merged_slots, r, limit);
                proof {
                    assert(slot_of(cm, kv) == chase(cm, r@, limit as nat));
                }
                match found {
                    Some(s) => {
                        let ghost sv = s@;
                        out.insert(k.clone(), s);
                        proof {
                            assert(out@.map_values(|s: TextureSlot| s@) =~= before_out.insert(kv, sv));
                            assert(out@.map_values(|s: TextureSlot| s@) =~= Map::new(
                                |k: Seq<char>| has_key(es.take(i as int + 1), k) && slot_of(cm, k) is Some,
                                |k: Seq<char>| slot_of(cm, k)->0,
                            ));
                            assert forall|x: Seq<char>| #[trigger] keys.contains(x) <==> (has_key(es.take(i as int + 1), x) && slot_of(cm, x) is None) by {}
                        }
                    },
                    None => {
                        let mut label = "#".to_owned();
                        push_str(&mut label, k.as_str());
                        push_str(&mut label, " -> #");
                        push_str(&mut label, r.as_str());
                        proof {
                            assert(label@ == reference_label(cm, kv));
                        }
                        let ghost old_keys = keys;
                        let ghost old_labels = labels@;
                        labels.push(label);
                        proof {
                            keys = keys.push(kv);
                            assert(!old_keys.contains(kv));
                            assert forall|a: int, b: int| 0 <= a < b < keys.len() implies keys[a] != keys[b] by {
                                if b == old_keys.len() {
                                    assert(old_keys.contains(keys[a]));
                                }
                            }
                            assert forall|x: Seq<char>| #[trigger] keys.contains(x) <==> (has_key(es.take(i as int + 1), x) && slot_of(cm, x) is None) by {
                                if keys.contains(x) && x != kv {
                                    let j = choose|j: int| 0 <= j < keys.len() && keys[j] == x;
                                    assert(old_keys[j] == x);
                                    assert(old_keys.contains(x));
                                }
                                if x == kv {
                                    assert(keys[old_keys.len() as int] == x);
                                }
                                if old_keys.contains(x) {
                                    let j = choose|j: int| 0 <= j < old_keys.len() && old_keys[j] == x;
                                    assert(keys[j] == x);
                                }
                            }
                            assert(views(labels@) =~= views(old_labels).push(label@));
                            assert(keys.map_values(|k: Seq<char>| reference_label(cm, k)) =~= old_keys.map_values(
                                |k: Seq<char>| reference_label(cm, k),
                            ).push(reference_label(cm, kv)));
                            assert(views(labels@) =~= keys.map_values(|k: Seq<char>| reference_label(cm, k)));
                            assert(out@.map_values(|s: TextureSlot| s@) =~= Map::new(
                                |k: Seq<char>| has_key(es.take(i as int + 1), k) && slot_of(cm, k) is Some,
                                |k: Seq<char>| slot_of(cm, k)->0,
                            ));
                        }
                    },
                }
            },
        }
        i = i + 1;
    }
    proof {
        assert(es.take(n as int) =~= es);
        assert forall|x: Seq<char>| has_key(es, x) <==> cm.contains_key(x) by {
            if has_key(es, x) {
                let j = choose|j: int| 0 <= j < es.len() && #[trigger] es[j].0 == x;
            }
        }
        assert(out@.map_values(|s: TextureSlot| s@) =~= resolved(cm));
        assert(keys.to_set() =~= stuck_keys(cm));
        keys.unique_seq_to_set();
    }
    if labels.len() > 0 {
        let ghost label_views = views(labels@);
        let sorted = sort_strings(labels);
        let mut message = "Unresolved texture references: ".to_owned();
        let listed = join(&sorted, ", ");
        push_str(&mut message, listed.as_str());
        let site = Site::at("resource/model/slots.rs", 62, 9);
        diag.warn(&site, subject, message);
        proof {
            assert(lists_stuck(cm, keys, views(sorted@)));
        }
    }
    out
}

/// A slot set in a model overrides the same slot of every model after it in the chain.
pub proof fn lemma_child_overrides(chain: Seq<Map<Seq<char>, ContentsView>>, k: Seq<char>)
    requires
        chain.len() > 0,
        chain[0].contains_key(k),
    ensures
        merged(chain).contains_key(k),
        merged(chain)[k] == chain[0][k],
{
}

/// A slot is in the merged table exactly when some model of the chain sets it.
pub proof fn lemma_merged_keys(chain: Seq<Map<Seq<char>, ContentsView>>, k: Seq<char>)
    ensures
        merged(chain).contains_key(k) <==> exists|i: int| 0 <= i < chain.len() && #[trigger] chain[i].contains_key(k),
    decreases chain.len(),
{
    if chain.len() > 0 {
        lemma_merged_keys(chain.drop_first(), k);
        if exists|i: int| 0 <= i < chain.len() && #[trigger] chain[i].contains_key(k) {
            let i = choose|i: int| 0 <= i < chain.len() && #[trigger] chain[i].contains_key(k);
            if i > 0 {
                assert(chain.drop_first()[i - 1] == chain[i]);
            }
        }
        if merged(chain.drop_first()).contains_key(k) {
            let i = choose|i: int| 0 <= i < chain.drop_first().len() && #[trigger] chain.drop_first()[i].contains_key(k);
            assert(chain[i + 1] == chain.drop_first()[i]);
        }
    }
}

/// A slot that names a sprite resolves to that sprite.
pub proof fn lemma_value_resolves(m: Map<Seq<char>, ContentsView>, k: Seq<char>, v: SlotView)
    requires
        m.contains_key(k),
        m[k] == ContentsView::Value(v),
    ensures
        resolved(m).contains_key(k),
        resolved(m)[k] == v,
{
}

/// A slot that refers to a slot naming a sprite resolves to that sprite.
pub proof fn lemma_reference_resolves(m: Map<Seq<char>, ContentsView>, k: Seq<char>, r: Seq<char>, v: SlotView)
    requires
        m.contains_key(k),
        m[k] == ContentsView::Reference(r),
        m.contains_key(r),
        m[r] == ContentsView::Value(v),
    ensures
        resolved(m).contains_key(k),
        resolved(m)[k] == v,
{
    assert(chase(m, r, hop_limit(m)) == Some(v));
}

} // verus!
