//! Finding the captured state of a block: the block by id, then the state by its key.

use vstd::prelude::*;
use crate::capture_gen::pool::key_le;
use crate::diagnostics::{Diagnostics, DiagnosticsView, Severity, Site, SiteView, recorded};
use crate::resource::id::ResourceId;
use crate::scene::blockstate::StateQuery;
use crate::text::{joined, lex_le, lemma_lex_antisym, push_char, push_str, str_le, views};

verus! {

/// What a lookup reads of a captured block: its id, its relevant properties, and the keys of
/// its states.
pub struct BlockEntry {
    pub namespace: String,
    pub path: String,
    pub properties: Vec<String>,
    pub state_keys: Vec<String>,
}

/// Whether the strings are in strictly increasing lexicographic order.
pub open spec fn strictly_increasing(s: Seq<Seq<char>>) -> bool {
    forall|i: int, j: int| 0 <= i < j < s.len() ==> lex_le(#[trigger] s[i], #[trigger] s[j]) && s[i] != s[j]
}

/// The ids of the entries, in order.
pub open spec fn entry_keys(bs: Seq<BlockEntry>) -> Seq<(Seq<char>, Seq<char>)> {
    bs.map_values(|b: BlockEntry| (b.namespace@, b.path@))
}

/// Whether the entries are in strictly increasing id order, each with its state keys in
/// strictly increasing order.
pub open spec fn entries_sorted(bs: Seq<BlockEntry>) -> bool {
    &&& forall|i: int, j: int| 0 <= i < j < bs.len() ==> key_le(#[trigger] entry_keys(bs)[i], #[trigger] entry_keys(bs)[j])
        && entry_keys(bs)[i] != entry_keys(bs)[j]
    &&& forall|i: int| 0 <= i < bs.len() ==> strictly_increasing(views((#[trigger] bs[i]).state_keys@))
}

fn id_le(a_ns: &String, a_path: &String, b_ns: &str, b_path: &str) -> (r: bool)
    ensures
        r == key_le((a_ns@, a_path@), (b_ns@, b_path@)),
{
    if *a_ns == b_ns.to_owned() {
        str_le(a_path.as_str(), b_path)
    } else {
        str_le(a_ns.as_str(), b_ns)
    }
}

/// The position of the entry with the id, by binary search.
pub fn search_block(blocks: &Vec<BlockEntry>, ns: &str, path: &str) -> (r: Option<usize>)
    requires
        entries_sorted(blocks@),
    ensures
        match r {
            Some(i) => i < blocks@.len() && entry_keys(blocks@)[i as int] == (ns@, path@),
            None => forall|i: int| 0 <= i < blocks@.len() ==> entry_keys(blocks@)[i] != (ns@, path@),
        },
{
    let ghost ks = entry_keys(blocks@);
    let ghost w = (ns@, path@);
    let mut lo: usize = 0;
    let mut hi: usize = blocks.len();
    while lo < hi
        invariant
            lo <= hi <= blocks@.len(),
            ks == entry_keys(blocks@),
            w == (ns@, path@),
            entries_sorted(blocks@),
            forall|i: int| 0 <= i < lo ==> key_le(#[trigger] ks[i], w) && ks[i] != w,
            forall|i: int| hi <= i < blocks@.len() ==> key_le(w, #[trigger] ks[i]) && ks[i] != w,
        decreases hi - lo,
    {
        let mid = lo + (hi - lo) / 2;
        let e = &blocks[mid];
        assert(ks[mid as int] == (e.namespace@, e.path@));
        let same = e.namespace == ns.to_owned() && e.path == path.to_owned();
        if same {
            return Some(mid);
        }
        if id_le(&e.namespace, &e.path, ns, path) {
            proof {
                assert forall|i: int| 0 <= i < mid + 1 implies key_le(#[trigger] ks[i], w) && ks[i] != w by {
                    if i < mid {
                        crate::capture_gen::pool::lemma_key_trans(ks[i], ks[mid as int], w);
                        if ks[i] == w {
                            crate::capture_gen::pool::lemma_key_antisym(ks[i], ks[mid as int]);
                        }
                    }
                }
            }
            lo = mid + 1;
        } else {
            proof {
                crate::capture_gen::pool::lemma_key_total(ks[mid as int], w);
                assert forall|i: int| mid <= i < blocks@.len() implies key_le(w, #[trigger] ks[i]) && ks[i] != w by {
                    if i > mid {
                        crate::capture_gen::pool::lemma_key_trans(w, ks[mid as int], ks[i]);
                        if ks[i] == w {
                            crate::capture_gen::pool::lemma_key_antisym(ks[i], ks[mid as int]);
                        }
                    }
                }
            }
            hi = mid;
        }
    }
    None
}

/// The position of a key among strictly increasing keys, by binary search.
pub fn search_key(keys: &Vec<String>, key: &String) -> (r: Option<usize>)
    requires
        strictly_increasing(views(keys@)),
    ensures
        match r {
            Some(i) => i < keys@.len() && keys@[i as int]@ == key@,
            None => forall|i: int| 0 <= i < keys@.len() ==> keys@[i]@ != key@,
        },
{
    let ghost ks = views(keys@);
    let mut lo: usize = 0;
    let mut hi: usize = keys.len();
    while lo < hi
        invariant
            lo <= hi <= keys@.len(),
            ks == views(keys@),
            strictly_increasing(ks),
            forall|i: int| 0 <= i < lo ==> lex_le(#[trigger] ks[i], key@) && ks[i] != key@,
            forall|i: int| hi <= i < keys@.len() ==> lex_le(key@, #[trigger] ks[i]) && ks[i] != key@,
        decreases hi - lo,
    {
        let mid = lo + (hi - lo) / 2;
        assert(ks[mid as int] == keys@[mid as int]@);
        if keys[mid] == *key {
            return Some(mid);
        }
        if str_le(keys[mid].as_str(), key.as_str()) {
            proof {
                assert forall|i: int| 0 <= i < mid + 1 implies lex_le(#[trigger] ks[i], key@) && ks[i] != key@ by {
                    if i < mid {
                        crate::text::lemma_lex_trans(ks[i], ks[mid as int], key@);
                        if ks[i] == key@ {
                            lemma_lex_antisym(ks[i], ks[mid as int]);
                        }
                    }
                }
            }
            lo = mid + 1;
        } else {
            proof {
                crate::text::lemma_lex_total(ks[mid as int], key@);
                assert forall|i: int| mid <= i < keys@.len() implies lex_le(key@, #[trigger] ks[i]) && ks[i] != key@ by {
                    if i > mid {
                        crate::text::lemma_lex_trans(key@, ks[mid as int], ks[i]);
                        if ks[i] == key@ {
                            lemma_lex_antisym(ks[i], ks[mid as int]);
                        }
                    }
                }
            }
            hi = mid;
        }
    }
    proof {
        assert forall|i: int| 0 <= i < keys@.len() implies keys@[i]@ != key@ by {
            assert(ks[i] == keys@[i]@);
        }
    }
    None
}

/// Where a lookup reports a property the query does not set.
pub open spec fn lookup_site() -> SiteView {
    ("capture/lookup.rs"@, 29u32, 18u32)
}

/// The key of the captured state for the query: the block's properties in order as
/// `property=value`, joined by commas; none when the query lacks one of them (the first such
/// property is named in a warning).
pub open spec fn query_key(props: Seq<Seq<char>>, q: Map<Seq<char>, Seq<char>>) -> Option<Seq<char>> {
    if forall|i: int| 0 <= i < props.len() ==> q.contains_key(#[trigger] props[i]) {
        Some(joined(props.map_values(|p: Seq<char>| p + "="@ + q[p]), ","@))
    } else {
        None
    }
}

/// The first property of the list that the query does not set.
pub open spec fn first_missing(props: Seq<Seq<char>>, q: Map<Seq<char>, Seq<char>>) -> int
    decreases props.len(),
{
    if props.len() == 0 {
        0
    } else if !q.contains_key(props[0]) {
        0
    } else {
        first_missing(props.drop_first(), q) + 1
    }
}

/// The captured state for a block and a query: its block entry and state positions. A
/// block with no entry, or a query whose key names no state, has none; a query that lacks
/// one of the block's properties has none and is reported, naming the first such property.
pub fn find(blocks: &Vec<BlockEntry>, block: &ResourceId, query: &StateQuery, diag: &mut Diagnostics) -> (r: Option<(usize, usize)>)
    requires
        entries_sorted(blocks@),
        query.wf(),
        old(diag).wf(),
    ensures
        final(diag).wf(),
        (forall|i: int| 0 <= i < blocks@.len() ==> entry_keys(blocks@)[i] != block.pair()) ==> r is None && final(diag)@ == old(diag)@,
        forall|i: int| 0 <= i < blocks@.len() && entry_keys(blocks@)[i] == block.pair() ==> {
            let props = views(blocks@[i].properties@);
            match query_key(props, query@) {
                Some(key) => final(diag)@ == old(diag)@ && match r {
                    Some((bi, si)) => bi == i && si < blocks@[i].state_keys@.len() && blocks@[i].state_keys@[si as int]@ == key,
                    None => forall|s: int| 0 <= s < blocks@[i].state_keys@.len() ==> blocks@[i].state_keys@[s]@ != key,
                },
                None => r is None && final(diag)@ == recorded(
                    old(diag)@,
                    Severity::Warning,
                    lookup_site(),
                    block.text(),
                    Seq::empty(),
                    "State query doesn't have a property "@ + props[first_missing(props, query@)],
                ),
            }
        },
{
    let bi = match search_block(blocks, block.namespace.as_str(), block.path.as_str()) {
        Some(i) => i,
        None => {
            return None;
        },
    };
    let entry = &blocks[bi];
    let ghost props = views(entry.properties@);
    proof {
        assert forall|i: int| 0 <= i < blocks@.len() && entry_keys(blocks@)[i] == block.pair() implies i == bi by {
            if i != bi {
                if i < bi {
                    assert(entry_keys(blocks@)[i] != entry_keys(blocks@)[bi as int]);
                } else {
                    assert(entry_keys(blocks@)[bi as int] != entry_keys(blocks@)[i]);
                }
            }
        }
    }
    let mut key = String::new();
    let mut k: usize = 0;
    proof {
        assert(props.skip(0) =~= props);
        assert(props.take(0).map_values(|p: Seq<char>| p + "="@ + query@[p]) =~= Seq::<Seq<char>>::empty());
    }
    while k < entry.properties.len()
        invariant
            k <= props.len(),
            diag.wf(),
            *diag == *old(diag),
            bi < blocks@.len(),
            entry_keys(blocks@)[bi as int] == block.pair(),
            *entry == blocks@[bi as int],
            forall|i: int| 0 <= i < blocks@.len() && entry_keys(blocks@)[i] == block.pair() ==> i == bi,
            props == views(entry.properties@),
            query.wf(),
            forall|x: int| 0 <= x < k ==> query@.contains_key(#[trigger] props[x]),
            key@ == joined(props.take(k as int).map_values(|p: Seq<char>| p + "="@ + query@[p]), ","@),
            first_missing(props, query@) == k + first_missing(props.skip(k as int), query@),
        decreases entry.properties.len() - k,
    {
        let prop = &entry.properties[k];
        proof {
            assert(props.skip(k as int).drop_first() =~= props.skip(k as int + 1));
            assert(props.skip(k as int)[0] == props[k as int]);
        }
        let value = match query.get(prop.as_str()) {
            Some(v) => v,
            None => {
                let mut m = "State query doesn't have a property ".to_owned();
                push_str(&mut m, prop.as_str());
                let site = Site::at("capture/lookup.rs", 29, 18);
                diag.warn(&site, block.to_string().as_str(), m);
                proof {
                    assert(first_missing(props.skip(k as int), query@) == 0);
                    assert(!query@.contains_key(props[k as int]));
                    assert(query_key(props, query@) is None);
                }
                return None;
            },
        };
        let ghost items = props.take(k as int).map_values(|p: Seq<char>| p + "="@ + query@[p]);
        let ghost item = props[k as int] + "="@ + query@[props[k as int]];
        if k > 0 {
            push_char(&mut key, ',');
        }
        push_str(&mut key, prop.as_str());
        push_char(&mut key, '=');
        push_str(&mut key, value.as_str());
        proof {
            reveal_strlit(",");
            reveal_strlit("=");
            assert(prop@ == props[k as int]);
            let items2 = props.take(k as int + 1).map_values(|p: Seq<char>| p + "="@ + query@[p]);
            assert(items2 =~= items.push(item));
            assert(items2.drop_last() =~= items);
            if k == 0 {
                assert(items =~= Seq::<Seq<char>>::empty());
                assert(key@ =~= item);
            } else {
                assert(key@ =~= joined(items, ","@) + ","@ + item);
            }
        }
        k = k + 1;
    }
    proof {
        assert(props.take(k as int) =~= props);
        assert(query_key(props, query@) == Some(key@));
    }
    match search_key(&entry.state_keys, &key) {
        Some(si) => Some((bi, si)),
        None => None,
    }
}

/// The tint of a captured material: its own color, else the block's tint at its index, else
/// none (all bits set).
pub open spec fn material_tint(tint_color: Option<u32>, tint_index: Option<u8>, tints: Seq<u32>) -> u32 {
    match tint_color {
        Some(c) => c,
        None => match tint_index {
            Some(i) => if (i as int) < tints.len() { tints[i as int] } else { u32::MAX },
            None => u32::MAX,
        },
    }
}

/// The tint of a captured material (see [`material_tint`]).
pub fn tint_of(tint_color: Option<u32>, tint_index: Option<u8>, tints: &[u32]) -> (t: u32)
    ensures
        t == material_tint(tint_color, tint_index, tints@),
{
    match tint_color {
        Some(c) => c,
        None => match tint_index {
            Some(i) => if (i as usize) < tints.len() {
                tints[i as usize]
            } else {
                u32::MAX
            },
            None => u32::MAX,
        },
    }
}

} // verus!
