//! Picking the models a block state applies for a given set of property values.

use vstd::prelude::*;
use crate::resource::blockstate::{BlockStateModel, Condition, StateProperties, Term, property_pairs};
use crate::text::{
    chars_of, find_char, find_from, lemma_find_from, split, split_chars, split_once, string_of_range, trim,
    trim_bounds,
};
use crate::util::collections::StrMap;

verus! {

/// The part of a state query between the brackets: the text is trimmed, a closing `]` is
/// dropped, and anything up to the first `[` is dropped.
pub open spec fn query_body(q: Seq<char>) -> Seq<char> {
    let t = trim(q);
    let t2 = if t.len() > 0 && t.last() == ']' { t.drop_last() } else { t };
    match find_from(t2, '[', 0) {
        Some(i) => t2.skip(i + 1),
        None => t2,
    }
}

/// The pair a piece of a query gives: blank pieces and pieces without `=` give none; others
/// give the trimmed text before and after the first `=`.
pub open spec fn piece_entry(p: Seq<char>) -> Seq<(Seq<char>, Seq<char>)> {
    if trim(p).len() == 0 {
        Seq::empty()
    } else {
        match split_once(p, '=') {
            Some((k, v)) => seq![(trim(k), trim(v))],
            None => Seq::empty(),
        }
    }
}

/// The pairs the pieces give, in order.
pub open spec fn piece_entries(ps: Seq<Seq<char>>) -> Seq<(Seq<char>, Seq<char>)>
    decreases ps.len(),
{
    if ps.len() == 0 {
        Seq::empty()
    } else {
        piece_entries(ps.drop_last()) + piece_entry(ps.last())
    }
}

/// The map the pairs make, a later pair over an earlier one with the same name.
pub open spec fn table_of(es: Seq<(Seq<char>, Seq<char>)>) -> Map<Seq<char>, Seq<char>>
    decreases es.len(),
{
    if es.len() == 0 {
        Map::empty()
    } else {
        table_of(es.drop_last()).insert(es.last().0, es.last().1)
    }
}

/// The property values a query such as `minecraft:oak_stairs[facing=east, half=top]` or
/// `facing=east,half=top` sets.
pub open spec fn query_values(q: Seq<char>) -> Map<Seq<char>, Seq<char>> {
    table_of(piece_entries(split(query_body(q), ',')))
}

/// The property values of a block state being rendered.
pub struct StateQuery {
    pub pairs: StrMap<String>,
}

impl View for StateQuery {
    type V = Map<Seq<char>, Seq<char>>;

    open spec fn view(&self) -> Map<Seq<char>, Seq<char>> {
        self.pairs@.map_values(|s: String| s@)
    }
}

impl StateQuery {
    /// The map holds its entries.
    pub open spec fn wf(&self) -> bool {
        self.pairs.wf()
    }

    /// Reads a query (see [`query_values`]).
    pub fn parse(query: &str) -> (q: StateQuery)
        ensures
            q.wf(),
            q@ == query_values(query@),
    {
        let all = chars_of(query);
        let (a, b) = trim_bounds(all.as_slice());
        let mut end = b;
        if b > a && all[b - 1] == ']' {
            end = b - 1;
        }
        let mut start = a;
        let ghost t2 = all@.subrange(a as int, end as int);
        let mut body: Vec<char> = Vec::new();
        let mut j = a;
        while j < end
            invariant
                a <= j <= end <= all@.len(),
                body@ == all@.subrange(a as int, j as int),
            decreases end - j,
        {
            body.push(all[j]);
            proof {
                assert(all@.subrange(a as int, j as int + 1) =~= all@.subrange(a as int, j as int).push(all@[j as int]));
            }
            j = j + 1;
        }
        proof {
            assert(t2 =~= if trim(query@).len() > 0 && trim(query@).last() == ']' { trim(query@).drop_last() } else { trim(query@) });
            lemma_find_from(body@, '[', 0);
        }
        let inner: Vec<char> = match find_char(body.as_slice(), '[', 0) {
            Some(i) => {
                let mut v: Vec<char> = Vec::new();
                let mut k = i + 1;
                while k < body.len()
                    invariant
                        i < body@.len(),
                        i + 1 <= k <= body@.len(),
                        v@ == body@.subrange(i + 1, k as int),
                    decreases body.len() - k,
                {
                    v.push(body[k]);
                    proof {
                        assert(body@.subrange(i + 1, k as int + 1) =~= body@.subrange(i + 1, k as int).push(body@[k as int]));
                    }
                    k = k + 1;
                }
                proof {
                    assert(v@ =~= body@.skip(i + 1));
                }
                v
            },
            None => body,
        };
        proof {
            assert(inner@ == query_body(query@));
        }
        let pieces = split_chars(inner.as_slice(), ',');
        let ghost ps = pieces@.map_values(|p: Vec<char>| p@);
        let mut pairs: StrMap<String> = StrMap::new();
        let mut i: usize = 0;
        proof {
            assert(ps.take(0) =~= Seq::<Seq<char>>::empty());
            assert(pairs@.map_values(|s: String| s@) =~= Map::<Seq<char>, Seq<char>>::empty());
        }
        while i < pieces.len()
            invariant
                i <= pieces@.len(),
                ps == pieces@.map_values(|p: Vec<char>| p@),
                ps == split(query_body(query@), ','),
                pairs.wf(),
                pairs@.map_values(|s: String| s@) == table_of(piece_entries(ps.take(i as int))),
            decreases pieces.len() - i,
        {
            let p = &pieces[i];
            let ghost pv = p@;
            proof {
                assert(ps.take(i as int + 1).drop_last() =~= ps.take(i as int));
                assert(ps.take(i as int + 1).last() == pv);
            }
            let (pa, pb) = trim_bounds(p.as_slice());
            if pa < pb {
                proof {
                    lemma_find_from(pv, '=', 0);
                }
                match find_char(p.as_slice(), '=', 0) {
                    Some(e) => {
                        let key_chars = string_of_range(p.as_slice(), 0, e);
                        let key_all = chars_of(key_chars.as_str());
                        let (ka, kb) = trim_bounds(key_all.as_slice());
                        let key = string_of_range(key_all.as_slice(), ka, kb);
                        let plen = p.len();
                        assert(e < plen);
                        let value_chars = string_of_range(p.as_slice(), e + 1, plen);
                        let value_all = chars_of(value_chars.as_str());
                        let (va, vb) = trim_bounds(value_all.as_slice());
                        let value = string_of_range(value_all.as_slice(), va, vb);
                        let ghost before = pairs@.map_values(|s: String| s@);
                        proof {
                            assert(pv.take(e as int) =~= pv.subrange(0, e as int));
                            assert(pv.skip(e as int + 1) =~= pv.subrange(e as int + 1, pv.len() as int));
                            assert(piece_entry(pv) == seq![(key@, value@)]);
                        }
                        let ghost kv = key@;
                        let ghost vv = value@;
                        pairs.insert(key, value);
                        proof {
                            assert(pairs@.map_values(|s: String| s@) =~= before.insert(kv, vv));
                            let pe = piece_entries(ps.take(i as int + 1));
                            assert(pe =~= piece_entries(ps.take(i as int)).push((kv, vv)));
                            assert(pe.drop_last() =~= piece_entries(ps.take(i as int)));
                            assert(table_of(pe) == table_of(pe.drop_last()).insert(kv, vv));
                        }
                    },
                    None => {
                        proof {
                            assert(piece_entry(pv) =~= Seq::<(Seq<char>, Seq<char>)>::empty());
                            assert(piece_entries(ps.take(i as int + 1)) =~= piece_entries(ps.take(i as int)));
                        }
                    },
                }
            } else {
                proof {
                    assert(piece_entry(pv) =~= Seq::<(Seq<char>, Seq<char>)>::empty());
                    assert(piece_entries(ps.take(i as int + 1)) =~= piece_entries(ps.take(i as int)));
                }
            }
            i = i + 1;
        }
        proof {
            assert(ps.take(ps.len() as int) =~= ps);
        }
        StateQuery { pairs }
    }

    /// The value the query sets for a property.
    pub fn get(&self, key: &str) -> (v: Option<&String>)
        requires
            self.wf(),
        ensures
            match v {
                Some(s) => self@.contains_key(key@) && s@ == self@[key@],
                None => !self@.contains_key(key@),
            },
    {
        self.pairs.get(key)
    }
}

/// Whether one alternative of a term accepts a value: `!v` accepts anything but `v`, and
/// `v` accepts only `v`.
pub open spec fn alternative_matches(alt: Seq<char>, actual: Seq<char>) -> bool {
    if alt.len() > 0 && alt[0] == '!' {
        actual != alt.drop_first()
    } else {
        actual == alt
    }
}

/// Whether the query sets the term's property to a value one of its `|`-separated
/// alternatives accepts.
pub open spec fn term_holds(t: Term, q: Map<Seq<char>, Seq<char>>) -> bool {
    &&& q.contains_key(t.property@)
    &&& exists|i: int| 0 <= i < split(t.alternatives@, '|').len() && alternative_matches(
        #[trigger] split(t.alternatives@, '|')[i],
        q[t.property@],
    )
}

/// Whether a condition holds for the query: some sub-condition of an `OR`, every
/// sub-condition of an `AND`, every term of a term list.
pub open spec fn holds(c: Condition, q: Map<Seq<char>, Seq<char>>) -> bool
    decreases c,
{
    match c {
        Condition::Or(subs) => exists|i: int| 0 <= i < subs@.len() && holds(#[trigger] subs@[i], q),
        Condition::And(subs) => forall|i: int| 0 <= i < subs@.len() ==> holds(#[trigger] subs@[i], q),
        Condition::Terms(ts) => forall|i: int| 0 <= i < ts@.len() ==> term_holds(#[trigger] ts@[i], q),
    }
}

proof fn lemma_terms_hold(ts: Vec<Term>, q: Map<Seq<char>, Seq<char>>, i: int)
    requires
        0 <= i < ts@.len(),
        !term_holds(ts@[i], q),
    ensures
        !holds(Condition::Terms(ts), q),
{
    assert(ts@[i] == Condition::Terms(ts)->Terms_0@[i]);
}

/// Whether the query satisfies a term (see [`term_holds`]).
pub fn term_matches(term: &Term, query: &StateQuery) -> (b: bool)
    requires
        query.wf(),
    ensures
        b == term_holds(*term, query@),
{
    let actual = match query.get(term.property.as_str()) {
        Some(a) => a,
        None => {
            return false;
        },
    };
    let alts = split_chars(chars_of(term.alternatives.as_str()).as_slice(), '|');
    let ghost av = alts@.map_values(|p: Vec<char>| p@);
    let actual_chars = chars_of(actual.as_str());
    let mut i: usize = 0;
    while i < alts.len()
        invariant
            i <= alts@.len(),
            av == alts@.map_values(|p: Vec<char>| p@),
            av == split(term.alternatives@, '|'),
            query@.contains_key(term.property@),
            actual_chars@ == query@[term.property@],
            forall|j: int| 0 <= j < i ==> !alternative_matches(#[trigger] av[j], actual_chars@),
        decreases alts.len() - i,
    {
        let alt = &alts[i];
        let ok = if alt.len() > 0 && alt[0] == '!' {
            !same_chars_from(actual_chars.as_slice(), alt.as_slice(), 1)
        } else {
            same_chars_from(actual_chars.as_slice(), alt.as_slice(), 0)
        };
        proof {
            assert(alt@.skip(0) =~= alt@);
            assert(alt@.len() > 0 ==> alt@.skip(1) =~= alt@.drop_first());
        }
        if ok {
            assert(alternative_matches(split(term.alternatives@, '|')[i as int], query@[term.property@]));
            return true;
        }
        i = i + 1;
    }
    false
}

/// Whether `a` is the same text as `b[from..]`.
fn same_chars_from(a: &[char], b: &[char], from: usize) -> (r: bool)
    requires
        from <= b@.len(),
    ensures
        r == (a@ == b@.skip(from as int)),
{
    if a.len() != b.len() - from {
        proof {
            assert(a@.len() != b@.skip(from as int).len());
        }
        return false;
    }
    let blen = b.len();
    let mut i: usize = 0;
    while i < a.len()
        invariant
            i <= a@.len(),
            blen == b@.len(),
            a@.len() == b@.len() - from,
            forall|j: int| 0 <= j < i ==> a@[j] == b@[from + j],
        decreases a.len() - i,
    {
        if a[i] != b[from + i] {
            proof {
                assert(a@[i as int] != b@.skip(from as int)[i as int]);
            }
            return false;
        }
        i = i + 1;
    }
    proof {
        assert(a@ =~= b@.skip(from as int));
    }
    true
}

impl Condition {
    /// Whether the condition holds for the query (see [`holds`]).
    pub fn matches(&self, query: &StateQuery) -> (b: bool)
        requires
            query.wf(),
        ensures
            b == holds(*self, query@),
        decreases self,
    {
        match self {
            Condition::Or(subs) => {
                let mut i: usize = 0;
                while i < subs.len()
                    invariant
                        i <= subs@.len(),
                        query.wf(),
                        *self == Condition::Or(*subs),
                        forall|j: int| 0 <= j < i ==> !holds(#[trigger] subs@[j], query@),
                    decreases subs.len() - i,
                {
                    proof {
                        assert(decreases_to!(*self => self->Or_0));
                        assert(decreases_to!(self->Or_0 => self->Or_0[i as int]));
                    }
                    if subs[i].matches(query) {
                        assert(holds(subs@[i as int], query@));
                        return true;
                    }
                    i = i + 1;
                }
                false
            },
            Condition::And(subs) => {
                let mut i: usize = 0;
                while i < subs.len()
                    invariant
                        i <= subs@.len(),
                        query.wf(),
                        *self == Condition::And(*subs),
                        forall|j: int| 0 <= j < i ==> holds(#[trigger] subs@[j], query@),
                    decreases subs.len() - i,
                {
                    proof {
                        assert(decreases_to!(*self => self->And_0));
                        assert(decreases_to!(self->And_0 => self->And_0[i as int]));
                    }
                    if !subs[i].matches(query) {
                        assert(!holds(subs@[i as int], query@));
                        return false;
                    }
                    i = i + 1;
                }
                true
            },
            Condition::Terms(terms) => {
                let mut i: usize = 0;
                while i < terms.len()
                    invariant
                        i <= terms@.len(),
                        query.wf(),
                        *self == Condition::Terms(*terms),
                        forall|j: int| 0 <= j < i ==> term_holds(#[trigger] terms@[j], query@),
                    decreases terms.len() - i,
                {
                    if !term_matches(&terms[i], query) {
                        proof {
                            lemma_terms_hold(*terms, query@, i as int);
                        }
                        return false;
                    }
                    i = i + 1;
                }
                true
            },
        }
    }
}

/// Whether the query sets every property of a variant key to the key's value.
pub open spec fn key_matches(pairs: Seq<(Seq<char>, Seq<char>)>, q: Map<Seq<char>, Seq<char>>) -> bool {
    forall|i: int| 0 <= i < pairs.len() ==> q.contains_key(#[trigger] pairs[i].0) && q[pairs[i].0] == pairs[i].1
}

/// The first variant whose key the query matches.
pub open spec fn first_variant<P>(vs: Seq<(StateProperties, Vec<(P, u32)>)>, q: Map<Seq<char>, Seq<char>>) -> Option<int>
    decreases vs.len(),
{
    if vs.len() == 0 {
        None
    } else if key_matches(property_pairs(vs[0].0.key()), q) {
        Some(0)
    } else {
        match first_variant(vs.drop_first(), q) {
            Some(i) => Some(i + 1),
            None => None,
        }
    }
}

/// The first model of each part whose condition is absent or holds, in order.
pub open spec fn applied_parts<P>(ps: Seq<(Option<Condition>, Vec<(P, u32)>)>, q: Map<Seq<char>, Seq<char>>) -> Seq<P>
    decreases ps.len(),
{
    if ps.len() == 0 {
        Seq::empty()
    } else {
        let last = ps.last();
        let rest = applied_parts(ps.drop_last(), q);
        let applies = match last.0 {
            Some(c) => holds(c, q),
            None => true,
        };
        if applies && last.1@.len() > 0 {
            rest.push(last.1@[0].0)
        } else {
            rest
        }
    }
}

/// The models a block state applies for the query: for variants, the first model of the first
/// variant whose key matches; for multipart, the first model of each part that applies.
pub open spec fn applied<P>(model: BlockStateModel<P>, q: Map<Seq<char>, Seq<char>>) -> Seq<P> {
    match model {
        BlockStateModel::Variants(vs) => match first_variant(vs@, q) {
            Some(i) => if vs@[i].1@.len() > 0 {
                seq![vs@[i].1@[0].0]
            } else {
                Seq::empty()
            },
            None => Seq::empty(),
        },
        BlockStateModel::Multipart(ps) => applied_parts(ps@, q),
    }
}

/// Whether every variant key of the model holds its pairs' ranges.
pub open spec fn model_wf<P>(model: BlockStateModel<P>) -> bool {
    match model {
        BlockStateModel::Variants(vs) => forall|i: int| 0 <= i < vs@.len() ==> (#[trigger] vs@[i]).0.wf(),
        BlockStateModel::Multipart(_) => true,
    }
}

fn key_matches_query(key: &StateProperties, props: &StateQuery) -> (b: bool)
    requires
        key.wf(),
        props.wf(),
    ensures
        b == key_matches(property_pairs(key.key()), props@),
{
    let pairs = key.iter();
    let ghost pv = pairs@.map_values(|p: (String, String)| (p.0@, p.1@));
    let mut i: usize = 0;
    while i < pairs.len()
        invariant
            i <= pairs@.len(),
            props.wf(),
            pv == pairs@.map_values(|p: (String, String)| (p.0@, p.1@)),
            pv == property_pairs(key.key()),
            forall|j: int| 0 <= j < i ==> props@.contains_key(#[trigger] pv[j].0) && props@[pv[j].0] == pv[j].1,
        decreases pairs.len() - i,
    {
        let ok = match props.get(pairs[i].0.as_str()) {
            Some(v) => *v == pairs[i].1,
            None => false,
        };
        if !ok {
            assert(!(props@.contains_key(pv[i as int].0) && props@[pv[i as int].0] == pv[i as int].1));
            return false;
        }
        i = i + 1;
    }
    true
}

/// The models a block state applies for the query (see [`applied`]).
pub fn parts<'a, P>(model: &'a BlockStateModel<P>, props: &StateQuery) -> (out: Vec<&'a P>)
    requires
        model_wf(*model),
        props.wf(),
    ensures
        out@.map_values(|p: &P| *p) == applied(*model, props@),
{
    match model {
        BlockStateModel::Variants(variants) => {
            let mut i: usize = 0;
            proof {
                assert(variants@.skip(0) =~= variants@);
            }
            while i < variants.len()
                invariant
                    i <= variants@.len(),
                    props.wf(),
                    *model == BlockStateModel::Variants(*variants),
                    forall|j: int| 0 <= j < variants@.len() ==> (#[trigger] variants@[j]).0.wf(),
                    first_variant(variants@, props@) == match first_variant(variants@.skip(i as int), props@) {
                        Some(k) => Some(k + i),
                        None => None::<int>,
                    },
                decreases variants.len() - i,
            {
                proof {
                    assert(variants@.skip(i as int).drop_first() =~= variants@.skip(i as int + 1));
                    assert(variants@.skip(i as int)[0] == variants@[i as int]);
                }
                if key_matches_query(&variants[i].0, props) {
                    assert(first_variant(variants@.skip(i as int), props@) == Some(0int));
                    assert(first_variant(variants@, props@) == Some(i as int));
                    let weighted = &variants[i].1;
                    let mut out: Vec<&'a P> = Vec::new();
                    assert(*model == BlockStateModel::Variants(*variants));
                    if weighted.len() > 0 {
                        out.push(&weighted[0].0);
                        assert(out@.map_values(|p: &P| *p) =~= seq![variants@[i as int].1@[0].0]);
                    } else {
                        assert(out@.map_values(|p: &P| *p) =~= Seq::<P>::empty());
                    }
                    proof {
                        assert(out@.map_values(|p: &P| *p) =~= applied(*model, props@));
                    }
                    return out;
                }
                i = i + 1;
            }
            let out: Vec<&'a P> = Vec::new();
            proof {
                assert(variants@.skip(i as int).len() == 0);
                assert(out@.map_values(|p: &P| *p) =~= applied(*model, props@));
            }
            out
        },
        BlockStateModel::Multipart(multipart) => {
            let mut out: Vec<&'a P> = Vec::new();
            let mut i: usize = 0;
            while i < multipart.len()
                invariant
                    i <= multipart@.len(),
                    props.wf(),
                    out@.map_values(|p: &P| *p) == applied_parts(multipart@.take(i as int), props@),
                decreases multipart.len() - i,
            {
                let applies = match &multipart[i].0 {
                    Some(c) => c.matches(props),
                    None => true,
                };
                proof {
                    assert(multipart@.take(i as int + 1).drop_last() =~= multipart@.take(i as int));
                    assert(multipart@.take(i as int + 1).last() == multipart@[i as int]);
                }
                let weighted = &multipart[i].1;
                let ghost before = out@.map_values(|p: &P| *p);
                if applies && weighted.len() > 0 {
                    out.push(&weighted[0].0);
                    proof {
                        assert(out@.map_values(|p: &P| *p) =~= before.push(weighted@[0].0));
                    }
                }
                i = i + 1;
            }
            proof {
                assert(multipart@.take(i as int) =~= multipart@);
            }
            out
        },
    }
}

} // verus!
