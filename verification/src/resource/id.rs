//! Resource identifiers (`namespace:path`) and the pack file paths derived from them.

use vstd::prelude::*;
use crate::util::collections::{keys_distinct, has_key, pairs_map, lemma_pairs_map_at, lemma_pairs_map_len, lemma_pairs_map_push, lemma_pairs_map_remove, lemma_pairs_map_update};
use crate::text::{chars_of, find_char, find_from, find_last, lemma_find_from, lemma_find_from_at, lemma_find_last, push_char, push_str, rfind_char, starts_with, string_of_range};

verus! {

/// A namespaced resource identifier such as `minecraft:block/stone`.
#[derive(Clone, Debug, PartialEq, Eq, Hash)]
pub struct ResourceId {
    pub namespace: String,
    pub path: String,
}

/// The text that failed to parse as a resource identifier.
#[derive(Clone, Debug, PartialEq, Eq)]
pub struct InvalidResourceId {
    pub id: String,
}

/// Characters allowed in a namespace, and in a path, which may also hold `/`.
pub open spec fn id_char_ok(c: char, is_namespace: bool) -> bool {
    ||| ('a' <= c && c <= 'z')
    ||| ('0' <= c && c <= '9')
    ||| c == '.'
    ||| c == '-'
    ||| c == '_'
    ||| (c == '/' && !is_namespace)
}

pub open spec fn id_part_ok(s: Seq<char>, is_namespace: bool) -> bool {
    forall|i: int| 0 <= i < s.len() ==> id_char_ok(#[trigger] s[i], is_namespace)
}

/// Some `/`-separated segment of the path is exactly `..`.
pub open spec fn has_parent_segment(p: Seq<char>) -> bool {
    exists|i: int|
        0 <= i && i + 2 <= p.len() && #[trigger] p[i] == '.' && p[i + 1] == '.' && (i == 0 || p[i - 1]
            == '/') && (i + 2 == p.len() || p[i + 2] == '/')
}

/// The namespace and path that `text` names, or `None` when it is not a valid identifier. The
/// namespace comes before the first `:`; without one, or when it is empty, it is `minecraft`.
/// Namespaces use `a-z 0-9 . - _` and may not be `..`; paths may also use `/`, but no segment
/// may be `..`.
pub open spec fn parse_id(text: Seq<char>) -> Option<(Seq<char>, Seq<char>)> {
    let (ns, path) = match find_from(text, ':', 0) {
        Some(i) => (text.take(i), text.skip(i + 1)),
        None => (Seq::empty(), text),
    };
    let namespace = if ns.len() == 0 || ns == "minecraft"@ {
        Some("minecraft"@)
    } else if ns == ".."@ {
        None
    } else if id_part_ok(ns, true) {
        Some(ns)
    } else {
        None
    };
    match namespace {
        None => None,
        Some(n) => if !id_part_ok(path, false) || has_parent_segment(path) {
            None
        } else {
            Some((n, path))
        },
    }
}

/// The identifier of a pack file path: an optional `assets/` prefix, the namespace, one
/// directory, then the path, whose extension after the last `.` is dropped. `None` when there
/// are fewer than three `/`-separated parts or the namespace or path is empty.
pub open spec fn id_of_file(raw: Seq<char>) -> Option<(Seq<char>, Seq<char>)> {
    let rest = if raw.len() >= 7 && raw.take(7) == "assets/"@ { raw.skip(7) } else { raw };
    match find_from(rest, '/', 0) {
        None => None,
        Some(i1) => match find_from(rest, '/', i1 + 1) {
            None => None,
            Some(i2) => {
                let ns = rest.take(i1);
                let tail = rest.skip(i2 + 1);
                let path = match find_last(tail, '.') {
                    Some(d) => tail.take(d),
                    None => tail,
                };
                if ns.len() == 0 || path.len() == 0 {
                    None
                } else {
                    Some((ns, path))
                }
            },
        },
    }
}

fn id_char(c: char, is_namespace: bool) -> (b: bool)
    ensures
        b == id_char_ok(c, is_namespace),
{
    ('a' <= c && c <= 'z') || ('0' <= c && c <= '9') || c == '.' || c == '-' || c == '_' || (c == '/' && !is_namespace)
}

fn id_part(s: &[char], from: usize, to: usize, is_namespace: bool) -> (b: bool)
    requires
        from <= to <= s@.len(),
    ensures
        b == id_part_ok(s@.subrange(from as int, to as int), is_namespace),
{
    let mut i = from;
    while i < to
        invariant
            from <= i <= to,
            to <= s@.len(),
            forall|j: int| from <= j < i ==> id_char_ok(#[trigger] s@[j], is_namespace),
        decreases to - i,
    {
        if !id_char(s[i], is_namespace) {
            assert(!id_char_ok(s@.subrange(from as int, to as int)[i - from], is_namespace));
            return false;
        }
        i = i + 1;
    }
    assert forall|k: int| 0 <= k < to - from implies id_char_ok(#[trigger] s@.subrange(from as int, to as int)[k], is_namespace) by {
        assert(s@.subrange(from as int, to as int)[k] == s@[from + k]);
    }
    true
}

fn parent_segment(p: &[char], from: usize) -> (b: bool)
    requires
        from <= p@.len(),
    ensures
        b == has_parent_segment(p@.skip(from as int)),
{
    let ghost q = p@.skip(from as int);
    let plen = p.len();
    let n = plen - from;
    let mut i: usize = 0;
    while i < n && n - i >= 2
        invariant
            q == p@.skip(from as int),
            n == q.len(),
            from + n == p@.len(),
            from + n == plen,
            i <= n,
            forall|j: int|
                0 <= j < i && j + 2 <= q.len() ==> !(#[trigger] q[j] == '.' && q[j + 1] == '.' && (j == 0 || q[j - 1] == '/')
                    && (j + 2 == q.len() || q[j + 2] == '/')),
        decreases n - i,
    {
        let at = from + i;
        if p[at] == '.' && p[at + 1] == '.' && (i == 0 || p[at - 1] == '/') && (n - i == 2 || p[at + 2] == '/') {
            assert(q[i as int] == '.');
            return true;
        }
        i = i + 1;
    }
    false
}

fn equals(s: &[char], from: usize, to: usize, lit: &str) -> (b: bool)
    requires
        from <= to <= s@.len(),
    ensures
        b == (s@.subrange(from as int, to as int) == lit@),
{
    let l = chars_of(lit);
    if l.len() != to - from {
        return false;
    }
    let mut i: usize = 0;
    while i < l.len()
        invariant
            i <= l@.len(),
            l@ == lit@,
            l@.len() == to - from,
            from <= to <= s@.len(),
            forall|j: int| 0 <= j < i ==> s@[from + j] == l@[j],
        decreases l.len() - i,
    {
        if s[from + i] != l[i] {
            assert(s@.subrange(from as int, to as int)[i as int] != lit@[i as int]);
            return false;
        }
        i = i + 1;
    }
    assert(s@.subrange(from as int, to as int) =~= lit@);
    true
}

impl ResourceId {
    /// An identifier from a namespace and a path, taken as they are.
    pub fn new(namespace: String, path: String) -> (id: ResourceId)
        ensures
            id.namespace == namespace,
            id.path == path,
    {
        ResourceId { namespace, path }
    }

    /// An identifier from string constants.
    pub fn new_const(namespace: &str, path: &str) -> (id: ResourceId)
        ensures
            id.namespace@ == namespace@,
            id.path@ == path@,
    {
        ResourceId { namespace: String::from_str(namespace), path: String::from_str(path) }
    }

    /// Parses `namespace:path` (see [`parse_id`]).
    pub fn from_str(s: &str) -> (res: Result<ResourceId, InvalidResourceId>)
        ensures
            match res {
                Ok(id) => parse_id(s@) == Some((id.namespace@, id.path@)),
                Err(e) => parse_id(s@) is None && e.id@ == s@,
            },
    {
        let text = chars_of(s);
        let len = text.len();
        let colon = find_char(text.as_slice(), ':', 0);
        proof {
            lemma_find_from(text@, ':', 0);
        }
        let (ns_to, path_from) = match colon {
            Some(i) => (i, i + 1),
            None => (0, 0),
        };
        let ghost ns_seq = text@.subrange(0, ns_to as int);
        let ghost path_seq = text@.subrange(path_from as int, len as int);
        proof {
            match find_from(text@, ':', 0) {
                Some(i) => {
                    assert(ns_seq =~= text@.take(i));
                    assert(path_seq =~= text@.skip(i + 1));
                },
                None => {
                    assert(ns_seq =~= Seq::<char>::empty());
                    assert(path_seq =~= text@);
                },
            }
            reveal_strlit("minecraft");
            reveal_strlit("..");
        }
        let namespace = if ns_to == 0 || equals(text.as_slice(), 0, ns_to, "minecraft") {
            String::from_str("minecraft")
        } else if equals(text.as_slice(), 0, ns_to, "..") {
            return Err(InvalidResourceId { id: String::from_str(s) });
        } else if id_part(text.as_slice(), 0, ns_to, true) {
            string_of_range(text.as_slice(), 0, ns_to)
        } else {
            return Err(InvalidResourceId { id: String::from_str(s) });
        };
        proof {
            if ns_to == 0 {
                assert(ns_seq.len() == 0);
            }
        }
        if !id_part(text.as_slice(), path_from, len, false) {
            return Err(InvalidResourceId { id: String::from_str(s) });
        }
        let parent = parent_segment(text.as_slice(), path_from);
        proof {
            assert(text@.skip(path_from as int) =~= path_seq);
        }
        if parent {
            return Err(InvalidResourceId { id: String::from_str(s) });
        }
        let path = string_of_range(text.as_slice(), path_from, len);
        Ok(ResourceId { namespace, path })
    }

    /// The identifier of a pack file path (see [`id_of_file`]).
    pub fn from_path(path: &str) -> (res: Result<ResourceId, InvalidResourceId>)
        ensures
            match res {
                Ok(id) => id_of_file(path@) == Some((id.namespace@, id.path@)),
                Err(e) => id_of_file(path@) is None && e.id@ == path@,
            },
    {
        let raw = chars_of(path);
        let raw_len = raw.len();
        let prefix = chars_of("assets/");
        proof {
            reveal_strlit("assets/");
        }
        let start: usize = if starts_with(raw.as_slice(), prefix.as_slice()) { 7 } else { 0 };
        let ghost rest = if raw@.len() >= 7 && raw@.take(7) == "assets/"@ { raw@.skip(7) } else { raw@ };
        proof {
            assert(rest =~= raw@.skip(start as int));
        }
        let i1 = match find_char(raw.as_slice(), '/', start) {
            Some(i) => i,
            None => {
                proof {
                    lemma_find_from(rest, '/', 0);
                    lemma_find_from(raw@, '/', start as int);
                    if find_from(rest, '/', 0) is Some {
                        let k = find_from(rest, '/', 0)->0;
                        assert(raw@[start + k] == '/');
                    }
                }
                return Err(InvalidResourceId { id: String::from_str(path) });
            },
        };
        proof {
            lemma_find_from(rest, '/', 0);
            lemma_find_from(raw@, '/', start as int);
            let k = i1 - start;
            assert(rest[k] == '/');
            if find_from(rest, '/', 0) != Some(k) {
                let k2 = find_from(rest, '/', 0)->0;
                assert(raw@[start + k2] == '/');
            }
        }
        let i2 = match find_char(raw.as_slice(), '/', i1 + 1) {
            Some(i) => i,
            None => {
                proof {
                    let k = i1 - start;
                    lemma_find_from(rest, '/', k + 1);
                    lemma_find_from(raw@, '/', i1 + 1);
                    if find_from(rest, '/', k + 1) is Some {
                        let k2 = find_from(rest, '/', k + 1)->0;
                        assert(raw@[start + k2] == '/');
                    }
                }
                return Err(InvalidResourceId { id: String::from_str(path) });
            },
        };
        proof {
            let k = i1 - start;
            lemma_find_from(rest, '/', k + 1);
            lemma_find_from(raw@, '/', i1 + 1);
            let k1 = i2 - start;
            assert(rest[k1] == '/');
            if find_from(rest, '/', k + 1) != Some(k1) {
                let k2 = find_from(rest, '/', k + 1)->0;
                assert(raw@[start + k2] == '/');
            }
        }
        let tail = vstd::slice::slice_subrange(raw.as_slice(), i2 + 1, raw.len());
        let ghost tail_seq = rest.skip(i2 - start + 1);
        proof {
            assert(tail@ =~= tail_seq);
        }
        proof {
            lemma_find_last(tail@, '.');
        }
        let end = match rfind_char(tail, '.') {
            Some(d) => d,
            None => tail.len(),
        };
        if i1 == start || end == 0 {
            proof {
                assert(rest.take(i1 - start).len() == i1 - start);
            }
            return Err(InvalidResourceId { id: String::from_str(path) });
        }
        let namespace = string_of_range(raw.as_slice(), start, i1);
        let p = string_of_range(tail, 0, end);
        proof {
            assert(namespace@ =~= rest.take(i1 - start));
            assert(p@ =~= (match find_last(tail_seq, '.') {
                Some(d) => tail_seq.take(d),
                None => tail_seq,
            }));
        }
        Ok(ResourceId { namespace, path: p })
    }

    /// `assets/<namespace>/<dir>/<path><ext>`.
    fn asset_path(&self, dir: &str, ext: &str) -> (out: String)
        ensures
            out@ == "assets/"@ + self.namespace@ + "/"@ + dir@ + "/"@ + self.path@ + ext@,
    {
        let mut out = String::new();
        push_str(&mut out, "assets/");
        push_str(&mut out, self.namespace.as_str());
        push_str(&mut out, "/");
        push_str(&mut out, dir);
        push_str(&mut out, "/");
        push_str(&mut out, self.path.as_str());
        push_str(&mut out, ext);
        out
    }

    /// `assets/<namespace>/items/<path>.json`
    pub fn item_path(&self) -> (out: String)
        ensures
            out@ == "assets/"@ + self.namespace@ + "/"@ + "items"@ + "/"@ + self.path@ + ".json"@,
    {
        self.asset_path("items", ".json")
    }

    /// `assets/<namespace>/blockstates/<path>.json`
    pub fn blockstate_path(&self) -> (out: String)
        ensures
            out@ == "assets/"@ + self.namespace@ + "/"@ + "blockstates"@ + "/"@ + self.path@ + ".json"@,
    {
        self.asset_path("blockstates", ".json")
    }

    /// `assets/<namespace>/textures/<path>.png`
    pub fn texture_path(&self) -> (out: String)
        ensures
            out@ == "assets/"@ + self.namespace@ + "/"@ + "textures"@ + "/"@ + self.path@ + ".png"@,
    {
        self.asset_path("textures", ".png")
    }

    /// `assets/<namespace>/textures/<path>.png.mcmeta`
    pub fn texture_mcmeta_path(&self) -> (out: String)
        ensures
            out@ == "assets/"@ + self.namespace@ + "/"@ + "textures"@ + "/"@ + self.path@ + ".png.mcmeta"@,
    {
        self.asset_path("textures", ".png.mcmeta")
    }

    /// `assets/<namespace>/models/<path>.json`
    pub fn model_path(&self) -> (out: String)
        ensures
            out@ == "assets/"@ + self.namespace@ + "/"@ + "models"@ + "/"@ + self.path@ + ".json"@,
    {
        self.asset_path("models", ".json")
    }

    /// `assets/<namespace>/textures/palettes/<path>.png`
    pub fn palette_path(&self) -> (out: String)
        ensures
            out@ == "assets/"@ + self.namespace@ + "/"@ + "textures/palettes"@ + "/"@ + self.path@ + ".png"@,
    {
        self.asset_path("textures/palettes", ".png")
    }

    /// The namespace and the path, as text.
    pub open spec fn pair(&self) -> (Seq<char>, Seq<char>) {
        (self.namespace@, self.path@)
    }

    /// Whether two identifiers have the same namespace and path.
    pub fn same(&self, other: &ResourceId) -> (b: bool)
        ensures
            b == (self.pair() == other.pair()),
    {
        self.namespace == other.namespace && self.path == other.path
    }

    /// `namespace:path`, as text.
    pub open spec fn text(&self) -> Seq<char> {
        self.namespace@ + ":"@ + self.path@
    }

    /// A copy of the identifier.
    pub fn duplicate(&self) -> (id: ResourceId)
        ensures
            id == *self,
    {
        ResourceId { namespace: self.namespace.clone(), path: self.path.clone() }
    }

    /// `namespace:path`
    pub fn to_string(&self) -> (out: String)
        ensures
            out@ == self.text(),
    {
        let mut out = String::new();
        push_str(&mut out, self.namespace.as_str());
        push_str(&mut out, ":");
        push_str(&mut out, self.path.as_str());
        out
    }
}

/// A map from resource identifiers to values that keeps its entries in the order their keys
/// first came.
pub struct IdMap<V> {
    entries: Vec<(ResourceId, V)>,
}

impl<V> IdMap<V> {
    /// The entries with their keys as character sequences, in order.
    pub closed spec fn entries(&self) -> Seq<((Seq<char>, Seq<char>), V)> {
        self.entries@.map_values(|e: (ResourceId, V)| (e.0.pair(), e.1))
    }

    /// No two entries share a key.
    pub open spec fn wf(&self) -> bool {
        keys_distinct(self.entries())
    }

    /// An empty map.
    pub fn new() -> (m: IdMap<V>)
        ensures
            m.wf(),
            m.entries().len() == 0,
            m@ == Map::<(Seq<char>, Seq<char>), V>::empty(),
    {
        let m = IdMap { entries: Vec::new() };
        assert(m@ =~= Map::<(Seq<char>, Seq<char>), V>::empty());
        m
    }

    /// The number of entries.
    pub fn len(&self) -> (n: usize)
        requires
            self.wf(),
        ensures
            n == self.entries().len(),
            n == self@.dom().len(),
    {
        proof {
            lemma_pairs_map_len(self.entries());
        }
        self.entries.len()
    }

    /// Whether the map has no entry.
    pub fn is_empty(&self) -> (b: bool)
        requires
            self.wf(),
        ensures
            b == (self@.dom().len() == 0),
            b == (self.entries().len() == 0),
    {
        self.len() == 0
    }

    fn position(&self, key: &ResourceId) -> (res: Option<usize>)
        ensures
            match res {
                Some(i) => i < self.entries().len() && self.entries()[i as int].0 == key.pair(),
                None => !has_key(self.entries(), key.pair()),
            },
    {
        let mut i: usize = 0;
        while i < self.entries.len()
            invariant
                i <= self.entries@.len(),
                forall|j: int| 0 <= j < i ==> #[trigger] self.entries()[j].0 != key.pair(),
            decreases self.entries.len() - i,
        {
            if self.entries[i].0.same(key) {
                return Some(i);
            }
            i = i + 1;
        }
        None
    }

    /// Whether some entry has the key.
    pub fn contains_key(&self, key: &ResourceId) -> (b: bool)
        ensures
            b == self@.contains_key(key.pair()),
    {
        self.position(key).is_some()
    }

    /// The value stored under the key.
    pub fn get(&self, key: &ResourceId) -> (res: Option<&V>)
        requires
            self.wf(),
        ensures
            match res {
                Some(v) => self@.contains_key(key.pair()) && *v == self@[key.pair()],
                None => !self@.contains_key(key.pair()),
            },
    {
        match self.position(key) {
            Some(i) => {
                proof {
                    lemma_pairs_map_at(self.entries(), i as int);
                }
                Some(&self.entries[i].1)
            },
            None => None,
        }
    }

    /// Stores the value under the key, in place of any value stored there before; a new key
    /// goes after all others.
    pub fn insert(&mut self, key: ResourceId, value: V)
        requires
            old(self).wf(),
        ensures
            final(self).wf(),
            final(self)@ == old(self)@.insert(key.pair(), value),
            old(self)@.contains_key(key.pair()) ==> final(self).entries() == old(self).entries().update(
                (choose|i: int| 0 <= i < old(self).entries().len() && #[trigger] old(self).entries()[i].0 == key.pair()),
                (key.pair(), value),
            ),
            !old(self)@.contains_key(key.pair()) ==> final(self).entries() == old(self).entries().push((key.pair(), value)),
    {
        match self.position(&key) {
            Some(i) => {
                let ghost s = self.entries();
                proof {
                    let j = choose|j: int| 0 <= j < s.len() && #[trigger] s[j].0 == key.pair();
                    assert(j == i);
                    lemma_pairs_map_update(s, i as int, value);
                }
                self.entries.set(i, (key, value));
                proof {
                    assert(self.entries() =~= s.update(i as int, (s[i as int].0, value)));
                }
            },
            None => {
                let ghost s = self.entries();
                proof {
                    lemma_pairs_map_push(s, key.pair(), value);
                }
                self.entries.push((key, value));
                proof {
                    assert(self.entries() =~= s.push((key.pair(), value)));
                }
            },
        }
    }

    /// Removes the entry with the key, if there is one, keeping the others in order.
    pub fn remove(&mut self, key: &ResourceId)
        requires
            old(self).wf(),
        ensures
            final(self).wf(),
            final(self)@ == old(self)@.remove(key.pair()),
    {
        match self.position(key) {
            Some(i) => {
                let ghost s = self.entries();
                proof {
                    lemma_pairs_map_remove(s, i as int);
                }
                self.entries.remove(i);
                proof {
                    assert(self.entries() =~= s.remove(i as int));
                }
            },
            None => {
                assert(self@ =~= old(self)@.remove(key.pair()));
            },
        }
    }

    /// The key of the entry at position `i`.
    pub fn key_at(&self, i: usize) -> (k: &ResourceId)
        requires
            i < self.entries().len(),
        ensures
            k.pair() == self.entries()[i as int].0,
    {
        &self.entries[i].0
    }

    /// The value of the entry at position `i`.
    pub fn value_at(&self, i: usize) -> (v: &V)
        requires
            i < self.entries().len(),
        ensures
            *v == self.entries()[i as int].1,
    {
        &self.entries[i].1
    }

    /// The entries hold exactly the map's keys and values.
    pub proof fn lemma_entries(&self)
        requires
            self.wf(),
        ensures
            forall|i: int| 0 <= i < self.entries().len() ==> self@.contains_key(#[trigger] self.entries()[i].0)
                && self@[self.entries()[i].0] == self.entries()[i].1,
            forall|k: (Seq<char>, Seq<char>)| #[trigger] self@.contains_key(k) ==> exists|i: int| 0 <= i < self.entries().len() && #[trigger] self.entries()[i].0 == k,
            self@.dom().finite(),
            self@.dom().len() == self.entries().len(),
    {
        assert forall|i: int| 0 <= i < self.entries().len() implies self@.contains_key(#[trigger] self.entries()[i].0)
            && self@[self.entries()[i].0] == self.entries()[i].1 by {
            lemma_pairs_map_at(self.entries(), i);
        }
        lemma_pairs_map_len(self.entries());
    }
}

impl<V> View for IdMap<V> {
    type V = Map<(Seq<char>, Seq<char>), V>;

    open spec fn view(&self) -> Map<(Seq<char>, Seq<char>), V> {
        pairs_map(self.entries())
    }
}


/// An identifier read from text reads back the same from its own text: parsing
/// `namespace:path` of a parsed identifier gives that identifier again.
pub proof fn lemma_id_round_trip(text: Seq<char>)
    requires
        parse_id(text) is Some,
    ensures
        ({
            let (n, p) = parse_id(text)->0;
            parse_id(n + ":"@ + p) == parse_id(text)
        }),
{
    let (n, p) = parse_id(text)->0;
    let t = n + ":"@ + p;
    reveal_strlit(":");
    reveal_strlit("minecraft");
    reveal_strlit("..");
    lemma_find_from(text, ':', 0);
    assert(id_part_ok("minecraft"@, true)) by {
        assert forall|i: int| 0 <= i < "minecraft"@.len() implies id_char_ok(#[trigger] "minecraft"@[i], true) by {}
    }
    assert(id_part_ok(n, true));
    assert(n.len() > 0);
    assert forall|j: int| 0 <= j < n.len() implies t[j] != ':' by {
        assert(t[j] == n[j]);
        assert(id_char_ok(n[j], true));
    }
    assert(t[n.len() as int] == ':');
    lemma_find_from_at(t, ':', 0, n.len() as int);
    assert(t.take(n.len() as int) =~= n);
    assert(t.skip(n.len() as int + 1) =~= p);
    assert(n != ".."@) by {
        if n == ".."@ {
            assert(n == "minecraft"@ || id_part_ok(n, true));
        }
    }
}


proof fn lemma_find_last_at(s: Seq<char>, c: char, i: int)
    requires
        0 <= i < s.len(),
        s[i] == c,
        forall|j: int| i < j < s.len() ==> s[j] != c,
    ensures
        find_last(s, c) == Some(i),
    decreases s.len(),
{
    if s.last() != c {
        assert(i < s.len() - 1);
        lemma_find_last_at(s.drop_last(), c, i);
    }
}

/// A pack file path made for an identifier reads back as that identifier:
/// `assets/<namespace>/<dir>/<path><ext>` gives the namespace and path again, for a non-empty
/// namespace and a directory without `/`, a non-empty path, and an extension that is a `.`
/// followed by no other `.`.
pub proof fn lemma_asset_path_round_trip(namespace: Seq<char>, dir: Seq<char>, path: Seq<char>, ext: Seq<char>)
    requires
        namespace.len() > 0,
        path.len() > 0,
        forall|i: int| 0 <= i < namespace.len() ==> namespace[i] != '/',
        forall|i: int| 0 <= i < dir.len() ==> dir[i] != '/',
        ext.len() > 0,
        ext[0] == '.',
        forall|i: int| 0 < i < ext.len() ==> ext[i] != '.',
    ensures
        id_of_file("assets/"@ + namespace + "/"@ + dir + "/"@ + path + ext) == Some((namespace, path)),
{
    reveal_strlit("assets/");
    reveal_strlit("/");
    let raw = "assets/"@ + namespace + "/"@ + dir + "/"@ + path + ext;
    let rest = namespace + "/"@ + dir + "/"@ + path + ext;
    assert(raw.take(7) =~= "assets/"@);
    assert(raw.skip(7) =~= rest);
    let i1 = namespace.len() as int;
    let i2 = i1 + 1 + dir.len();
    assert forall|j: int| 0 <= j < i1 implies rest[j] != '/' by {
        assert(rest[j] == namespace[j]);
    }
    assert(rest[i1] == '/');
    lemma_find_from_at(rest, '/', 0, i1);
    assert forall|j: int| i1 + 1 <= j < i2 implies rest[j] != '/' by {
        assert(rest[j] == dir[j - i1 - 1]);
    }
    assert(rest[i2] == '/');
    lemma_find_from_at(rest, '/', i1 + 1, i2);
    let tail = rest.skip(i2 + 1);
    assert(tail =~= path + ext);
    assert(tail[path.len() as int] == '.');
    assert forall|j: int| path.len() < j < tail.len() implies tail[j] != '.' by {
        assert(tail[j] == ext[j - path.len()]);
    }
    lemma_find_last_at(tail, '.', path.len() as int);
    assert(tail.take(path.len() as int) =~= path);
    assert(rest.take(i1) =~= namespace);
}

} // verus!
