//! Resource packs: which pack files a listing shows, and how zip entry names map to pack
//! paths.

use vstd::prelude::*;
use crate::text::{
    chars_of, find_char, find_from, find_last, lemma_find_from, lemma_find_last, push_char, rfind_char, split_once,
    starts_with, string_of, string_of_range,
};

verus! {

/// Whether `p` begins with `prefix`.
pub open spec fn begins_with(p: Seq<char>, prefix: Seq<char>) -> bool {
    prefix.len() <= p.len() && p.take(prefix.len() as int) == prefix
}

/// The text without leading `c`s.
pub open spec fn trim_start_char(s: Seq<char>, c: char) -> Seq<char>
    decreases s.len(),
{
    if s.len() > 0 && s[0] == c {
        trim_start_char(s.drop_first(), c)
    } else {
        s
    }
}

/// The text without trailing `c`s.
pub open spec fn trim_end_char(s: Seq<char>, c: char) -> Seq<char>
    decreases s.len(),
{
    if s.len() > 0 && s.last() == c {
        trim_end_char(s.drop_last(), c)
    } else {
        s
    }
}

/// The directory a listing is restricted to: the prefix without surrounding slashes, none
/// when nothing is left.
pub open spec fn listing_dir(prefix: Option<Seq<char>>) -> Option<Seq<char>> {
    match prefix {
        Some(p) => {
            let t = trim_end_char(trim_start_char(p, '/'), '/');
            if t.len() == 0 { None } else { Some(t) }
        },
        None => None,
    }
}

/// The extension a listing is restricted to: without leading dots, none when nothing is left.
pub open spec fn listing_ext(ext: Seq<char>) -> Option<Seq<char>> {
    let t = trim_start_char(ext, '.');
    if t.len() == 0 { None } else { Some(t) }
}

/// A character in lower case, for ASCII letters.
pub open spec fn ascii_lower(c: char) -> u32 {
    if 'A' <= c && c <= 'Z' {
        ((c as u32) + 32) as u32
    } else {
        c as u32
    }
}

/// Whether two texts are equal ignoring ASCII case.
pub open spec fn eq_ignore_ascii_case(a: Seq<char>, b: Seq<char>) -> bool {
    a.len() == b.len() && forall|i: int| 0 <= i < a.len() ==> ascii_lower(#[trigger] a[i]) == ascii_lower(b[i])
}

/// The last segment of a slash-separated path.
pub open spec fn file_part(rel: Seq<char>) -> Seq<char> {
    match find_last(rel, '/') {
        Some(i) => rel.skip(i + 1),
        None => rel,
    }
}

/// Whether a pack path is listed: it lies under `assets/<namespace>/` with a non-empty
/// namespace and rest; under the directory, when there is one, with something after it; and,
/// when there is an extension, its file name has a non-empty stem and that extension in any
/// ASCII case.
pub open spec fn listed(path: Seq<char>, dir: Option<Seq<char>>, ext: Option<Seq<char>>) -> bool {
    &&& begins_with(path, "assets/"@)
    &&& match split_once(path.skip("assets/"@.len() as int), '/') {
        None => false,
        Some((ns, rel)) => {
            &&& ns.len() > 0
            &&& rel.len() > 0
            &&& match dir {
                Some(d) => begins_with(rel, d) && rel.len() > d.len() + 1 && rel[d.len() as int] == '/',
                None => true,
            }
            &&& match ext {
                None => true,
                Some(e) => {
                    let file = file_part(rel);
                    match find_last(file, '.') {
                        Some(i) => i > 0 && eq_ignore_ascii_case(file.skip(i + 1), e),
                        None => false,
                    }
                },
            }
        },
    }
}

fn trim_char(s: &[char], c: char, both: bool) -> (out: Vec<char>)
    ensures
        out@ == if both {
            trim_end_char(trim_start_char(s@, c), c)
        } else {
            trim_start_char(s@, c)
        },
{
    let mut a: usize = 0;
    proof {
        assert(s@.skip(0) =~= s@);
    }
    while a < s.len() && s[a] == c
        invariant
            a <= s@.len(),
            trim_start_char(s@, c) == trim_start_char(s@.skip(a as int), c),
        decreases s.len() - a,
    {
        proof {
            assert(s@.skip(a as int).drop_first() =~= s@.skip(a as int + 1));
        }
        a = a + 1;
    }
    let ghost rest = s@.skip(a as int);
    proof {
        assert(trim_start_char(rest, c) == rest);
        assert(s@.subrange(a as int, s@.len() as int) =~= rest);
    }
    let mut b: usize = s.len();
    if both {
        while b > a && s[b - 1] == c
            invariant
                a <= b <= s@.len(),
                trim_end_char(rest, c) == trim_end_char(s@.subrange(a as int, b as int), c),
            decreases b,
        {
            proof {
                assert(s@.subrange(a as int, b as int).drop_last() =~= s@.subrange(a as int, b as int - 1));
            }
            b = b - 1;
        }
        proof {
            assert(trim_end_char(s@.subrange(a as int, b as int), c) == s@.subrange(a as int, b as int));
        }
    }
    let mut out: Vec<char> = Vec::new();
    let mut i = a;
    while i < b
        invariant
            a <= i <= b <= s@.len(),
            out@ == s@.subrange(a as int, i as int),
        decreases b - i,
    {
        out.push(s[i]);
        proof {
            assert(s@.subrange(a as int, i as int + 1) =~= s@.subrange(a as int, i as int).push(s@[i as int]));
        }
        i = i + 1;
    }
    out
}

/// The directory a listing is restricted to (see [`listing_dir`]).
pub fn normalize_dir(prefix: Option<&str>) -> (d: Option<Vec<char>>)
    ensures
        match d {
            Some(v) => listing_dir(match prefix { Some(p) => Some(p@), None => None }) == Some(v@),
            None => listing_dir(match prefix { Some(p) => Some(p@), None => None }) is None,
        },
{
    match prefix {
        None => None,
        Some(p) => {
            let t = trim_char(chars_of(p).as_slice(), '/', true);
            if t.len() == 0 {
                None
            } else {
                Some(t)
            }
        },
    }
}

/// The extension a listing is restricted to (see [`listing_ext`]).
pub fn normalize_ext(ext: &str) -> (e: Option<Vec<char>>)
    ensures
        match e {
            Some(v) => listing_ext(ext@) == Some(v@),
            None => listing_ext(ext@) is None,
        },
{
    let t = trim_char(chars_of(ext).as_slice(), '.', false);
    if t.len() == 0 {
        None
    } else {
        Some(t)
    }
}

fn lower(c: char) -> (u: u32)
    ensures
        u == ascii_lower(c),
{
    if 'A' <= c && c <= 'Z' {
        (c as u32) + 32
    } else {
        c as u32
    }
}

fn eq_ignore_case_from(a: &[char], from: usize, b: &[char]) -> (r: bool)
    requires
        from <= a@.len(),
    ensures
        r == eq_ignore_ascii_case(a@.skip(from as int), b@),
{
    let alen = a.len();
    if alen - from != b.len() {
        return false;
    }
    let mut i: usize = 0;
    while i < b.len()
        invariant
            alen == a@.len(),
            from + b@.len() == a@.len(),
            i <= b@.len(),
            forall|j: int| 0 <= j < i ==> ascii_lower(#[trigger] a@.skip(from as int)[j]) == ascii_lower(b@[j]),
        decreases b.len() - i,
    {
        if lower(a[from + i]) != lower(b[i]) {
            assert(a@.skip(from as int)[i as int] == a@[from + i]);
            return false;
        }
        assert(a@.skip(from as int)[i as int] == a@[from + i]);
        i = i + 1;
    }
    true
}

/// Whether a pack path is listed (see [`listed`]).
pub fn path_matches(path: &str, dir: &Option<Vec<char>>, ext: &Option<Vec<char>>) -> (b: bool)
    ensures
        b == listed(
            path@,
            match dir { Some(d) => Some(d@), None => None },
            match ext { Some(e) => Some(e@), None => None },
        ),
{
    let p = chars_of(path);
    let assets = chars_of("assets/");
    if !starts_with(p.as_slice(), assets.as_slice()) {
        return false;
    }
    let rest_s = string_of_range(p.as_slice(), assets.len(), p.len());
    let rest = chars_of(rest_s.as_str());
    proof {
        assert(rest@ =~= path@.skip("assets/"@.len() as int));
        lemma_find_from(rest@, '/', 0);
    }
    let slash = match find_char(rest.as_slice(), '/', 0) {
        Some(s) => s,
        None => {
            return false;
        },
    };
    let rl = rest.len();
    let rel_s = string_of_range(rest.as_slice(), slash + 1, rl);
    let rel = chars_of(rel_s.as_str());
    proof {
        assert(rel@ =~= rest@.skip(slash as int + 1));
        assert(rest@.take(slash as int).len() == slash);
    }
    if slash == 0 || rel.len() == 0 {
        return false;
    }
    if let Some(d) = dir {
        if !starts_with(rel.as_slice(), d.as_slice()) {
            return false;
        }
        if !(rel.len() > d.len() + 1 && rel[d.len()] == '/') {
            return false;
        }
    }
    match ext {
        None => true,
        Some(e) => {
            proof {
                lemma_find_last(rel@, '/');
            }
            let file: Vec<char> = match rfind_char(rel.as_slice(), '/') {
                Some(i) => {
                    let f = string_of_range(rel.as_slice(), i + 1, rel.len());
                    proof {
                        assert(f@ =~= rel@.skip(i + 1));
                    }
                    chars_of(f.as_str())
                },
                None => rel,
            };
            proof {
                lemma_find_last(file@, '.');
            }
            match rfind_char(file.as_slice(), '.') {
                Some(i) => i > 0 && eq_ignore_case_from(file.as_slice(), i + 1, e.as_slice()),
                None => false,
            }
        },
    }
}

/// A zip archive root with a trailing slash.
pub open spec fn with_slash(root: Seq<char>) -> Seq<char> {
    if root.len() > 0 && root.last() == '/' { root } else { root.push('/') }
}

/// Adds a trailing slash to a zip archive root that has none.
pub fn normalize_root(root: Option<String>) -> (r: Option<String>)
    ensures
        match r {
            Some(s) => root matches Some(x) && s@ == with_slash(x@),
            None => root is None,
        },
{
    match root {
        None => None,
        Some(mut root) => {
            let c = chars_of(root.as_str());
            if !(c.len() > 0 && c[c.len() - 1] == '/') {
                push_char(&mut root, '/');
            }
            Some(root)
        },
    }
}

/// How a zip entry is stored.
#[derive(Copy, Clone, Debug, PartialEq, Eq, Structural)]
pub enum EntryMethod {
    Store,
    Deflate,
    Other(u16),
}

/// What becomes of a zip entry when a pack is opened.
#[derive(Clone, Debug)]
pub enum EntryDecision {
    /// Outside the root: left out.
    Skip,
    /// Kept under this pack path.
    Keep(String),
    /// Stored in a way that cannot be read: opening fails, naming the method and the entry.
    Unsupported(u16, String),
}

/// What becomes of a zip entry named `name` under the (slash-terminated) root: entries stored
/// otherwise than plainly or deflated fail the pack; others outside the root are left out; the
/// rest are kept under their name without the root.
pub open spec fn entry_decision(name: Seq<char>, method: EntryMethod, root: Option<Seq<char>>) -> Option<Result<Seq<char>, (u16, Seq<char>)>> {
    match method {
        EntryMethod::Other(m) => Some(Err((m, name))),
        _ => match root {
            Some(r) => if begins_with(name, r) {
                Some(Ok(name.skip(r.len() as int)))
            } else {
                None
            },
            None => Some(Ok(name)),
        },
    }
}

/// What becomes of a zip entry (see [`entry_decision`]).
pub fn classify_entry(name: &str, method: EntryMethod, root: &Option<String>) -> (d: EntryDecision)
    ensures
        entry_decision(name@, method, match root { Some(r) => Some(r@), None => None }) == match d {
            EntryDecision::Skip => None,
            EntryDecision::Keep(p) => Some(Ok(p@)),
            EntryDecision::Unsupported(m, n) => Some(Err((m, n@))),
        },
{
    match method {
        EntryMethod::Other(m) => EntryDecision::Unsupported(m, name.to_owned()),
        _ => match root {
            None => EntryDecision::Keep(name.to_owned()),
            Some(r) => {
                let n = chars_of(name);
                let rc = chars_of(r.as_str());
                if starts_with(n.as_slice(), rc.as_slice()) {
                    let kept = string_of_range(n.as_slice(), rc.len(), n.len());
                    proof {
                        assert(kept@ =~= name@.skip(r@.len() as int));
                    }
                    EntryDecision::Keep(kept)
                } else {
                    EntryDecision::Skip
                }
            },
        },
    }
}

} // verus!
