//! Registry names: turning a Rust variant name into the snake-case name a registry uses.

use vstd::prelude::*;
use crate::text::{chars_of, find_char, lemma_find_from, push_char, push_str, split_once, string_of_range};

verus! {

/// Whether `char::is_uppercase` holds of a character (the Unicode `Uppercase` property).
pub uninterp spec fn uppercase(c: char) -> bool;

/// Whether `char::is_lowercase` holds of a character (the Unicode `Lowercase` property).
pub uninterp spec fn lowercase(c: char) -> bool;

/// What `char::to_lowercase` gives for a character: one or more characters.
pub uninterp spec fn lowered(c: char) -> Seq<char>;

/// `char::is_uppercase`. Claims only that the answer depends on the character alone; which
/// characters are upper case is named, not stated.
#[verifier::external_body]
fn is_uppercase(c: char) -> (b: bool)
    ensures
        b == uppercase(c),
{
    c.is_uppercase()
}

/// `char::is_lowercase`. Claims only that the answer depends on the character alone.
#[verifier::external_body]
fn is_lowercase(c: char) -> (b: bool)
    ensures
        b == lowercase(c),
{
    c.is_lowercase()
}

/// `char::to_lowercase`, collected into a string. Claims only that the result depends on the
/// character alone.
#[verifier::external_body]
fn to_lowercase(c: char) -> (s: String)
    ensures
        s@ == lowered(c),
{
    c.to_lowercase().collect()
}

/// The snake-case form of the first `n` characters: each upper-case character is lowered, and
/// an underscore goes before it (unless the output already ends with one, or it is the first
/// character) when the character before or after it is lower case.
pub open spec fn snake(chars: Seq<char>, n: nat) -> Seq<char>
    decreases n,
{
    if n == 0 || n > chars.len() {
        Seq::empty()
    } else {
        let prev = snake(chars, (n - 1) as nat);
        let i = n - 1;
        let c = chars[i];
        if !uppercase(c) {
            prev.push(c)
        } else {
            let boundary = i > 0 && !(prev.len() > 0 && prev.last() == '_') && (lowercase(chars[i - 1]) || (i + 1
                < chars.len() && lowercase(chars[i + 1])));
            (if boundary { prev.push('_') } else { prev }) + lowered(c)
        }
    }
}

/// The snake-case form of a name such as `BundleSelectedItem` (see [`snake`]).
pub fn to_snake_case(s: &str) -> (out: String)
    ensures
        out@ == snake(s@, s@.len()),
{
    let chars = chars_of(s);
    let mut result = String::new();
    let mut i: usize = 0;
    while i < chars.len()
        invariant
            i <= chars@.len(),
            chars@ == s@,
            result@ == snake(s@, i as nat),
        decreases chars.len() - i,
    {
        let c = chars[i];
        let ghost prev = result@;
        if !is_uppercase(c) {
            push_char(&mut result, c);
        } else {
            let r = chars_of(result.as_str());
            let ends_with_sep = r.len() > 0 && r[r.len() - 1] == '_';
            if i > 0 && !ends_with_sep {
                let prev_lower = is_lowercase(chars[i - 1]);
                let next_lower = i + 1 < chars.len() && is_lowercase(chars[i + 1]);
                if prev_lower || next_lower {
                    push_char(&mut result, '_');
                }
            }
            push_str(&mut result, to_lowercase(c).as_str());
        }
        proof {
            assert(snake(s@, (i + 1) as nat) == result@);
        }
        i = i + 1;
    }
    result
}


/// A registry rename is a bare path: it holds no `:`.
pub open spec fn rename_ok(rename: Seq<char>) -> bool {
    !rename.contains(':')
}

/// A registry id is `<namespace>:<path>` with both parts non-empty (split at the first `:`).
pub open spec fn id_ok(id: Seq<char>) -> bool {
    match split_once(id, ':') {
        Some((ns, path)) => ns.len() > 0 && path.len() > 0,
        None => false,
    }
}

/// Whether a rename is a bare path (see [`rename_ok`]).
pub fn registry_rename_ok(rename: &str) -> (b: bool)
    ensures
        b == rename_ok(rename@),
{
    let chars = chars_of(rename);
    proof {
        lemma_find_from(chars@, ':', 0);
    }
    match find_char(chars.as_slice(), ':', 0) {
        Some(i) => {
            assert(rename@[i as int] == ':');
            false
        },
        None => true,
    }
}

/// Whether an id is `<namespace>:<path>` with both parts non-empty (see [`id_ok`]).
pub fn registry_id_ok(id: &str) -> (b: bool)
    ensures
        b == id_ok(id@),
{
    let chars = chars_of(id);
    proof {
        lemma_find_from(chars@, ':', 0);
    }
    match find_char(chars.as_slice(), ':', 0) {
        Some(i) => i > 0 && i < chars.len() - 1,
        None => false,
    }
}

/// The serde names of a registry variant: its id, `<namespace>:<path>`, where the path is
/// the rename or the snake-case variant name, unless an id is given; and the alias, the id's
/// path.
pub open spec fn registry_names_of(variant: Seq<char>, rename: Option<Seq<char>>, id: Option<Seq<char>>, namespace: Seq<char>) -> (Seq<char>, Seq<char>) {
    let path = match rename {
        Some(r) => r,
        None => snake(variant, variant.len()),
    };
    let full = match id {
        Some(i) => i,
        None => namespace + ":"@ + path,
    };
    let alias = match split_once(full, ':') {
        Some((_, p)) => p,
        None => path,
    };
    (full, alias)
}

/// The id and alias of a registry variant (see [`registry_names_of`]).
pub fn registry_names(variant: &str, rename: Option<String>, id: Option<String>, namespace: &str) -> (out: (String, String))
    ensures
        (out.0@, out.1@) == registry_names_of(
            variant@,
            match rename { Some(r) => Some(r@), None => None },
            match id { Some(i) => Some(i@), None => None },
            namespace@,
        ),
{
    let path = match rename {
        Some(r) => r,
        None => to_snake_case(variant),
    };
    let full = match id {
        Some(i) => i,
        None => {
            let mut f = namespace.to_owned();
            push_str(&mut f, ":");
            push_str(&mut f, path.as_str());
            f
        },
    };
    let chars = chars_of(full.as_str());
    proof {
        lemma_find_from(chars@, ':', 0);
    }
    let alias = match find_char(chars.as_slice(), ':', 0) {
        Some(i) => {
            let n = chars.len();
            let a = string_of_range(chars.as_slice(), i + 1, n);
            proof {
                assert(a@ =~= full@.skip(i as int + 1));
            }
            a
        },
        None => path,
    };
    (full, alias)
}

} // verus!
