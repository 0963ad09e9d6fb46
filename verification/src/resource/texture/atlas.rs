//! Sprite atlases: which sprite comes from which file, region or palette permutation.

use vstd::prelude::*;
use crate::diagnostics::{Diagnostics, Severity, SiteView, recorded, DiagnosticsView};
use crate::resource::id::{IdMap, ResourceId};
use crate::text::{chars_of, push_str, split_once, starts_with, string_of_range, find_char, lemma_find_from};
use crate::util::collections::{has_key, pairs_map};

verus! {

/// The atlases whose sprite sources are read, in order: they share one sprite namespace, so a
/// later atlas overrides an earlier one on collision.
pub fn known_atlases() -> (names: [&'static str; 12])
    ensures
        names@ == seq![
            "banner_patterns", "blocks", "celestials", "chests", "decorated_pot", "gui", "items",
            "map_decorations", "paintings", "particles", "shield_patterns", "shulker_boxes",
        ],
{
    [
        "banner_patterns", "blocks", "celestials", "chests", "decorated_pot", "gui", "items",
        "map_decorations", "paintings", "particles", "shield_patterns", "shulker_boxes",
    ]
}

/// The separator between a texture and a permutation name when the atlas does not give one.
pub fn default_separator() -> (s: String)
    ensures
        s@ == "_"@,
{
    "_".to_owned()
}

/// The error message `Regex::new` gives for a pattern, or none when it compiles.
pub uninterp spec fn regex_compile_error(source: Seq<char>) -> Option<Seq<char>>;

/// Whether the regular expression `source` matches somewhere in `text`.
pub uninterp spec fn regex_is_match(source: Seq<char>, text: Seq<char>) -> bool;

/// How a string is written by `{:?}`: quoted and escaped.
pub uninterp spec fn debug_text(s: Seq<char>) -> Seq<char>;

#[verifier::external_type_specification]
#[verifier::external_body]
pub struct ExRegex(regex::Regex);

/// A regular expression together with the pattern it was compiled from.
pub struct CompiledPattern {
    source: String,
    re: regex::Regex,
}

impl CompiledPattern {
    /// The pattern the expression was compiled from.
    pub closed spec fn source(&self) -> Seq<char> {
        self.source@
    }
}

/// Compiles a regular expression with `regex::Regex::new`. Claims: it succeeds exactly when
/// the pattern has no error message, and the message is the error's `Display` text. Which
/// patterns fail is not stated here; it is named.
#[verifier::external_body]
fn compile_regex(source: &str) -> (r: Result<CompiledPattern, String>)
    ensures
        match r {
            Ok(p) => regex_compile_error(source@) is None && p.source() == source@,
            Err(e) => regex_compile_error(source@) == Some(e@),
        },
{
    match regex::Regex::new(source) {
        Ok(re) => Ok(CompiledPattern { source: source.to_owned(), re }),
        Err(e) => Err(e.to_string()),
    }
}

/// Whether the expression matches somewhere in the text, with `regex::Regex::is_match`.
/// Claims: the answer depends on the pattern and the text alone; which texts match is named,
/// not stated.
#[verifier::external_body]
fn regex_matches(p: &CompiledPattern, text: &str) -> (b: bool)
    ensures
        b == regex_is_match(p.source(), text@),
{
    p.re.is_match(text)
}

/// A string written with `{:?}`, as `format!` does for `str`. Claims only that the result
/// depends on the string alone.
#[verifier::external_body]
fn debug_quoted(s: &str) -> (out: String)
    ensures
        out@ == debug_text(s@),
{
    format!("{s:?}")
}

/// A filter on sprite identifiers: a pattern for the namespace and one for the path; an
/// absent pattern matches everything.
#[derive(Clone, Debug)]
pub struct RawIdentifierPattern {
    pub namespace: Option<String>,
    pub path: Option<String>,
}

/// A compiled [`RawIdentifierPattern`]; a disabled one, whose patterns did not both compile,
/// matches nothing.
pub enum IdentifierMatcher {
    Active { namespace: Option<CompiledPattern>, path: Option<CompiledPattern> },
    Disabled,
}

/// Whether a compiled pattern matches somewhere in a part of an identifier; an absent one
/// matches all.
pub open spec fn compiled_part_matches(pattern: Option<CompiledPattern>, text: Seq<char>) -> bool {
    match pattern {
        Some(c) => regex_is_match(c.source(), text),
        None => true,
    }
}

/// Whether a pattern, compiled, matches a part of an identifier; an absent one matches all.
pub open spec fn part_matches(source: Option<String>, text: Seq<char>) -> bool {
    match source {
        Some(s) => regex_is_match(s@, text),
        None => true,
    }
}

/// Whether a pattern compiles (an absent one does).
pub open spec fn part_compiles(source: Option<String>) -> bool {
    match source {
        Some(s) => regex_compile_error(s@) is None,
        None => true,
    }
}

/// Whether an identifier passes the filter: both patterns compile and both match.
pub open spec fn pattern_matches(p: RawIdentifierPattern, id: (Seq<char>, Seq<char>)) -> bool {
    &&& part_compiles(p.namespace)
    &&& part_compiles(p.path)
    &&& part_matches(p.namespace, id.0)
    &&& part_matches(p.path, id.1)
}

/// Where a filter reports a pattern that does not compile.
pub open spec fn pattern_site() -> SiteView {
    ("resource/texture/atlas.rs"@, 79u32, 26u32)
}

/// The warning for a pattern of `field` that does not compile.
pub open spec fn pattern_warning(field: Seq<char>, source: Seq<char>, error: Seq<char>) -> Seq<char> {
    "invalid \""@ + field + "\" filter pattern "@ + debug_text(source) + ": "@ + error
}

/// What compiling one pattern records.
pub open spec fn compiled_report(d: DiagnosticsView, subject: Seq<char>, field: Seq<char>, source: Option<String>) -> DiagnosticsView {
    match source {
        Some(s) => match regex_compile_error(s@) {
            Some(e) => recorded(d, Severity::Warning, pattern_site(), subject, field, pattern_warning(field, s@, e)),
            None => d,
        },
        None => d,
    }
}

/// What compiling a filter records: the namespace pattern's warning, then the path's.
pub open spec fn compile_reports(d: DiagnosticsView, subject: Seq<char>, p: RawIdentifierPattern) -> DiagnosticsView {
    compiled_report(compiled_report(d, subject, "namespace"@, p.namespace), subject, "path"@, p.path)
}

impl IdentifierMatcher {
    /// Whether the matcher was compiled from the pattern.
    pub open spec fn compiled_from(&self, p: RawIdentifierPattern) -> bool {
        match self {
            IdentifierMatcher::Disabled => !(part_compiles(p.namespace) && part_compiles(p.path)),
            IdentifierMatcher::Active { namespace, path } => {
                &&& part_compiles(p.namespace) && part_compiles(p.path)
                &&& (match (namespace, p.namespace) {
                    (Some(c), Some(s)) => c.source() == s@,
                    (None, None) => true,
                    _ => false,
                })
                &&& (match (path, p.path) {
                    (Some(c), Some(s)) => c.source() == s@,
                    (None, None) => true,
                    _ => false,
                })
            },
        }
    }

    /// Whether the matcher accepts an identifier: never when disabled; otherwise when each
    /// present pattern matches somewhere in its part.
    pub open spec fn accepts(&self, namespace: Seq<char>, path: Seq<char>) -> bool {
        match self {
            IdentifierMatcher::Disabled => false,
            IdentifierMatcher::Active { namespace: n, path: p } => compiled_part_matches(*n, namespace)
                && compiled_part_matches(*p, path),
        }
    }

    /// Whether an identifier passes the matcher.
    pub fn matches(&self, id: &ResourceId) -> (b: bool)
        ensures
            b == self.accepts(id.namespace@, id.path@),
            forall|p: RawIdentifierPattern| self.compiled_from(p) ==> b == pattern_matches(p, id.pair()),
    {
        match self {
            IdentifierMatcher::Disabled => false,
            IdentifierMatcher::Active { namespace, path } => {
                let ns_ok = match namespace {
                    Some(re) => regex_matches(re, id.namespace.as_str()),
                    None => true,
                };
                let path_ok = match path {
                    Some(re) => regex_matches(re, id.path.as_str()),
                    None => true,
                };
                ns_ok && path_ok
            },
        }
    }
}

fn compile_one(source: &Option<String>, field: &str, subject: &str, diag: &mut Diagnostics) -> (r: Result<Option<CompiledPattern>, ()>)
    requires
        old(diag).wf(),
    ensures
        final(diag).wf(),
        final(diag)@ == compiled_report(old(diag)@, subject@, field@, *source),
        match r {
            Ok(Some(c)) => source matches Some(s) && c.source() == s@ && regex_compile_error(s@) is None,
            Ok(None) => source is None,
            Err(_) => !part_compiles(*source),
        },
{
    match source {
        None => Ok(None),
        Some(s) => match compile_regex(s.as_str()) {
            Ok(re) => Ok(Some(re)),
            Err(e) => {
                let mut message = "invalid \"".to_owned();
                push_str(&mut message, field);
                push_str(&mut message, "\" filter pattern ");
                push_str(&mut message, debug_quoted(s.as_str()).as_str());
                push_str(&mut message, ": ");
                push_str(&mut message, e.as_str());
                let site = crate::diagnostics::Site::at("resource/texture/atlas.rs", 79, 26);
                diag.warn_keyed(&site, subject, field, message);
                Err(())
            },
        },
    }
}

impl RawIdentifierPattern {
    /// Compiles both patterns; when either does not compile, the matcher matches nothing.
    /// Each pattern that does not compile is reported, keyed by its field.
    pub fn compile(&self, subject: &str, diag: &mut Diagnostics) -> (m: IdentifierMatcher)
        requires
            old(diag).wf(),
        ensures
            final(diag).wf(),
            final(diag)@ == compile_reports(old(diag)@, subject@, *self),
            m.compiled_from(*self),
    {
        let namespace = compile_one(&self.namespace, "namespace", subject, diag);
        let path = compile_one(&self.path, "path", subject, diag);
        match (namespace, path) {
            (Ok(namespace), Ok(path)) => IdentifierMatcher::Active { namespace, path },
            _ => IdentifierMatcher::Disabled,
        }
    }
}

/// An identifier by value: its namespace and path.
pub type IdKey = (Seq<char>, Seq<char>);

/// The bits of an `f64`, as the atlas format's fractional coordinates are kept.
pub type F64Bits = u64;

/// How a sprite is made.
#[derive(Clone, Debug)]
pub enum SpriteRecipe {
    /// A plain texture file.
    File(ResourceId),
    /// A region of a larger sheet, in units of the sheet divided by the divisors.
    Region {
        base: ResourceId,
        x: F64Bits,
        y: F64Bits,
        width: F64Bits,
        height: F64Bits,
        div_x: F64Bits,
        div_y: F64Bits,
    },
    /// A texture whose colors are swapped from a key palette to another palette.
    Palettized { base: ResourceId, key: ResourceId, palette: ResourceId },
}

impl SpriteRecipe {
    /// A copy of the recipe.
    pub fn duplicate(&self) -> (r: SpriteRecipe)
        ensures
            r == *self,
    {
        match self {
            SpriteRecipe::File(id) => SpriteRecipe::File(id.duplicate()),
            SpriteRecipe::Region { base, x, y, width, height, div_x, div_y } => SpriteRecipe::Region {
                base: base.duplicate(),
                x: *x,
                y: *y,
                width: *width,
                height: *height,
                div_x: *div_x,
                div_y: *div_y,
            },
            SpriteRecipe::Palettized { base, key, palette } => SpriteRecipe::Palettized {
                base: base.duplicate(),
                key: key.duplicate(),
                palette: palette.duplicate(),
            },
        }
    }
}

/// A recipe by value.
pub enum RecipeView {
    File(IdKey),
    Region { base: IdKey, x: u64, y: u64, width: u64, height: u64, div_x: u64, div_y: u64 },
    Palettized { base: IdKey, key: IdKey, palette: IdKey },
}

impl View for SpriteRecipe {
    type V = RecipeView;

    open spec fn view(&self) -> RecipeView {
        match self {
            SpriteRecipe::File(id) => RecipeView::File(id.pair()),
            SpriteRecipe::Region { base, x, y, width, height, div_x, div_y } => RecipeView::Region {
                base: base.pair(),
                x: *x,
                y: *y,
                width: *width,
                height: *height,
                div_x: *div_x,
                div_y: *div_y,
            },
            SpriteRecipe::Palettized { base, key, palette } => RecipeView::Palettized {
                base: base.pair(),
                key: key.pair(),
                palette: palette.pair(),
            },
        }
    }
}

/// One region of an unstitch source: the sprite it makes and where it lies.
#[derive(Clone, Debug)]
pub struct UnstitchRegion {
    pub sprite: ResourceId,
    pub x: F64Bits,
    pub y: F64Bits,
    pub width: F64Bits,
    pub height: F64Bits,
}

/// One source of an atlas.
#[derive(Clone, Debug)]
pub enum RawSpriteSource {
    /// Every texture with every palette permutation; a permutation's name is appended to the
    /// texture's path after the separator.
    PalettedPermutations {
        textures: Vec<ResourceId>,
        palette_key: ResourceId,
        permutations: Vec<(String, ResourceId)>,
        separator: String,
    },
    /// One texture file, under its own name or another.
    Single { resource: ResourceId, sprite: Option<ResourceId> },
    /// Every texture under a directory, renamed with a prefix in place of the directory.
    Directory { source: String, prefix: String },
    /// Removes the sprites so far that the pattern matches.
    Filter { pattern: RawIdentifierPattern },
    /// Regions of one sheet.
    Unstitch { resource: ResourceId, regions: Vec<UnstitchRegion>, div_x: F64Bits, div_y: F64Bits },
}

/// The map after the entries are stored in order, a later one over an earlier one.
pub open spec fn inserts(m: Map<IdKey, RecipeView>, es: Seq<(IdKey, RecipeView)>) -> Map<IdKey, RecipeView>
    decreases es.len(),
{
    if es.len() == 0 {
        m
    } else {
        inserts(m, es.drop_last()).insert(es.last().0, es.last().1)
    }
}

/// Storing two lists of entries is storing one, then the other.
pub proof fn lemma_inserts_concat(m: Map<IdKey, RecipeView>, a: Seq<(IdKey, RecipeView)>, b: Seq<(IdKey, RecipeView)>)
    ensures
        inserts(m, a + b) == inserts(inserts(m, a), b),
    decreases b.len(),
{
    if b.len() == 0 {
        assert(a + b =~= a);
    } else {
        lemma_inserts_concat(m, a, b.drop_last());
        assert((a + b).drop_last() =~= a + b.drop_last());
    }
}

/// The sprites of a directory source, for the textures `(namespace, path)` of the packs:
/// every path under `dir`, renamed with `prefix` in place of `dir`.
pub open spec fn directory_entries(all: Seq<(Seq<char>, Seq<char>)>, dir: Seq<char>, prefix: Seq<char>) -> Seq<(IdKey, RecipeView)>
    decreases all.len(),
{
    if all.len() == 0 {
        Seq::empty()
    } else {
        let rest = directory_entries(all.drop_last(), dir, prefix);
        let (ns, path) = all.last();
        if dir.len() <= path.len() && path.take(dir.len() as int) == dir {
            rest.push(((ns, prefix + path.skip(dir.len() as int)), RecipeView::File((ns, path))))
        } else {
            rest
        }
    }
}

/// The sprites of an unstitch source.
pub open spec fn region_entries(base: IdKey, regions: Seq<UnstitchRegion>, div_x: u64, div_y: u64) -> Seq<(IdKey, RecipeView)> {
    regions.map_values(|r: UnstitchRegion| (r.sprite.pair(), RecipeView::Region {
        base,
        x: r.x,
        y: r.y,
        width: r.width,
        height: r.height,
        div_x,
        div_y,
    }))
}

/// The sprite of one texture with one permutation.
pub open spec fn permutation_entry(base: ResourceId, perm: (String, ResourceId), separator: Seq<char>, key: IdKey) -> (IdKey, RecipeView) {
    (
        (base.namespace@, base.path@ + separator + perm.0@),
        RecipeView::Palettized { base: base.pair(), key, palette: perm.1.pair() },
    )
}

/// The sprites of a paletted permutations source: each texture in turn, with each
/// permutation in turn.
pub open spec fn permutation_entries(textures: Seq<ResourceId>, perms: Seq<(String, ResourceId)>, separator: Seq<char>, key: IdKey) -> Seq<(IdKey, RecipeView)>
    decreases textures.len(),
{
    if textures.len() == 0 {
        Seq::empty()
    } else {
        permutation_entries(textures.drop_last(), perms, separator, key) + perms.map_values(
            |p: (String, ResourceId)| permutation_entry(textures.last(), p, separator, key),
        )
    }
}

/// After storing entries, a key is present exactly when it was before or some entry has it;
/// its recipe is that of the last entry with the key, or the earlier one when no entry has it.
proof fn lemma_inserts_lookup(m: Map<IdKey, RecipeView>, es: Seq<(IdKey, RecipeView)>, k: IdKey)
    ensures
        inserts(m, es).contains_key(k) <==> (m.contains_key(k) || exists|n: int| 0 <= n < es.len() && (#[trigger] es[n]).0 == k),
        inserts(m, es).contains_key(k) ==> (exists|n: int| 0 <= n < es.len() && (#[trigger] es[n]).0 == k && inserts(m, es)[k] == es[n].1)
            || (m.contains_key(k) && inserts(m, es)[k] == m[k]),
    decreases es.len(),
{
    if es.len() > 0 {
        let rest = es.drop_last();
        lemma_inserts_lookup(m, rest, k);
        if exists|n: int| 0 <= n < rest.len() && (#[trigger] rest[n]).0 == k {
            let n = choose|n: int| 0 <= n < rest.len() && (#[trigger] rest[n]).0 == k;
            assert(es[n] == rest[n]);
        }
        if exists|n: int| 0 <= n < rest.len() && (#[trigger] rest[n]).0 == k && inserts(m, rest)[k] == rest[n].1 {
            let n = choose|n: int| 0 <= n < rest.len() && (#[trigger] rest[n]).0 == k && inserts(m, rest)[k] == rest[n].1;
            assert(es[n] == rest[n]);
        }
        if exists|n: int| 0 <= n < es.len() && (#[trigger] es[n]).0 == k {
            let n = choose|n: int| 0 <= n < es.len() && (#[trigger] es[n]).0 == k;
            if n < es.len() - 1 {
                assert(rest[n] == es[n]);
            }
        }
        if es.last().0 == k {
            assert(es[es.len() - 1].0 == k);
        }
    }
}

/// Storing one texture's row of permutation sprites: a key is then present when it was
/// before or names that texture with a permutation; a key that names none keeps its recipe.
proof fn lemma_permutation_row(m: Map<IdKey, RecipeView>, base: ResourceId, perms: Seq<(String, ResourceId)>, separator: Seq<char>, key: IdKey, k: IdKey)
    ensures
        ({
            let row = perms.map_values(|q: (String, ResourceId)| permutation_entry(base, q, separator, key));
            let after = inserts(m, row);
            &&& ((exists|p: int| 0 <= p < perms.len() && k == (base.namespace@, base.path@ + separator + (#[trigger] perms[p]).0@))
                || m.contains_key(k)) ==> after.contains_key(k)
            &&& after.contains_key(k) ==> (exists|p: int|
                0 <= p < perms.len() && k == (base.namespace@, base.path@ + separator + (#[trigger] perms[p]).0@)
                    && after[k] == (RecipeView::Palettized { base: base.pair(), key, palette: perms[p].1.pair() }))
                || (m.contains_key(k) && after[k] == m[k])
        }),
{
    let row = perms.map_values(|q: (String, ResourceId)| permutation_entry(base, q, separator, key));
    lemma_inserts_lookup(m, row, k);
    if exists|p: int| 0 <= p < perms.len() && k == (base.namespace@, base.path@ + separator + (#[trigger] perms[p]).0@) {
        let p = choose|p: int| 0 <= p < perms.len() && k == (base.namespace@, base.path@ + separator + (#[trigger] perms[p]).0@);
        assert(row[p].0 == k);
    }
    if exists|n: int| 0 <= n < row.len() && (#[trigger] row[n]).0 == k && inserts(m, row)[k] == row[n].1 {
        let n = choose|n: int| 0 <= n < row.len() && (#[trigger] row[n]).0 == k && inserts(m, row)[k] == row[n].1;
        assert(row[n] == permutation_entry(base, perms[n], separator, key));
        assert(k == (base.namespace@, base.path@ + separator + perms[n].0@));
    }
}

/// The sprites of the first textures of a paletted permutations source (see
/// [`lemma_permutation_sprites`]), for one key.
proof fn lemma_permutation_prefix(m: Map<IdKey, RecipeView>, textures: Seq<ResourceId>, perms: Seq<(String, ResourceId)>, separator: Seq<char>, key: IdKey, k: IdKey)
    ensures
        ({
            let after = inserts(m, permutation_entries(textures, perms, separator, key));
            &&& (exists|t: int, p: int|
                #![trigger textures[t], perms[p]]
                0 <= t < textures.len() && 0 <= p < perms.len() && k == (textures[t].namespace@, textures[t].path@ + separator + perms[p].0@))
                ==> after.contains_key(k)
            &&& m.contains_key(k) ==> after.contains_key(k)
            &&& after.contains_key(k) ==> (exists|t: int, p: int|
                #![trigger textures[t], perms[p]]
                0 <= t < textures.len() && 0 <= p < perms.len() && k == (textures[t].namespace@, textures[t].path@ + separator + perms[p].0@)
                    && after[k] == (RecipeView::Palettized { base: textures[t].pair(), key, palette: perms[p].1.pair() }))
                || (m.contains_key(k) && after[k] == m[k])
        }),
    decreases textures.len(),
{
    if textures.len() > 0 {
        let front = textures.drop_last();
        let base = textures.last();
        let row = perms.map_values(|q: (String, ResourceId)| permutation_entry(base, q, separator, key));
        let mid = inserts(m, permutation_entries(front, perms, separator, key));
        lemma_permutation_prefix(m, front, perms, separator, key, k);
        lemma_inserts_concat(m, permutation_entries(front, perms, separator, key), row);
        lemma_permutation_row(mid, base, perms, separator, key, k);
        let after = inserts(mid, row);
        assert(after == inserts(m, permutation_entries(textures, perms, separator, key)));
        if exists|t: int, p: int|
            #![trigger textures[t], perms[p]]
            0 <= t < textures.len() && 0 <= p < perms.len() && k == (textures[t].namespace@, textures[t].path@ + separator + perms[p].0@) {
            let (t, p) = choose|t: int, p: int|
                #![trigger textures[t], perms[p]]
                0 <= t < textures.len() && 0 <= p < perms.len() && k == (textures[t].namespace@, textures[t].path@ + separator + perms[p].0@);
            if t < front.len() {
                assert(front[t] == textures[t] && perms[p] == perms[p]);
            } else {
                assert(perms[p] == perms[p]);
            }
        }
        if after.contains_key(k) {
            if exists|p: int|
                0 <= p < perms.len() && k == (base.namespace@, base.path@ + separator + (#[trigger] perms[p]).0@)
                    && after[k] == (RecipeView::Palettized { base: base.pair(), key, palette: perms[p].1.pair() }) {
                let p = choose|p: int|
                    0 <= p < perms.len() && k == (base.namespace@, base.path@ + separator + (#[trigger] perms[p]).0@)
                        && after[k] == (RecipeView::Palettized { base: base.pair(), key, palette: perms[p].1.pair() });
                assert(textures[textures.len() - 1] == base && perms[p] == perms[p]);
            } else {
                assert(mid.contains_key(k) && after[k] == mid[k]);
                if exists|t: int, p: int|
                    #![trigger front[t], perms[p]]
                    0 <= t < front.len() && 0 <= p < perms.len() && k == (front[t].namespace@, front[t].path@ + separator + perms[p].0@)
                        && mid[k] == (RecipeView::Palettized { base: front[t].pair(), key, palette: perms[p].1.pair() }) {
                    let (t, p) = choose|t: int, p: int|
                        #![trigger front[t], perms[p]]
                        0 <= t < front.len() && 0 <= p < perms.len() && k == (front[t].namespace@, front[t].path@ + separator + perms[p].0@)
                            && mid[k] == (RecipeView::Palettized { base: front[t].pair(), key, palette: perms[p].1.pair() });
                    assert(textures[t] == front[t] && perms[p] == perms[p]);
                }
            }
        }
    }
}

/// What a paletted permutations source adds: for each texture `t` and permutation
/// `(name, palette)`, the sprite named `t`'s path, the separator and `name`, in `t`'s
/// namespace, recoloured from `t` with the palette key to the permutation's palette. Every
/// sprite afterwards is such a sprite or was there before, unchanged, and none is lost.
pub proof fn lemma_permutation_sprites(
    m: Map<IdKey, RecipeView>,
    textures: Vec<ResourceId>,
    palette_key: ResourceId,
    permutations: Vec<(String, ResourceId)>,
    separator: String,
    all: Seq<(Seq<char>, Seq<char>)>,
    k: IdKey,
)
    ensures
        ({
            let after = ran(m, (RawSpriteSource::PalettedPermutations { textures, palette_key, permutations, separator }), all);
            &&& (exists|t: int, p: int|
                #![trigger textures@[t], permutations@[p]]
                0 <= t < textures@.len() && 0 <= p < permutations@.len()
                    && k == (textures@[t].namespace@, textures@[t].path@ + separator@ + permutations@[p].0@))
                ==> after.contains_key(k)
            &&& m.contains_key(k) ==> after.contains_key(k)
            &&& after.contains_key(k) ==> (exists|t: int, p: int|
                #![trigger textures@[t], permutations@[p]]
                0 <= t < textures@.len() && 0 <= p < permutations@.len()
                    && k == (textures@[t].namespace@, textures@[t].path@ + separator@ + permutations@[p].0@)
                    && after[k] == (RecipeView::Palettized {
                        base: textures@[t].pair(),
                        key: palette_key.pair(),
                        palette: permutations@[p].1.pair(),
                    })) || (m.contains_key(k) && after[k] == m[k])
        }),
{
    lemma_permutation_prefix(m, textures@, permutations@, separator@, palette_key.pair(), k);
}

/// The sprites after one source of an atlas runs, given the textures of the packs.
pub open spec fn ran(m: Map<IdKey, RecipeView>, source: RawSpriteSource, all: Seq<(Seq<char>, Seq<char>)>) -> Map<IdKey, RecipeView> {
    match source {
        RawSpriteSource::Single { resource, sprite } => {
            let id = match sprite {
                Some(s) => s.pair(),
                None => resource.pair(),
            };
            m.insert(id, RecipeView::File(resource.pair()))
        },
        RawSpriteSource::Filter { pattern } => Map::new(
            |k: IdKey| m.contains_key(k) && !pattern_matches(pattern, k),
            |k: IdKey| m[k],
        ),
        RawSpriteSource::Directory { source, prefix } => inserts(m, directory_entries(all, source@ + "/"@, prefix@)),
        RawSpriteSource::Unstitch { resource, regions, div_x, div_y } => inserts(
            m,
            region_entries(resource.pair(), regions@, div_x, div_y),
        ),
        RawSpriteSource::PalettedPermutations { textures, palette_key, permutations, separator } => inserts(
            m,
            permutation_entries(textures@, permutations@, separator@, palette_key.pair()),
        ),
    }
}

/// The diagnostics after one source runs: only a filter reports, when a pattern does not
/// compile.
pub open spec fn ran_reports(d: DiagnosticsView, subject: Seq<char>, source: RawSpriteSource) -> DiagnosticsView {
    match source {
        RawSpriteSource::Filter { pattern } => compile_reports(d, subject, pattern),
        _ => d,
    }
}

/// A table of recipes, by value.
pub open spec fn recipes_view(m: Map<IdKey, SpriteRecipe>) -> Map<IdKey, RecipeView> {
    m.map_values(|r: SpriteRecipe| r@)
}

/// The recipes of every sprite the atlases name.
pub struct SpriteIndex {
    pub sprites: IdMap<SpriteRecipe>,
}

fn copy_recipe(r: &SpriteRecipe) -> (out: SpriteRecipe)
    ensures
        out@ == r@,
{
    match r {
        SpriteRecipe::File(id) => SpriteRecipe::File(id.duplicate()),
        SpriteRecipe::Region { base, x, y, width, height, div_x, div_y } => SpriteRecipe::Region {
            base: base.duplicate(),
            x: *x,
            y: *y,
            width: *width,
            height: *height,
            div_x: *div_x,
            div_y: *div_y,
        },
        SpriteRecipe::Palettized { base, key, palette } => SpriteRecipe::Palettized {
            base: base.duplicate(),
            key: key.duplicate(),
            palette: palette.duplicate(),
        },
    }
}

fn store(sprites: &mut IdMap<SpriteRecipe>, id: ResourceId, recipe: SpriteRecipe)
    requires
        old(sprites).wf(),
    ensures
        final(sprites).wf(),
        recipes_view(final(sprites)@) == recipes_view(old(sprites)@).insert(id.pair(), recipe@),
{
    let ghost k = id.pair();
    let ghost rv = recipe@;
    sprites.insert(id, recipe);
    assert(recipes_view(sprites@) =~= recipes_view(old(sprites)@).insert(k, rv));
}

impl SpriteIndex {
    /// An index with no sprites.
    pub fn new() -> (s: SpriteIndex)
        ensures
            s.sprites.wf(),
            s.sprites@ == Map::<IdKey, SpriteRecipe>::empty(),
    {
        SpriteIndex { sprites: IdMap::new() }
    }

    /// The recipe of a sprite, if an atlas names it.
    pub fn recipe(&self, id: &ResourceId) -> (r: Option<&SpriteRecipe>)
        requires
            self.sprites.wf(),
        ensures
            match r {
                Some(x) => self.sprites@.contains_key(id.pair()) && *x == self.sprites@[id.pair()],
                None => !self.sprites@.contains_key(id.pair()),
            },
    {
        self.sprites.get(id)
    }

    /// Applies one source of an atlas to the sprites collected so far (see [`ran`]).
    pub fn run(
        sprites: &mut IdMap<SpriteRecipe>,
        subject: &str,
        diagnostics: &mut Diagnostics,
        source: &RawSpriteSource,
        all_textures: &Vec<(String, String)>,
    )
        requires
            old(sprites).wf(),
            old(diagnostics).wf(),
        ensures
            final(sprites).wf(),
            final(diagnostics).wf(),
            recipes_view(final(sprites)@) == ran(
                recipes_view(old(sprites)@),
                *source,
                all_textures@.map_values(|t: (String, String)| (t.0@, t.1@)),
            ),
            final(diagnostics)@ == ran_reports(old(diagnostics)@, subject@, *source),
    {
        match source {
            RawSpriteSource::Single { resource, sprite } => {
                let id = match sprite {
                    Some(s) => s.duplicate(),
                    None => resource.duplicate(),
                };
                store(sprites, id, SpriteRecipe::File(resource.duplicate()));
            },
            RawSpriteSource::Filter { pattern } => {
                let matcher = pattern.compile(subject, diagnostics);
                Self::retain_unmatched(sprites, &matcher, pattern);
            },
            RawSpriteSource::Directory { source, prefix } => {
                Self::run_directory(sprites, source, prefix, all_textures);
            },
            RawSpriteSource::Unstitch { resource, regions, div_x, div_y } => {
                let ghost m0 = recipes_view(sprites@);
                let ghost es = region_entries(resource.pair(), regions@, *div_x, *div_y);
                let mut i: usize = 0;
                while i < regions.len()
                    invariant
                        i <= regions@.len(),
                        sprites.wf(),
                        es == region_entries(resource.pair(), regions@, *div_x, *div_y),
                        recipes_view(sprites@) == inserts(m0, es.take(i as int)),
                    decreases regions.len() - i,
                {
                    let region = &regions[i];
                    let recipe = SpriteRecipe::Region {
                        base: resource.duplicate(),
                        x: region.x,
                        y: region.y,
                        width: region.width,
                        height: region.height,
                        div_x: *div_x,
                        div_y: *div_y,
                    };
                    store(sprites, region.sprite.duplicate(), recipe);
                    proof {
                        assert(es.take(i as int + 1).drop_last() =~= es.take(i as int));
                    }
                    i = i + 1;
                }
                proof {
                    assert(es.take(i as int) =~= es);
                }
            },
            RawSpriteSource::PalettedPermutations { textures, palette_key, permutations, separator } => {
                Self::run_permutations(sprites, textures, palette_key, permutations, separator);
            },
        }
    }

    fn retain_unmatched(sprites: &mut IdMap<SpriteRecipe>, matcher: &IdentifierMatcher, pattern: &RawIdentifierPattern)
        requires
            old(sprites).wf(),
            matcher.compiled_from(*pattern),
        ensures
            final(sprites).wf(),
            recipes_view(final(sprites)@) == Map::new(
                |k: IdKey| recipes_view(old(sprites)@).contains_key(k) && !pattern_matches(*pattern, k),
                |k: IdKey| recipes_view(old(sprites)@)[k],
            ),
    {
        let ghost m0 = recipes_view(sprites@);
        let ghost es = sprites.entries();
        let mut kept: IdMap<SpriteRecipe> = IdMap::new();
        let n = sprites.len();
        let mut i: usize = 0;
        proof {
            sprites.lemma_entries();
        }
        while i < n
            invariant
                i <= n,
                n == es.len(),
                es == sprites.entries(),
                sprites.wf(),
                matcher.compiled_from(*pattern),
                m0 == recipes_view(sprites@),
                forall|j: int| 0 <= j < es.len() ==> sprites@.contains_key(#[trigger] es[j].0) && sprites@[es[j].0] == es[j].1,
                forall|k: IdKey| #[trigger] sprites@.contains_key(k) ==> exists|j: int| 0 <= j < es.len() && #[trigger] es[j].0 == k,
                kept.wf(),
                recipes_view(kept@) == Map::new(
                    |k: IdKey| has_key(es.take(i as int), k) && !pattern_matches(*pattern, k),
                    |k: IdKey| m0[k],
                ),
            decreases n - i,
        {
            let id = sprites.key_at(i);
            let ghost kv = es[i as int].0;
            proof {
                assert forall|x: IdKey| #[trigger] has_key(es.take(i as int + 1), x) <==> (has_key(es.take(i as int), x) || x == kv) by {
                    let t1 = es.take(i as int + 1);
                    let t0 = es.take(i as int);
                    if has_key(t1, x) && x != kv {
                        let j = choose|j: int| 0 <= j < t1.len() && #[trigger] t1[j].0 == x;
                        assert(t0[j].0 == x);
                    }
                    if x == kv {
                        assert(t1[i as int].0 == x);
                    }
                    if has_key(t0, x) {
                        let j = choose|j: int| 0 <= j < t0.len() && #[trigger] t0[j].0 == x;
                        assert(t1[j].0 == x);
                    }
                }
            }
            let ghost before = recipes_view(kept@);
            if !matcher.matches(id) {
                let recipe = copy_recipe(sprites.value_at(i));
                store(&mut kept, id.duplicate(), recipe);
                proof {
                    assert(recipes_view(kept@) =~= Map::new(
                        |k: IdKey| has_key(es.take(i as int + 1), k) && !pattern_matches(*pattern, k),
                        |k: IdKey| m0[k],
                    ));
                }
            } else {
                proof {
                    assert(pattern_matches(*pattern, kv));
                    assert(recipes_view(kept@) =~= Map::new(
                        |k: IdKey| has_key(es.take(i as int + 1), k) && !pattern_matches(*pattern, k),
                        |k: IdKey| m0[k],
                    ));
                }
            }
            i = i + 1;
        }
        proof {
            assert(es.take(n as int) =~= es);
            assert forall|k: IdKey| has_key(es, k) <==> sprites@.contains_key(k) by {
                if has_key(es, k) {
                    let j = choose|j: int| 0 <= j < es.len() && #[trigger] es[j].0 == k;
                }
            }
            assert(recipes_view(kept@) =~= Map::new(
                |k: IdKey| m0.contains_key(k) && !pattern_matches(*pattern, k),
                |k: IdKey| m0[k],
            ));
        }
        *sprites = kept;
    }

    fn run_directory(sprites: &mut IdMap<SpriteRecipe>, source: &String, prefix: &String, all_textures: &Vec<(String, String)>)
        requires
            old(sprites).wf(),
        ensures
            final(sprites).wf(),
            recipes_view(final(sprites)@) == inserts(
                recipes_view(old(sprites)@),
                directory_entries(all_textures@.map_values(|t: (String, String)| (t.0@, t.1@)), source@ + "/"@, prefix@),
            ),
    {
        let mut dir = source.clone();
        push_str(&mut dir, "/");
        let dir_chars = chars_of(dir.as_str());
        let ghost all = all_textures@.map_values(|t: (String, String)| (t.0@, t.1@));
        let ghost m0 = recipes_view(sprites@);
        let mut i: usize = 0;
        while i < all_textures.len()
            invariant
                i <= all_textures@.len(),
                sprites.wf(),
                dir_chars@ == source@ + "/"@,
                all == all_textures@.map_values(|t: (String, String)| (t.0@, t.1@)),
                recipes_view(sprites@) == inserts(m0, directory_entries(all.take(i as int), source@ + "/"@, prefix@)),
            decreases all_textures.len() - i,
        {
            let (namespace, path) = &all_textures[i];
            let path_chars = chars_of(path.as_str());
            proof {
                assert(all.take(i as int + 1).drop_last() =~= all.take(i as int));
                assert(all.take(i as int + 1).last() == (namespace@, path@));
            }
            if starts_with(path_chars.as_slice(), dir_chars.as_slice()) {
                let tail = string_of_range(path_chars.as_slice(), dir_chars.len(), path_chars.len());
                let mut name = prefix.clone();
                push_str(&mut name, tail.as_str());
                let id = ResourceId::new(namespace.clone(), name);
                let file = ResourceId::new(namespace.clone(), path.clone());
                proof {
                    assert(path@.skip(dir_chars@.len() as int) =~= path_chars@.subrange(dir_chars@.len() as int, path_chars@.len() as int));
                }
                let ghost e = (id.pair(), RecipeView::File(file.pair()));
                store(sprites, id, SpriteRecipe::File(file));
                proof {
                    let de = directory_entries(all.take(i as int + 1), source@ + "/"@, prefix@);
                    assert(de == directory_entries(all.take(i as int), source@ + "/"@, prefix@).push(e));
                    assert(de.drop_last() =~= directory_entries(all.take(i as int), source@ + "/"@, prefix@));
                }
            } else {
                proof {
                    assert(directory_entries(all.take(i as int + 1), source@ + "/"@, prefix@) == directory_entries(
                        all.take(i as int),
                        source@ + "/"@,
                        prefix@,
                    ));
                }
            }
            i = i + 1;
        }
        proof {
            assert(all.take(i as int) =~= all);
        }
    }

    fn run_permutations(
        sprites: &mut IdMap<SpriteRecipe>,
        textures: &Vec<ResourceId>,
        palette_key: &ResourceId,
        permutations: &Vec<(String, ResourceId)>,
        separator: &String,
    )
        requires
            old(sprites).wf(),
        ensures
            final(sprites).wf(),
            recipes_view(final(sprites)@) == inserts(
                recipes_view(old(sprites)@),
                permutation_entries(textures@, permutations@, separator@, palette_key.pair()),
            ),
    {
        let ghost m0 = recipes_view(sprites@);
        let ghost key = palette_key.pair();
        let mut i: usize = 0;
        while i < textures.len()
            invariant
                i <= textures@.len(),
                sprites.wf(),
                key == palette_key.pair(),
                recipes_view(sprites@) == inserts(m0, permutation_entries(textures@.take(i as int), permutations@, separator@, key)),
            decreases textures.len() - i,
        {
            let base = &textures[i];
            let ghost row = permutations@.map_values(|p: (String, ResourceId)| permutation_entry(*base, p, separator@, key));
            let ghost done = permutation_entries(textures@.take(i as int), permutations@, separator@, key);
            let mut j: usize = 0;
            proof {
                assert(row.take(0) + Seq::<(IdKey, RecipeView)>::empty() =~= row.take(0));
                lemma_inserts_concat(m0, done, row.take(0));
                assert(done + row.take(0) =~= done);
            }
            while j < permutations.len()
                invariant
                    j <= permutations@.len(),
                    sprites.wf(),
                    key == palette_key.pair(),
                    row == permutations@.map_values(|p: (String, ResourceId)| permutation_entry(*base, p, separator@, key)),
                    recipes_view(sprites@) == inserts(m0, done + row.take(j as int)),
                decreases permutations.len() - j,
            {
                let (name, palette) = &permutations[j];
                let mut path = base.path.clone();
                push_str(&mut path, separator.as_str());
                push_str(&mut path, name.as_str());
                let id = ResourceId::new(base.namespace.clone(), path);
                let recipe = SpriteRecipe::Palettized { base: base.duplicate(), key: palette_key.duplicate(), palette: palette.duplicate() };
                store(sprites, id, recipe);
                proof {
                    assert((done + row.take(j as int + 1)).drop_last() =~= done + row.take(j as int));
                    assert((done + row.take(j as int + 1)).last() == row[j as int]);
                }
                j = j + 1;
            }
            proof {
                assert(row.take(j as int) =~= row);
                assert(textures@.take(i as int + 1).drop_last() =~= textures@.take(i as int));
                assert(textures@.take(i as int + 1).last() == *base);
            }
            i = i + 1;
        }
        proof {
            assert(textures@.take(i as int) =~= textures@);
        }
    }
}

/// Whether four characters spell `.png`, ignoring ASCII case.
pub open spec fn is_png_ext(e: Seq<char>) -> bool {
    &&& e.len() == 4
    &&& e[0] == '.'
    &&& (e[1] == 'p' || e[1] == 'P')
    &&& (e[2] == 'n' || e[2] == 'N')
    &&& (e[3] == 'g' || e[3] == 'G')
}

/// Whether `p` begins with `prefix`.
pub open spec fn has_prefix(p: Seq<char>, prefix: Seq<char>) -> bool {
    prefix.len() <= p.len() && p.take(prefix.len() as int) == prefix
}

/// The namespace and texture name of a pack path `assets/<namespace>/textures/<name>.png`
/// (the extension in any ASCII case).
pub open spec fn texture_path_parts(p: Seq<char>) -> Option<(Seq<char>, Seq<char>)> {
    if !has_prefix(p, "assets/"@) {
        None
    } else {
        match split_once(p.skip("assets/"@.len() as int), '/') {
            None => None,
            Some((ns, r2)) => if !has_prefix(r2, "textures/"@) {
                None
            } else {
                let r3 = r2.skip("textures/"@.len() as int);
                if r3.len() >= 4 && is_png_ext(r3.skip(r3.len() - 4)) {
                    Some((ns, r3.take(r3.len() - 4)))
                } else {
                    None
                }
            },
        }
    }
}

/// The namespace and texture name of a pack path (see [`texture_path_parts`]).
pub fn split_texture_path(path: &str) -> (r: Option<(String, String)>)
    ensures
        match r {
            Some((ns, name)) => texture_path_parts(path@) == Some((ns@, name@)),
            None => texture_path_parts(path@) is None,
        },
{
    let p = chars_of(path);
    let assets = chars_of("assets/");
    if !starts_with(p.as_slice(), assets.as_slice()) {
        return None;
    }
    let al = assets.len();
    let mut rest: Vec<char> = Vec::new();
    let mut i = al;
    while i < p.len()
        invariant
            al <= i <= p@.len(),
            rest@ == p@.subrange(al as int, i as int),
        decreases p.len() - i,
    {
        rest.push(p[i]);
        proof {
            assert(p@.subrange(al as int, i as int + 1) =~= p@.subrange(al as int, i as int).push(p@[i as int]));
        }
        i = i + 1;
    }
    proof {
        assert(rest@ =~= path@.skip("assets/"@.len() as int));
        lemma_find_from(rest@, '/', 0);
    }
    let slash = match find_char(rest.as_slice(), '/', 0) {
        Some(s) => s,
        None => {
            return None;
        },
    };
    let ns = string_of_range(rest.as_slice(), 0, slash);
    let rl = rest.len();
    let r2 = string_of_range(rest.as_slice(), slash + 1, rl);
    let r2c = chars_of(r2.as_str());
    proof {
        assert(ns@ =~= rest@.take(slash as int));
        assert(r2@ =~= rest@.skip(slash as int + 1));
    }
    let textures = chars_of("textures/");
    if !starts_with(r2c.as_slice(), textures.as_slice()) {
        return None;
    }
    let tl = textures.len();
    let r3 = string_of_range(r2c.as_slice(), tl, r2c.len());
    let r3c = chars_of(r3.as_str());
    proof {
        assert(r3@ =~= r2@.skip("textures/"@.len() as int));
    }
    let n = r3c.len();
    if n < 4 {
        return None;
    }
    let ok = r3c[n - 4] == '.' && (r3c[n - 3] == 'p' || r3c[n - 3] == 'P') && (r3c[n - 2] == 'n' || r3c[n - 2] == 'N')
        && (r3c[n - 1] == 'g' || r3c[n - 1] == 'G');
    proof {
        let e = r3@.skip(n - 4);
        assert(e[0] == r3c@[n - 4] && e[1] == r3c@[n - 3] && e[2] == r3c@[n - 2] && e[3] == r3c@[n - 1]);
    }
    if !ok {
        return None;
    }
    let name = string_of_range(r3c.as_slice(), 0, n - 4);
    proof {
        assert(name@ =~= r3@.take(n - 4));
    }
    Some((ns, name))
}

impl SpriteIndex {
    /// Adds an atlas's sprites to the index, over any of the same name.
    pub fn absorb(&mut self, sprites: IdMap<SpriteRecipe>)
        requires
            old(self).sprites.wf(),
            sprites.wf(),
        ensures
            final(self).sprites.wf(),
            recipes_view(final(self).sprites@) == recipes_view(old(self).sprites@).union_prefer_right(recipes_view(sprites@)),
    {
        let ghost m0 = recipes_view(self.sprites@);
        let ghost es = sprites.entries();
        let n = sprites.len();
        let mut i: usize = 0;
        proof {
            sprites.lemma_entries();
        }
        while i < n
            invariant
                i <= n,
                n == es.len(),
                es == sprites.entries(),
                sprites.wf(),
                self.sprites.wf(),
                forall|j: int| 0 <= j < es.len() ==> sprites@.contains_key(#[trigger] es[j].0) && sprites@[es[j].0] == es[j].1,
                forall|k: IdKey| #[trigger] sprites@.contains_key(k) ==> exists|j: int| 0 <= j < es.len() && #[trigger] es[j].0 == k,
                recipes_view(self.sprites@) == m0.union_prefer_right(recipes_view(pairs_map(es.take(i as int)))),
            decreases n - i,
        {
            let id = sprites.key_at(i).duplicate();
            let recipe = copy_recipe(sprites.value_at(i));
            let ghost before = recipes_view(self.sprites@);
            store(&mut self.sprites, id, recipe);
            proof {
                let t = es.take(i as int);
                assert(crate::util::collections::keys_distinct(t));
                assert(!has_key(t, es[i as int].0)) by {
                    if has_key(t, es[i as int].0) {
                        let j = choose|j: int| 0 <= j < t.len() && #[trigger] t[j].0 == es[i as int].0;
                        assert(es[j].0 == es[i as int].0);
                    }
                }
                crate::util::collections::lemma_pairs_map_push(t, es[i as int].0, es[i as int].1);
                assert(es.take(i as int + 1) =~= t.push(es[i as int]));
                assert(recipes_view(pairs_map(es.take(i as int + 1))) =~= recipes_view(pairs_map(t)).insert(es[i as int].0, es[i as int].1@));
                assert(recipes_view(self.sprites@) =~= m0.union_prefer_right(recipes_view(pairs_map(es.take(i as int + 1)))));
            }
            i = i + 1;
        }
        proof {
            assert(es.take(n as int) =~= es);
        }
    }
}

} // verus!
