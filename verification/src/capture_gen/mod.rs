//! The decisions of the capture table generator: interning pools, state grids, material
//! fields, and the checks on the captured files.

pub mod model;
pub mod pool;
pub mod pools;
pub mod raw;
pub mod states;

use vstd::prelude::*;
use crate::capture_gen::pools::{block_error, block_read, Pools};
use crate::capture_gen::raw::RawBlockFile;
use crate::text::{decimal, join, joined, push_digits, push_str, views};

verus! {

/// The version of the captured file format that is read.
pub const FORMAT: u32 = 1;

/// Why generating the capture table failed.
pub enum GenerateError {
    /// A file could not be read or written; `source` says why.
    Io { path: String, source: String },
    Parse { path: String, message: String },
    Format { path: String, found: u32 },
    MinecraftVersion { path: String, found: String, expected: String },
    /// The lines of the discards that were not expected.
    UnexpectedDiscards(String),
    Invalid { path: String, message: String },
    DuplicateBlock { id: String },
}

/// The message of a generation error.
pub open spec fn generate_error_text(e: GenerateError) -> Seq<char> {
    match e {
        GenerateError::Io { path, source } => "Failed to read or write "@ + path@ + ": "@ + source@,
        GenerateError::Parse { path, message } => "Failed to parse "@ + path@ + ": "@ + message@,
        GenerateError::Format { path, found } => path@ + " has wrong format number "@ + decimal(found as int) + ", expected 1"@,
        GenerateError::MinecraftVersion { path, found, expected } => path@ + " has wrong minecraft version "@ + found@
            + ", expected "@ + expected@,
        GenerateError::UnexpectedDiscards(lines) => "Unexpected discards:\n"@ + lines@,
        GenerateError::Invalid { path, message } => path@ + " is invalid: "@ + message@,
        GenerateError::DuplicateBlock { id } => "block "@ + id@ + " has duplicate entries"@,
    }
}

impl GenerateError {
    /// The message of the error (see [`generate_error_text`]).
    pub fn to_string(&self) -> (s: String)
        ensures
            s@ == generate_error_text(*self),
    {
        match self {
            GenerateError::Io { path, source } => {
                let mut s = "Failed to read or write ".to_owned();
                push_str(&mut s, path.as_str());
                push_str(&mut s, ": ");
                push_str(&mut s, source.as_str());
                s
            },
            GenerateError::Parse { path, message } => {
                let mut s = "Failed to parse ".to_owned();
                push_str(&mut s, path.as_str());
                push_str(&mut s, ": ");
                push_str(&mut s, message.as_str());
                s
            },
            GenerateError::Format { path, found } => {
                let mut s = path.clone();
                push_str(&mut s, " has wrong format number ");
                push_digits(&mut s, *found as u64);
                push_str(&mut s, ", expected 1");
                s
            },
            GenerateError::MinecraftVersion { path, found, expected } => {
                let mut s = path.clone();
                push_str(&mut s, " has wrong minecraft version ");
                push_str(&mut s, found.as_str());
                push_str(&mut s, ", expected ");
                push_str(&mut s, expected.as_str());
                s
            },
            GenerateError::UnexpectedDiscards(lines) => {
                let mut s = "Unexpected discards:\n".to_owned();
                push_str(&mut s, lines.as_str());
                s
            },
            GenerateError::Invalid { path, message } => {
                let mut s = path.clone();
                push_str(&mut s, " is invalid: ");
                push_str(&mut s, message.as_str());
                s
            },
            GenerateError::DuplicateBlock { id } => {
                let mut s = "block ".to_owned();
                push_str(&mut s, id.as_str());
                push_str(&mut s, " has duplicate entries");
                s
            },
        }
    }
}

/// Reads one captured block file into the pools: a file of another format or game version is
/// refused as such, and a file the pools refuse is invalid with their message.
pub fn read_block(pools: &mut Pools, file: &RawBlockFile, path: &String, minecraft_version: &String) -> (r: Result<(), GenerateError>)
    requires
        old(pools).wf(),
    ensures
        final(pools).wf(),
        old(pools).grows(&*final(pools)),
        match r {
            Ok(_) => file.format == FORMAT && file.minecraft_version@ == minecraft_version@ && block_error(*file) is None
                && block_read(&*old(pools), &*final(pools), *file),
            Err(GenerateError::Format { path: p, found }) => file.format != FORMAT && p@ == path@ && found == file.format,
            Err(GenerateError::MinecraftVersion { path: p, found, expected }) => file.format == FORMAT
                && file.minecraft_version@ != minecraft_version@ && p@ == path@ && found@ == file.minecraft_version@
                && expected@ == minecraft_version@,
            Err(GenerateError::Invalid { path: p, message }) => file.format == FORMAT && file.minecraft_version@
                == minecraft_version@ && p@ == path@ && block_error(*file) == Some(message@),
            Err(_) => false,
        },
{
    if file.format != FORMAT {
        return Err(GenerateError::Format { path: path.clone(), found: file.format });
    }
    if file.minecraft_version != *minecraft_version {
        return Err(
            GenerateError::MinecraftVersion {
                path: path.clone(),
                found: file.minecraft_version.clone(),
                expected: minecraft_version.clone(),
            },
        );
    }
    match pools.block(file) {
        Ok(_) => Ok(()),
        Err(message) => Err(GenerateError::Invalid { path: path.clone(), message }),
    }
}

/// The error for discards that were not expected, if there are any: their lines joined by
/// line breaks.
pub fn unexpected_error(lines: &Vec<String>) -> (r: Option<GenerateError>)
    ensures
        match r {
            None => lines@.len() == 0,
            Some(GenerateError::UnexpectedDiscards(text)) => lines@.len() > 0 && text@ == joined(views(lines@), "\n"@),
            Some(_) => false,
        },
{
    if lines.len() == 0 {
        None
    } else {
        Some(GenerateError::UnexpectedDiscards(join(lines, "\n")))
    }
}

/// A discard recorded for a state: the block, the state key and the reason.
pub type Discard = (Seq<char>, Seq<char>, Seq<char>);

/// The discards of one block's states, in order.
pub open spec fn state_discards(block: Seq<char>, states: Seq<(String, Vec<String>)>) -> Seq<Discard>
    decreases states.len(),
{
    if states.len() == 0 {
        Seq::empty()
    } else {
        state_discards(block, states.drop_last()) + views(states.last().1@).map_values(
            |r: Seq<char>| (block, states.last().0@, r),
        )
    }
}

/// The discards of all files, in order.
pub open spec fn all_discards(files: Seq<(String, Vec<(String, Vec<String>)>)>) -> Seq<Discard>
    decreases files.len(),
{
    if files.len() == 0 {
        Seq::empty()
    } else {
        all_discards(files.drop_last()) + state_discards(files.last().0@, files.last().1@)
    }
}

/// Whether a block's discard reason is expected.
pub open spec fn is_expected(expected: Seq<(String, Vec<String>)>, block: Seq<char>, reason: Seq<char>) -> bool {
    exists|i: int| 0 <= i < expected.len() && (#[trigger] expected[i]).0@ == block && views(expected[i].1@).contains(reason)
}

/// The line reporting an unexpected discard: `  block[key]: reason`.
pub open spec fn unexpected_line(d: Discard) -> Seq<char> {
    "  "@ + d.0 + "["@ + d.1 + "]: "@ + d.2
}

/// The lines for the discards that are not expected, in order.
pub open spec fn unexpected_lines(ds: Seq<Discard>, expected: Seq<(String, Vec<String>)>) -> Seq<Seq<char>>
    decreases ds.len(),
{
    if ds.len() == 0 {
        Seq::empty()
    } else {
        let rest = unexpected_lines(ds.drop_last(), expected);
        let d = ds.last();
        if is_expected(expected, d.0, d.2) {
            rest
        } else {
            rest.push(unexpected_line(d))
        }
    }
}

/// The expected (block, reason) pairs, in order.
pub open spec fn expected_pairs(expected: Seq<(String, Vec<String>)>) -> Seq<(Seq<char>, Seq<char>)>
    decreases expected.len(),
{
    if expected.len() == 0 {
        Seq::empty()
    } else {
        expected_pairs(expected.drop_last()) + views(expected.last().1@).map_values(
            |r: Seq<char>| (expected.last().0@, r),
        )
    }
}

/// Whether some discard has this block and reason.
pub open spec fn discarded(ds: Seq<Discard>, block: Seq<char>, reason: Seq<char>) -> bool {
    exists|i: int| 0 <= i < ds.len() && (#[trigger] ds[i]).0 == block && ds[i].2 == reason
}

/// The lines for the expected discards that never happened: `block: reason`, in order.
pub open spec fn stale_lines(pairs: Seq<(Seq<char>, Seq<char>)>, ds: Seq<Discard>) -> Seq<Seq<char>>
    decreases pairs.len(),
{
    if pairs.len() == 0 {
        Seq::empty()
    } else {
        let rest = stale_lines(pairs.drop_last(), ds);
        let p = pairs.last();
        if discarded(ds, p.0, p.1) {
            rest
        } else {
            rest.push(p.0 + ": "@ + p.1)
        }
    }
}

fn expected_contains(expected: &Vec<(String, Vec<String>)>, block: &String, reason: &String) -> (b: bool)
    ensures
        b == is_expected(expected@, block@, reason@),
{
    let mut i: usize = 0;
    while i < expected.len()
        invariant
            i <= expected@.len(),
            forall|x: int| 0 <= x < i ==> !((#[trigger] expected@[x]).0@ == block@ && views(expected@[x].1@).contains(reason@)),
        decreases expected.len() - i,
    {
        if expected[i].0 == *block {
            let reasons = &expected[i].1;
            let mut k: usize = 0;
            while k < reasons.len()
                invariant
                    k <= reasons@.len(),
                    i < expected@.len(),
                    expected@[i as int].0@ == block@,
                    reasons@ == expected@[i as int].1@,
                    forall|y: int| 0 <= y < k ==> reasons@[y]@ != reason@,
                decreases reasons.len() - k,
            {
                if reasons[k] == *reason {
                    assert(views(reasons@)[k as int] == reason@);
                    return true;
                }
                k = k + 1;
            }
            assert(!views(expected@[i as int].1@).contains(reason@)) by {
                if views(expected@[i as int].1@).contains(reason@) {
                    let y = choose|y: int| 0 <= y < views(expected@[i as int].1@).len() && views(expected@[i as int].1@)[y] == reason@;
                    assert(reasons@[y]@ == reason@);
                }
            }
        }
        i = i + 1;
    }
    false
}

/// The lines for the discards of the files that are not expected (see [`unexpected_lines`]).
pub fn unexpected_discards(files: &Vec<(String, Vec<(String, Vec<String>)>)>, expected: &Vec<(String, Vec<String>)>) -> (out: Vec<String>)
    ensures
        views(out@) == unexpected_lines(all_discards(files@), expected@),
{
    let mut out: Vec<String> = Vec::new();
    let ghost mut done: Seq<Discard> = Seq::empty();
    let mut i: usize = 0;
    while i < files.len()
        invariant
            i <= files@.len(),
            done == all_discards(files@.take(i as int)),
            views(out@) == unexpected_lines(done, expected@),
        decreases files.len() - i,
    {
        let block = &files[i].0;
        let states = &files[i].1;
        let ghost base = done;
        let mut j: usize = 0;
        proof {
            assert(states@.take(0) =~= Seq::<(String, Vec<String>)>::empty());
            assert(base + state_discards(block@, states@.take(0)) =~= base);
        }
        while j < states.len()
            invariant
                j <= states@.len(),
                i < files@.len(),
                block@ == files@[i as int].0@,
                states@ == files@[i as int].1@,
                base == all_discards(files@.take(i as int)),
                done == base + state_discards(block@, states@.take(j as int)),
                views(out@) == unexpected_lines(done, expected@),
            decreases states.len() - j,
        {
            let key = &states[j].0;
            let reasons = &states[j].1;
            let ghost before_state = done;
            let mut k: usize = 0;
            proof {
                assert(views(reasons@).map_values(|r: Seq<char>| (block@, key@, r)).take(0) =~= Seq::<Discard>::empty());
                assert(before_state + views(reasons@).map_values(|r: Seq<char>| (block@, key@, r)).take(0) =~= before_state);
            }
            while k < reasons.len()
                invariant
                    k <= reasons@.len(),
                    j < states@.len(),
                    key@ == states@[j as int].0@,
                    reasons@ == states@[j as int].1@,
                    done == before_state + views(reasons@).map_values(|r: Seq<char>| (block@, key@, r)).take(k as int),
                    views(out@) == unexpected_lines(done, expected@),
                decreases reasons.len() - k,
            {
                let reason = &reasons[k];
                let ghost d = (block@, key@, reason@);
                let ghost before = views(out@);
                if !expected_contains(expected, block, reason) {
                    let mut line = "  ".to_owned();
                    push_str(&mut line, block.as_str());
                    push_str(&mut line, "[");
                    push_str(&mut line, key.as_str());
                    push_str(&mut line, "]: ");
                    push_str(&mut line, reason.as_str());
                    out.push(line);
                    proof {
                        assert(views(out@) =~= before.push(unexpected_line(d)));
                    }
                }
                proof {
                    let m = views(reasons@).map_values(|r: Seq<char>| (block@, key@, r));
                    assert(m.take(k as int + 1) =~= m.take(k as int).push(d));
                    assert(before_state + m.take(k as int + 1) =~= done.push(d));
                    assert((done.push(d)).drop_last() =~= done);
                    done = done.push(d);
                }
                k = k + 1;
            }
            proof {
                let m = views(reasons@).map_values(|r: Seq<char>| (block@, key@, r));
                assert(m.take(k as int) =~= m);
                assert(states@.take(j as int + 1).drop_last() =~= states@.take(j as int));
                assert(states@.take(j as int + 1).last() == states@[j as int]);
                assert(state_discards(block@, states@.take(j as int + 1)) == state_discards(block@, states@.take(j as int)) + m);
                assert(done =~= base + state_discards(block@, states@.take(j as int + 1)));
            }
            j = j + 1;
        }
        proof {
            assert(states@.take(j as int) =~= states@);
            assert(files@.take(i as int + 1).drop_last() =~= files@.take(i as int));
            assert(files@.take(i as int + 1).last() == files@[i as int]);
        }
        i = i + 1;
    }
    proof {
        assert(files@.take(i as int) =~= files@);
    }
    out
}

fn was_discarded(files: &Vec<(String, Vec<(String, Vec<String>)>)>, block: &String, reason: &String) -> (b: bool)
    ensures
        b == discarded(all_discards(files@), block@, reason@),
{
    let ghost ds = all_discards(files@);
    let mut i: usize = 0;
    while i < files.len()
        invariant
            i <= files@.len(),
            ds == all_discards(files@),
            !discarded(all_discards(files@.take(i as int)), block@, reason@),
        decreases files.len() - i,
    {
        let ghost base = all_discards(files@.take(i as int));
        proof {
            assert(files@.take(i as int + 1).drop_last() =~= files@.take(i as int));
            assert(files@.take(i as int + 1).last() == files@[i as int]);
        }
        let mut hit = false;
        if files[i].0 == *block {
            let states = &files[i].1;
            let mut j: usize = 0;
            while j < states.len() && !hit
                invariant
                    j <= states@.len(),
                    i < files@.len(),
                    states@ == files@[i as int].1@,
                    files@[i as int].0@ == block@,
                    hit ==> discarded(state_discards(block@, states@), block@, reason@),
                    !hit ==> !discarded(state_discards(block@, states@.take(j as int)), block@, reason@),
                decreases states.len() - j,
            {
                let reasons = &states[j].1;
                let mut k: usize = 0;
                let mut found = false;
                while k < reasons.len() && !found
                    invariant
                        k <= reasons@.len(),
                        j < states@.len(),
                        reasons@ == states@[j as int].1@,
                        found ==> k > 0 && reasons@[k - 1]@ == reason@,
                        !found ==> forall|y: int| 0 <= y < k ==> reasons@[y]@ != reason@,
                    decreases reasons.len() - k,
                {
                    if reasons[k] == *reason {
                        found = true;
                    }
                    k = k + 1;
                }
                let ghost m = views(reasons@).map_values(|r: Seq<char>| (block@, states@[j as int].0@, r));
                proof {
                    assert(states@.take(j as int + 1).drop_last() =~= states@.take(j as int));
                    assert(states@.take(j as int + 1).last() == states@[j as int]);
                    assert(state_discards(block@, states@.take(j as int + 1)) == state_discards(block@, states@.take(j as int)) + m);
                }
                if found {
                    hit = true;
                    proof {
                        lemma_state_discards_prefix(block@, states@, j as int + 1);
                        let pre = state_discards(block@, states@.take(j as int + 1));
                        let idx = state_discards(block@, states@.take(j as int)).len() + k - 1;
                        assert(pre[idx] == m[k - 1]);
                        assert(state_discards(block@, states@)[idx] == pre[idx]);
                    }
                } else {
                    proof {
                        assert forall|y: int| 0 <= y < m.len() implies !((#[trigger] m[y]).0 == block@ && m[y].2 == reason@) by {
                            assert(m[y].2 == reasons@[y]@);
                        }
                        let pre = state_discards(block@, states@.take(j as int));
                        assert forall|y: int| 0 <= y < (pre + m).len() implies !((#[trigger] (pre + m)[y]).0 == block@ && (pre + m)[y].2 == reason@) by {
                            if y < pre.len() {
                                assert((pre + m)[y] == pre[y]);
                            } else {
                                assert((pre + m)[y] == m[y - pre.len()]);
                            }
                        }
                    }
                }
                j = j + 1;
            }
            proof {
                if !hit {
                    assert(states@.take(j as int) =~= states@);
                }
            }
        }
        let ghost sd = state_discards(files@[i as int].0@, files@[i as int].1@);
        proof {
            assert(all_discards(files@.take(i as int + 1)) == base + sd);
        }
        if hit {
            proof {
                lemma_all_discards_prefix(files@, i as int + 1);
                let y = choose|y: int| 0 <= y < sd.len() && (#[trigger] sd[y]).0 == block@ && sd[y].2 == reason@;
                assert(all_discards(files@.take(i as int + 1))[base.len() + y] == sd[y]);
                assert(ds[base.len() + y] == sd[y]);
            }
            return true;
        }
        proof {
            if files@[i as int].0@ != block@ {
                lemma_state_discards_block(files@[i as int].0@, files@[i as int].1@);
            }
            assert forall|y: int| 0 <= y < (base + sd).len() implies !((#[trigger] (base + sd)[y]).0 == block@ && (base + sd)[y].2 == reason@) by {
                if y < base.len() {
                    assert((base + sd)[y] == base[y]);
                } else {
                    assert((base + sd)[y] == sd[y - base.len()]);
                }
            }
        }
        i = i + 1;
    }
    proof {
        assert(files@.take(i as int) =~= files@);
    }
    false
}

/// The discards of a block's states all name that block.
proof fn lemma_state_discards_block(block: Seq<char>, states: Seq<(String, Vec<String>)>)
    ensures
        forall|y: int| 0 <= y < state_discards(block, states).len() ==> (#[trigger] state_discards(block, states)[y]).0 == block,
    decreases states.len(),
{
    if states.len() > 0 {
        lemma_state_discards_block(block, states.drop_last());
        let pre = state_discards(block, states.drop_last());
        let m = views(states.last().1@).map_values(|r: Seq<char>| (block, states.last().0@, r));
        assert forall|y: int| 0 <= y < (pre + m).len() implies (#[trigger] (pre + m)[y]).0 == block by {
            if y < pre.len() {
                assert((pre + m)[y] == pre[y]);
            } else {
                assert((pre + m)[y] == m[y - pre.len()]);
            }
        }
    }
}

/// The discards of the first states come first among those of all states.
proof fn lemma_state_discards_prefix(block: Seq<char>, states: Seq<(String, Vec<String>)>, n: int)
    requires
        0 <= n <= states.len(),
    ensures
        state_discards(block, states.take(n)).len() <= state_discards(block, states).len(),
        forall|y: int| 0 <= y < state_discards(block, states.take(n)).len() ==> #[trigger] state_discards(block, states.take(n))[y]
            == state_discards(block, states)[y],
    decreases states.len() - n,
{
    if n < states.len() {
        lemma_state_discards_prefix(block, states, n + 1);
        assert(states.take(n + 1).drop_last() =~= states.take(n));
        let pre = state_discards(block, states.take(n));
        let m = views(states.take(n + 1).last().1@).map_values(|r: Seq<char>| (block, states.take(n + 1).last().0@, r));
        assert(state_discards(block, states.take(n + 1)) == pre + m);
        assert forall|y: int| 0 <= y < pre.len() implies #[trigger] pre[y] == state_discards(block, states)[y] by {
            assert((pre + m)[y] == pre[y]);
        }
    } else {
        assert(states.take(n) =~= states);
    }
}

/// The discards of the first files come first among those of all files.
proof fn lemma_all_discards_prefix(files: Seq<(String, Vec<(String, Vec<String>)>)>, n: int)
    requires
        0 <= n <= files.len(),
    ensures
        all_discards(files.take(n)).len() <= all_discards(files).len(),
        forall|y: int| 0 <= y < all_discards(files.take(n)).len() ==> #[trigger] all_discards(files.take(n))[y] == all_discards(files)[y],
    decreases files.len() - n,
{
    if n < files.len() {
        lemma_all_discards_prefix(files, n + 1);
        assert(files.take(n + 1).drop_last() =~= files.take(n));
        let pre = all_discards(files.take(n));
        let sd = state_discards(files.take(n + 1).last().0@, files.take(n + 1).last().1@);
        assert(all_discards(files.take(n + 1)) == pre + sd);
        assert forall|y: int| 0 <= y < pre.len() implies #[trigger] pre[y] == all_discards(files)[y] by {
            assert((pre + sd)[y] == pre[y]);
        }
    } else {
        assert(files.take(n) =~= files);
    }
}

/// The lines for the expected discards that never happened (see [`stale_lines`]).
pub fn stale_discards(files: &Vec<(String, Vec<(String, Vec<String>)>)>, expected: &Vec<(String, Vec<String>)>) -> (out: Vec<String>)
    ensures
        views(out@) == stale_lines(expected_pairs(expected@), all_discards(files@)),
{
    let ghost ds = all_discards(files@);
    let mut out: Vec<String> = Vec::new();
    let ghost mut done: Seq<(Seq<char>, Seq<char>)> = Seq::empty();
    let mut i: usize = 0;
    while i < expected.len()
        invariant
            i <= expected@.len(),
            ds == all_discards(files@),
            done == expected_pairs(expected@.take(i as int)),
            views(out@) == stale_lines(done, ds),
        decreases expected.len() - i,
    {
        let block = &expected[i].0;
        let reasons = &expected[i].1;
        let ghost base = done;
        let ghost m = views(reasons@).map_values(|r: Seq<char>| (block@, r));
        let mut k: usize = 0;
        proof {
            assert(base + m.take(0) =~= base);
        }
        while k < reasons.len()
            invariant
                k <= reasons@.len(),
                i < expected@.len(),
                m == views(reasons@).map_values(|r: Seq<char>| (block@, r)),
                ds == all_discards(files@),
                done == base + m.take(k as int),
                views(out@) == stale_lines(done, ds),
            decreases reasons.len() - k,
        {
            let reason = &reasons[k];
            let ghost p = (block@, reason@);
            let ghost before = views(out@);
            if !was_discarded(files, block, reason) {
                let mut line = block.clone();
                push_str(&mut line, ": ");
                push_str(&mut line, reason.as_str());
                out.push(line);
                proof {
                    assert(views(out@) =~= before.push(p.0 + ": "@ + p.1));
                }
            }
            proof {
                assert(m.take(k as int + 1) =~= m.take(k as int).push(p));
                assert(base + m.take(k as int + 1) =~= done.push(p));
                assert(done.push(p).drop_last() =~= done);
                done = done.push(p);
            }
            k = k + 1;
        }
        proof {
            assert(m.take(k as int) =~= m);
            assert(expected@.take(i as int + 1).drop_last() =~= expected@.take(i as int));
            assert(expected@.take(i as int + 1).last() == expected@[i as int]);
        }
        i = i + 1;
    }
    proof {
        assert(expected@.take(i as int) =~= expected@);
    }
    out
}

} // verus!
