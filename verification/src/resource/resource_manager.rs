//! Reading many paths across a stack of packs: each path from the first pack that has it.

use vstd::prelude::*;

verus! {

/// Whether the slots are listed in increasing order.
pub open spec fn increasing(s: Seq<usize>) -> bool {
    forall|i: int, j: int| 0 <= i < j < s.len() ==> s[i] < s[j]
}

/// The result slots after one pack answers for the slots still missing: a slot the pack has
/// takes its bytes; every other slot keeps what it had.
pub open spec fn answered<T>(out: Seq<Option<T>>, missing: Seq<usize>, got: Seq<Option<T>>) -> Seq<Option<T>> {
    Seq::new(
        out.len(),
        |j: int| if exists|k: int| 0 <= k < missing.len() && missing[k] == j && got[k] is Some {
            got[choose|k: int| 0 <= k < missing.len() && missing[k] == j && got[k] is Some]
        } else {
            out[j]
        },
    )
}

/// The slots a pack did not have, in order.
pub open spec fn still_missing<T>(missing: Seq<usize>, got: Seq<Option<T>>) -> Seq<usize>
    decreases missing.len(),
{
    if missing.len() == 0 {
        Seq::empty()
    } else {
        let rest = still_missing(missing.drop_last(), got.take(missing.len() - 1));
        if got[missing.len() - 1] is None {
            rest.push(missing.last())
        } else {
            rest
        }
    }
}

/// Takes one pack's answers for the slots still missing (listed in increasing order): each
/// slot the pack has gets its bytes, and the slots it does not have are returned, in order.
pub fn merge_round<T>(out: &mut Vec<Option<T>>, missing: &Vec<usize>, got: Vec<Option<T>>) -> (still: Vec<usize>)
    requires
        missing@.len() == got@.len(),
        increasing(missing@),
        forall|k: int| 0 <= k < missing@.len() ==> missing@[k] < old(out)@.len(),
    ensures
        final(out)@ == answered(old(out)@, missing@, got@),
        still@ == still_missing(missing@, got@),
{
    let ghost g0 = got@;
    let ghost o0 = out@;
    let mut got = got;
    let mut rev: Vec<usize> = Vec::new();
    let mut k = got.len();
    proof {
        assert(missing@.take(k as int) =~= missing@);
        assert(g0.take(k as int) =~= g0);
        assert(rev@.reverse() =~= Seq::<usize>::empty());
        assert(still_missing(missing@, g0) + rev@.reverse() =~= still_missing(missing@, g0));
        assert(got@ =~= g0.take(k as int));
    }
    while k > 0
        invariant
            k <= g0.len(),
            g0.len() == missing@.len(),
            got@ == g0.take(k as int),
            increasing(missing@),
            forall|x: int| 0 <= x < missing@.len() ==> missing@[x] < o0.len(),
            out@.len() == o0.len(),
            forall|j: int| 0 <= j < o0.len() ==> #[trigger] out@[j] == if exists|x: int| k <= x < missing@.len() && missing@[x] == j && g0[x] is Some {
                g0[choose|x: int| k <= x < missing@.len() && missing@[x] == j && g0[x] is Some]
            } else {
                o0[j]
            },
            still_missing(missing@, g0) == still_missing(missing@.take(k as int), g0.take(k as int)) + rev@.reverse(),
        decreases k,
    {
        let ghost before = out@;
        let ghost rv = rev@;
        let slot = missing[k - 1];
        let bytes = got.pop().unwrap();
        proof {
            assert(got@ =~= g0.take(k - 1));
            assert(bytes == g0[k - 1]);
            assert(missing@.take(k as int).drop_last() =~= missing@.take(k - 1));
            assert(g0.take(k as int).take(k - 1) =~= g0.take(k - 1));
        }
        match bytes {
            Some(b) => {
                out.set(slot, Some(b));
                proof {
                    assert(still_missing(missing@.take(k as int), g0.take(k as int)) == still_missing(missing@.take(k - 1), g0.take(k - 1)));
                }
            },
            None => {
                rev.push(slot);
                proof {
                    assert(rev@.reverse() =~= seq![slot].add(rv.reverse()));
                    assert(still_missing(missing@.take(k as int), g0.take(k as int)) == still_missing(missing@.take(k - 1), g0.take(k - 1)).push(slot));
                    assert(still_missing(missing@.take(k - 1), g0.take(k - 1)).push(slot) + rv.reverse() =~= still_missing(
                        missing@.take(k - 1),
                        g0.take(k - 1),
                    ) + rev@.reverse());
                }
            },
        }
        proof {
            assert forall|j: int| 0 <= j < o0.len() implies #[trigger] out@[j] == if exists|x: int| k - 1 <= x < missing@.len() && missing@[x] == j && g0[x] is Some {
                g0[choose|x: int| k - 1 <= x < missing@.len() && missing@[x] == j && g0[x] is Some]
            } else {
                o0[j]
            } by {
                if j == slot as int {
                    if g0[k - 1] is Some {
                        assert(missing@[k - 1] == j);
                        let x = choose|x: int| k - 1 <= x < missing@.len() && missing@[x] == j && g0[x] is Some;
                        if x != k - 1 {
                            assert(missing@[k - 1] < missing@[x]);
                        }
                    } else {
                        if exists|x: int| k - 1 <= x < missing@.len() && missing@[x] == j && g0[x] is Some {
                            let x = choose|x: int| k - 1 <= x < missing@.len() && missing@[x] == j && g0[x] is Some;
                            assert(x != k - 1);
                            assert(missing@[k - 1] < missing@[x]);
                        }
                    }
                } else {
                    if exists|x: int| k - 1 <= x < missing@.len() && missing@[x] == j && g0[x] is Some {
                        let x = choose|x: int| k - 1 <= x < missing@.len() && missing@[x] == j && g0[x] is Some;
                        assert(x != k - 1);
                    }
                    if exists|x: int| k <= x < missing@.len() && missing@[x] == j && g0[x] is Some {
                        let x = choose|x: int| k <= x < missing@.len() && missing@[x] == j && g0[x] is Some;
                        assert(k - 1 <= x);
                    }
                }
            }
        }
        k = k - 1;
    }
    let mut still: Vec<usize> = Vec::new();
    let mut i = rev.len();
    while i > 0
        invariant
            i <= rev@.len(),
            still@ == rev@.skip(i as int).reverse(),
        decreases i,
    {
        still.push(rev[i - 1]);
        proof {
            assert(rev@.skip(i - 1).reverse() =~= rev@.skip(i as int).reverse().push(rev@[i - 1]));
        }
        i = i - 1;
    }
    proof {
        assert(rev@.skip(0) =~= rev@);
        assert(missing@.take(0) =~= Seq::<usize>::empty());
        assert(still_missing(missing@.take(0), g0.take(0)) =~= Seq::<usize>::empty());
        assert(still@ =~= still_missing(missing@, g0));
        assert(out@ =~= answered(o0, missing@, g0));
    }
    still
}

/// What the first `n` packs give for slot `j`: the answer of the first of them that has it.
/// `contents[p][j]` is what pack `p` holds for the path in slot `j`.
pub open spec fn first_found<T>(contents: Seq<Seq<Option<T>>>, n: int, j: int) -> Option<T>
    decreases n,
{
    if n <= 0 {
        None
    } else {
        match first_found(contents, n - 1, j) {
            Some(b) => Some(b),
            None => contents[n - 1][j],
        }
    }
}

/// The result slots and the missing slots after asking the first `n` packs in turn, each for
/// the slots still missing (see [`merge_round`]), and stopping once none is missing.
pub open spec fn rounds<T>(contents: Seq<Seq<Option<T>>>, len: nat, n: int) -> (Seq<Option<T>>, Seq<usize>)
    decreases n,
{
    if n <= 0 {
        (Seq::new(len, |j: int| None), Seq::new(len, |j: int| j as usize))
    } else {
        let (out, missing) = rounds(contents, len, n - 1);
        if missing.len() == 0 {
            (out, missing)
        } else {
            let got = missing.map_values(|s: usize| contents[n - 1][s as int]);
            (answered(out, missing, got), still_missing(missing, got))
        }
    }
}

/// What is left missing after a round is the missing slots whose answer was none, in order.
proof fn lemma_still_missing<T>(missing: Seq<usize>, got: Seq<Option<T>>)
    requires
        missing.len() == got.len(),
    ensures
        forall|i: int| 0 <= i < still_missing(missing, got).len() ==> exists|k: int|
            0 <= k < missing.len() && missing[k] == #[trigger] still_missing(missing, got)[i] && got[k] is None,
        forall|k: int| 0 <= k < missing.len() && got[k] is None ==> still_missing(missing, got).contains(#[trigger] missing[k]),
        increasing(missing) ==> increasing(still_missing(missing, got)),
    decreases missing.len(),
{
    if missing.len() > 0 {
        let m0 = missing.drop_last();
        let g0 = got.take(missing.len() - 1);
        lemma_still_missing(m0, g0);
        let rest = still_missing(m0, g0);
        let r = still_missing(missing, got);
        assert forall|i: int| 0 <= i < r.len() implies exists|k: int|
            0 <= k < missing.len() && missing[k] == #[trigger] r[i] && got[k] is None by {
            if i < rest.len() {
                let k = choose|k: int| 0 <= k < m0.len() && m0[k] == #[trigger] rest[i] && g0[k] is None;
                assert(missing[k] == r[i] && got[k] is None);
            } else {
                assert(missing[missing.len() - 1] == r[i]);
            }
        }
        assert forall|k: int| 0 <= k < missing.len() && got[k] is None implies r.contains(#[trigger] missing[k]) by {
            if k < missing.len() - 1 {
                assert(m0[k] == missing[k] && g0[k] is None);
                let i = choose|i: int| 0 <= i < rest.len() && rest[i] == m0[k];
                assert(r[i] == missing[k]);
            } else {
                assert(r[r.len() - 1] == missing[k]);
            }
        }
        if increasing(missing) {
            assert(increasing(m0));
            assert forall|i: int, j: int| 0 <= i < j < r.len() implies r[i] < r[j] by {
                if j < rest.len() {
                } else {
                    let k = choose|k: int| 0 <= k < m0.len() && m0[k] == #[trigger] rest[i] && g0[k] is None;
                    assert(r[i] == missing[k]);
                }
            }
        }
    }
}

/// The state after `n` rounds: the result slots hold what the first `n` packs give, and the
/// missing slots, in increasing order, are those none of them has.
pub open spec fn rounds_ok<T>(contents: Seq<Seq<Option<T>>>, len: nat, n: int, out: Seq<Option<T>>, missing: Seq<usize>) -> bool {
    &&& out.len() == len
    &&& increasing(missing)
    &&& forall|k: int| 0 <= k < missing.len() ==> (#[trigger] missing[k] as int) < len
    &&& forall|j: int| 0 <= j < len ==> #[trigger] out[j] == first_found(contents, n, j)
    &&& forall|j: int| 0 <= j < len ==> (first_found(contents, n, j) is None <==> #[trigger] missing.contains(j as usize))
}

proof fn lemma_rounds<T>(contents: Seq<Seq<Option<T>>>, len: nat, n: int)
    requires
        0 <= n,
        len <= usize::MAX,
    ensures
        rounds_ok(contents, len, n, rounds(contents, len, n).0, rounds(contents, len, n).1),
    decreases n,
{
    if n == 0 {
        let missing = Seq::new(len, |j: int| j as usize);
        assert forall|j: int| 0 <= j < len implies (first_found(contents, n, j) is None <==> #[trigger] missing.contains(j as usize)) by {
            assert(missing[j] == j as usize);
        }
    } else {
        lemma_rounds(contents, len, n - 1);
        let (out, missing) = rounds(contents, len, n - 1);
        if missing.len() == 0 {
            assert forall|j: int| 0 <= j < len implies #[trigger] out[j] == first_found(contents, n, j) by {
                assert(!missing.contains(j as usize));
            }
            assert forall|j: int| 0 <= j < len implies (first_found(contents, n, j) is None <==> #[trigger] missing.contains(j as usize)) by {
                assert(!missing.contains(j as usize));
            }
        } else {
            let got = missing.map_values(|s: usize| contents[n - 1][s as int]);
            let o2 = answered(out, missing, got);
            let m2 = still_missing(missing, got);
            lemma_still_missing(missing, got);
            assert forall|j: int| 0 <= j < len implies #[trigger] o2[j] == first_found(contents, n, j) by {
                if exists|k: int| 0 <= k < missing.len() && missing[k] == j && got[k] is Some {
                    let k = choose|k: int| 0 <= k < missing.len() && missing[k] == j && got[k] is Some;
                    assert(missing.contains(j as usize));
                } else if missing.contains(j as usize) {
                    let k = choose|k: int| 0 <= k < missing.len() && missing[k] == j as usize;
                    assert(got[k] is None);
                }
            }
            assert forall|k: int| 0 <= k < m2.len() implies (#[trigger] m2[k] as int) < len by {
                let x = choose|x: int| 0 <= x < missing.len() && missing[x] == #[trigger] m2[k] && got[x] is None;
            }
            assert forall|j: int| 0 <= j < len implies (first_found(contents, n, j) is None <==> #[trigger] m2.contains(j as usize)) by {
                if m2.contains(j as usize) {
                    let i = choose|i: int| 0 <= i < m2.len() && m2[i] == j as usize;
                    let x = choose|x: int| 0 <= x < missing.len() && missing[x] == #[trigger] m2[i] && got[x] is None;
                    assert(missing.contains(j as usize));
                }
                if first_found(contents, n, j) is None {
                    assert(missing.contains(j as usize));
                    let x = choose|x: int| 0 <= x < missing.len() && missing[x] == j as usize;
                    assert(got[x] is None);
                }
            }
        }
    }
}

/// Reading paths through a stack of packs, each asked in turn for the paths still missing
/// until none is: every path gets the bytes of the first pack that has it, or none when no
/// pack has it; and a pack is asked only for the paths that no pack before it has.
pub proof fn lemma_read_many<T>(contents: Seq<Seq<Option<T>>>, len: nat)
    requires
        len <= usize::MAX,
    ensures
        forall|j: int| 0 <= j < len ==> #[trigger] rounds(contents, len, contents.len() as int).0[j] == first_found(
            contents,
            contents.len() as int,
            j,
        ),
        rounds(contents, len, contents.len() as int).0.len() == len,
        forall|n: int, j: int| 0 <= n < contents.len() && 0 <= j < len ==> (#[trigger] rounds(contents, len, n).1.contains(
            j as usize,
        ) <==> first_found(contents, n, j) is None),
{
    lemma_rounds(contents, len, contents.len() as int);
    assert forall|n: int, j: int| 0 <= n < contents.len() && 0 <= j < len implies (#[trigger] rounds(contents, len, n).1.contains(
        j as usize,
    ) <==> first_found(contents, n, j) is None) by {
        lemma_rounds(contents, len, n);
    }
}

} // verus!
