//! The grid of a block's states: which properties change what is drawn.

use vstd::prelude::*;
use crate::capture_gen::pool::PoolKey;
use crate::text::{chars_of, decimal, find_char, joined, join, lemma_find_from, push_digits, push_str, split, split_chars, split_once, string_of, string_of_range, sorted_unique, strictly_sorted, views};
use crate::util::collections::StrMap;

verus! {

/// A state key's pairs: its comma-separated pieces, without the empty ones.
pub open spec fn key_pieces(key: Seq<char>) -> Seq<Seq<char>> {
    split(key, ',').filter(non_empty())
}

/// Whether a piece is not empty.
pub open spec fn non_empty() -> spec_fn(Seq<char>) -> bool {
    |p: Seq<char>| p.len() > 0
}

/// The message for a state key with a piece that has no `=`.
pub open spec fn malformed_message(key: Seq<char>) -> Seq<char> {
    "malformed state key "@ + key
}

/// The message for a state key whose property at a column differs from the first key's.
pub open spec fn unexpected_property_message(key: Seq<char>, prop: Seq<char>, column: int) -> Seq<char> {
    "state key "@ + key + " has unexpected property "@ + prop + " at column "@ + decimal(column)
}

/// The message for a state key with more or fewer properties than the first key.
pub open spec fn count_message(key: Seq<char>, expected: int, found: int) -> Seq<char> {
    "state key "@ + key + " has unexpected number of properties (expected "@ + decimal(expected) + ", found "@
        + decimal(found) + ")"@
}

/// The first problem with the pieces of a key from piece `j` on: a piece without `=`, or
/// (for a key after the first) a property other than the first key's at that column.
pub open spec fn piece_problem(key: Seq<char>, ps: Seq<Seq<char>>, props: Seq<Seq<char>>, first: bool, j: int) -> Option<Seq<char>>
    decreases ps.len() - j,
{
    if j < 0 || j >= ps.len() {
        None
    } else {
        match split_once(ps[j], '=') {
            None => Some(malformed_message(key)),
            Some((p, v)) => if !first && (j >= props.len() || props[j] != p) {
                Some(unexpected_property_message(key, p, j))
            } else {
                piece_problem(key, ps, props, first, j + 1)
            },
        }
    }
}

/// The property and the value of a piece with an `=`.
pub open spec fn piece_parts(p: Seq<char>) -> (Seq<char>, Seq<char>) {
    match split_once(p, '=') {
        Some(pv) => pv,
        None => (Seq::empty(), Seq::empty()),
    }
}

/// The properties of a key's pieces.
pub open spec fn props_of(ps: Seq<Seq<char>>) -> Seq<Seq<char>> {
    ps.map_values(|p: Seq<char>| piece_parts(p).0)
}

/// The values of a key's pieces.
pub open spec fn values_of(ps: Seq<Seq<char>>) -> Seq<Seq<char>> {
    ps.map_values(|p: Seq<char>| piece_parts(p).1)
}

/// The grid after the keys from `i` on are read into one with properties `props` and rows
/// `rows`: the first key names the properties, and every key gives a row of values.
pub open spec fn grid_from(keys: Seq<Seq<char>>, i: int, props: Seq<Seq<char>>, rows: Seq<Seq<Seq<char>>>) -> Result<(Seq<Seq<char>>, Seq<Seq<Seq<char>>>), Seq<char>>
    decreases keys.len() - i,
{
    if i < 0 || i >= keys.len() {
        Ok((props, rows))
    } else {
        let key = keys[i];
        let ps = key_pieces(key);
        let first = rows.len() == 0;
        match piece_problem(key, ps, props, first, 0) {
            Some(m) => Err(m),
            None => {
                let props2 = if first { props_of(ps) } else { props };
                let row = values_of(ps);
                if row.len() != props2.len() {
                    Err(count_message(key, props2.len() as int, row.len() as int))
                } else {
                    grid_from(keys, i + 1, props2, rows.push(row))
                }
            },
        }
    }
}

/// A block's states as a grid: the properties, and for each state its values in that order.
pub struct StateGrid {
    pub properties: Vec<String>,
    pub rows: Vec<Vec<String>>,
}

impl StateGrid {
    /// The grid by value.
    pub open spec fn view_pair(&self) -> (Seq<Seq<char>>, Seq<Seq<Seq<char>>>) {
        (views(self.properties@), self.rows@.map_values(|r: Vec<String>| views(r@)))
    }
}

/// The non-empty comma-separated pieces of a key (see [`key_pieces`]).
fn pieces_of(key: &str) -> (ps: Vec<Vec<char>>)
    ensures
        ps@.map_values(|p: Vec<char>| p@) == key_pieces(key@),
{
    let all = split_chars(chars_of(key).as_slice(), ',');
    let ghost av = all@.map_values(|p: Vec<char>| p@);
    let mut out: Vec<Vec<char>> = Vec::new();
    let mut i: usize = 0;
    proof {
        assert(av.take(0).filter(non_empty()) =~= Seq::<Seq<char>>::empty());
        assert(out@.map_values(|p: Vec<char>| p@) =~= Seq::<Seq<char>>::empty());
    }
    while i < all.len()
        invariant
            i <= all@.len(),
            av == all@.map_values(|p: Vec<char>| p@),
            av == split(key@, ','),
            out@.map_values(|p: Vec<char>| p@) == av.take(i as int).filter(non_empty()),
        decreases all.len() - i,
    {
        let ghost before = out@.map_values(|p: Vec<char>| p@);
        proof {
            assert(av.take(i as int + 1).drop_last() =~= av.take(i as int));
            assert(av.take(i as int + 1).last() == all@[i as int]@);
            reveal(Seq::filter);
            assert(av.take(i as int + 1).filter(non_empty()) == if all@[i as int]@.len() > 0 {
                av.take(i as int).filter(non_empty()).push(all@[i as int]@)
            } else {
                av.take(i as int).filter(non_empty())
            });
        }
        if all[i].len() > 0 {
            let mut piece: Vec<char> = Vec::new();
            let mut k: usize = 0;
            while k < all[i].len()
                invariant
                    k <= all@[i as int]@.len(),
                    i < all@.len(),
                    piece@ == all@[i as int]@.take(k as int),
                decreases all@[i as int]@.len() - k,
            {
                piece.push(all[i][k]);
                proof {
                    assert(all@[i as int]@.take(k as int + 1) =~= all@[i as int]@.take(k as int).push(all@[i as int]@[k as int]));
                }
                k = k + 1;
            }
            proof {
                assert(piece@ =~= all@[i as int]@);
            }
            out.push(piece);
            proof {
                assert(out@.map_values(|p: Vec<char>| p@) =~= before.push(all@[i as int]@));
            }
        }
        i = i + 1;
    }
    proof {
        assert(av.take(all@.len() as int) =~= av);
    }
    out
}

impl StateGrid {
    /// Reads the state keys, in order, into a grid (see [`grid_from`]).
    pub fn parse(keys: &Vec<String>) -> (r: Result<StateGrid, String>)
        ensures
            match r {
                Ok(g) => grid_from(views(keys@), 0, Seq::empty(), Seq::empty()) == Ok::<(Seq<Seq<char>>, Seq<Seq<Seq<char>>>), Seq<char>>(g.view_pair())
                    && g.wf() && g.rows@.len() == keys@.len(),
                Err(m) => grid_from(views(keys@), 0, Seq::empty(), Seq::empty()) == Err::<(Seq<Seq<char>>, Seq<Seq<Seq<char>>>), Seq<char>>(m@),
            },
    {
        let ghost kv = views(keys@);
        let mut props: Vec<String> = Vec::new();
        let mut rows: Vec<Vec<String>> = Vec::new();
        let mut i: usize = 0;
        proof {
            assert(views(props@) =~= Seq::<Seq<char>>::empty());
            assert(rows@.map_values(|r: Vec<String>| views(r@)) =~= Seq::<Seq<Seq<char>>>::empty());
        }
        while i < keys.len()
            invariant
                i <= keys@.len(),
                kv == views(keys@),
                rows@.len() == i,
                i == 0 ==> props@.len() == 0,
                forall|x: int| 0 <= x < rows@.len() ==> (#[trigger] rows@[x])@.len() == props@.len(),
                grid_from(kv, 0, Seq::empty(), Seq::empty()) == grid_from(
                    kv,
                    i as int,
                    views(props@),
                    rows@.map_values(|r: Vec<String>| views(r@)),
                ),
            decreases keys.len() - i,
        {
            let key = &keys[i];
            assert(views(keys@)[i as int] == key@);
            let ps = pieces_of(key.as_str());
            let ghost psv = ps@.map_values(|p: Vec<char>| p@);
            let first = rows.len() == 0;
            let ghost props0 = views(props@);
            let ghost rows0 = rows@.map_values(|r: Vec<String>| views(r@));
            let mut row: Vec<String> = Vec::new();
            let mut j: usize = 0;
            proof {
                assert(kv[i as int] == key@);
                if first {
                    assert(views(props@) =~= props_of(psv.take(0)));
                }
                assert(views(row@) =~= values_of(psv.take(0)));
                assert(rows0.len() == 0 <==> first);
            }
            while j < ps.len()
                invariant
                    j <= ps@.len(),
                    psv == ps@.map_values(|p: Vec<char>| p@),
                    psv == key_pieces(key@),
                    i < kv.len(),
                    kv[i as int] == key@,
                    (rows0.len() == 0) == first,
                    rows@.len() == rows0.len(),
                    forall|x: int| 0 <= x < rows@.len() ==> (#[trigger] rows@[x])@.len() == props@.len() || first,
                    grid_from(kv, 0, Seq::empty(), Seq::empty()) == grid_from(kv, i as int, props0, rows0),
                    kv == views(keys@),
                    first ==> views(props@) == props_of(psv.take(j as int)),
                    !first ==> views(props@) == props0,
                    views(row@) == values_of(psv.take(j as int)),
                    piece_problem(key@, psv, props0, first, 0) == piece_problem(key@, psv, props0, first, j as int),
                decreases ps.len() - j,
            {
                let piece = &ps[j];
                proof {
                    lemma_find_from(piece@, '=', 0);
                }
                let e = match find_char(piece.as_slice(), '=', 0) {
                    Some(e) => e,
                    None => {
                        proof {
                            assert(split_once(psv[j as int], '=') is None);
                            assert(piece_problem(key@, psv, props0, first, j as int) == Some(malformed_message(key@)));
                        }
                        let mut m = "malformed state key ".to_owned();
                        push_str(&mut m, key.as_str());
                        proof {
                            assert(grid_from(kv, i as int, props0, rows0) == Err::<(Seq<Seq<char>>, Seq<Seq<Seq<char>>>), Seq<char>>(m@));
                        }
                        return Err(m);
                    },
                };
                let plen = piece.len();
                let prop = string_of_range(piece.as_slice(), 0, e);
                let value = string_of_range(piece.as_slice(), e + 1, plen);
                proof {
                    assert(prop@ =~= piece@.take(e as int));
                    assert(value@ =~= piece@.skip(e as int + 1));
                    assert(split_once(psv[j as int], '=') == Some((prop@, value@)));
                    assert(piece_parts(psv[j as int]) == (prop@, value@));
                }
                if first {
                    let ghost pb = views(props@);
                    props.push(prop);
                    proof {
                        assert(views(props@) =~= pb.push(piece_parts(psv[j as int]).0));
                        assert(props_of(psv.take(j as int + 1)) =~= props_of(psv.take(j as int)).push(piece_parts(psv[j as int]).0));
                    }
                } else {
                    let matches = j < props.len() && props[j] == prop;
                    proof {
                        if j < props@.len() {
                            assert(views(props@)[j as int] == props@[j as int]@);
                        }
                        assert(matches == ((j as int) < props0.len() && props0[j as int] == prop@));
                    }
                    if !matches {
                        let mut m = "state key ".to_owned();
                        push_str(&mut m, key.as_str());
                        push_str(&mut m, " has unexpected property ");
                        push_str(&mut m, prop.as_str());
                        push_str(&mut m, " at column ");
                        push_digits(&mut m, j as u64);
                        proof {
                            assert(piece_problem(key@, psv, props0, first, j as int) == Some(unexpected_property_message(key@, prop@, j as int)));
                            assert(grid_from(kv, i as int, props0, rows0) == Err::<(Seq<Seq<char>>, Seq<Seq<Seq<char>>>), Seq<char>>(m@));
                        }
                        return Err(m);
                    }
                }
                let ghost rb = views(row@);
                row.push(value);
                proof {
                    assert(views(row@) =~= rb.push(piece_parts(psv[j as int]).1));
                    assert(values_of(psv.take(j as int + 1)) =~= values_of(psv.take(j as int)).push(piece_parts(psv[j as int]).1));
                }
                j = j + 1;
            }
            proof {
                assert(psv.take(j as int) =~= psv);
                assert(piece_problem(key@, psv, props0, first, j as int) is None);
                assert(views(props@) == if first { props_of(psv) } else { props0 });
                assert(views(row@) == values_of(psv));
            }
            if row.len() != props.len() {
                let mut m = "state key ".to_owned();
                push_str(&mut m, key.as_str());
                push_str(&mut m, " has unexpected number of properties (expected ");
                push_digits(&mut m, props.len() as u64);
                push_str(&mut m, ", found ");
                push_digits(&mut m, row.len() as u64);
                push_str(&mut m, ")");
                proof {
                    assert(grid_from(kv, i as int, props0, rows0) == Err::<(Seq<Seq<char>>, Seq<Seq<Seq<char>>>), Seq<char>>(m@));
                }
                return Err(m);
            }
            let ghost rows_before = rows@.map_values(|r: Vec<String>| views(r@));
            let ghost rowv = views(row@);
            rows.push(row);
            proof {
                assert(rows@.map_values(|r: Vec<String>| views(r@)) =~= rows_before.push(rowv));
                assert(grid_from(kv, i as int, props0, rows0) == grid_from(kv, i as int + 1, views(props@), rows@.map_values(|r: Vec<String>| views(r@))));
            }
            i = i + 1;
        }
        Ok(StateGrid { properties: props, rows })
    }
}

impl StateGrid {
    /// Every row has a value for every property.
    pub open spec fn wf(&self) -> bool {
        forall|i: int| 0 <= i < self.rows@.len() ==> (#[trigger] self.rows@[i])@.len() == self.properties@.len()
    }
}

/// A row without the value at one column.
pub open spec fn rest_of(row: Seq<Seq<char>>, col: int) -> Seq<Seq<char>> {
    row.take(col) + row.skip(col + 1)
}

/// The values a column takes.
pub open spec fn column_values(rows: Seq<Seq<Seq<char>>>, col: int) -> Set<Seq<char>> {
    Set::new(|v: Seq<char>| exists|i: int| 0 <= i < rows.len() && #[trigger] rows[i][col] == v)
}

/// How many of the first `k` rows agree with `target` on every other column.
pub open spec fn count_same(rows: Seq<Seq<Seq<char>>>, col: int, target: Seq<Seq<char>>, k: int) -> nat
    decreases k,
{
    if k <= 0 {
        0
    } else {
        count_same(rows, col, target, k - 1) + if rest_of(rows[k - 1], col) == target { 1nat } else { 0nat }
    }
}

/// Whether a column changes nothing: every group of rows that agree on the other columns
/// holds every value of the column, and all their records are the same.
pub open spec fn column_irrelevant<R: PoolKey>(rows: Seq<Seq<Seq<char>>>, records: Seq<R>, col: int) -> bool {
    forall|i: int| 0 <= i < rows.len() ==> #[trigger] group_ok(rows, records, col, i)
}

/// Whether the rows that agree with row `i` on the other columns hold every value of the
/// column and all have row `i`'s record.
pub open spec fn group_ok<R: PoolKey>(rows: Seq<Seq<Seq<char>>>, records: Seq<R>, col: int, i: int) -> bool {
    &&& count_same(rows, col, rest_of(rows[i], col), rows.len() as int) == column_values(rows, col).len()
    &&& forall|j: int| 0 <= j < rows.len() && rest_of(rows[j], col) == rest_of(rows[i], col) ==> records[j].key() == records[i].key()
}

fn same_rest(a: &Vec<String>, b: &Vec<String>, col: usize) -> (r: bool)
    requires
        a@.len() == b@.len(),
        col < a@.len(),
    ensures
        r == (rest_of(views(a@), col as int) == rest_of(views(b@), col as int)),
{
    let mut k: usize = 0;
    while k < a.len()
        invariant
            k <= a@.len(),
            a@.len() == b@.len(),
            col < a@.len(),
            forall|x: int| 0 <= x < k && x != col ==> a@[x]@ == b@[x]@,
        decreases a.len() - k,
    {
        if k != col && a[k] != b[k] {
            proof {
                let ra = rest_of(views(a@), col as int);
                let rb = rest_of(views(b@), col as int);
                let idx = if k < col { k as int } else { k - 1 };
                assert(ra[idx] == a@[k as int]@);
                assert(rb[idx] == b@[k as int]@);
            }
            return false;
        }
        k = k + 1;
    }
    proof {
        let ra = rest_of(views(a@), col as int);
        let rb = rest_of(views(b@), col as int);
        assert forall|x: int| 0 <= x < ra.len() implies ra[x] == rb[x] by {
            if x < col {
                assert(ra[x] == a@[x]@ && rb[x] == b@[x]@);
            } else {
                assert(ra[x] == a@[x + 1]@ && rb[x] == b@[x + 1]@);
            }
        }
        assert(ra =~= rb);
    }
    true
}

fn distinct_count(rows: &Vec<Vec<String>>, col: usize) -> (n: usize)
    requires
        forall|i: int| 0 <= i < rows@.len() ==> col < (#[trigger] rows@[i])@.len(),
    ensures
        n == column_values(rows@.map_values(|r: Vec<String>| views(r@)), col as int).len(),
{
    let ghost rv = rows@.map_values(|r: Vec<String>| views(r@));
    let mut seen: Vec<String> = Vec::new();
    let mut i: usize = 0;
    while i < rows.len()
        invariant
            i <= rows@.len(),
            rv == rows@.map_values(|r: Vec<String>| views(r@)),
            forall|x: int| 0 <= x < rows@.len() ==> col < (#[trigger] rows@[x])@.len(),
            views(seen@).no_duplicates(),
            forall|v: Seq<char>| #[trigger] views(seen@).contains(v) <==> exists|x: int| 0 <= x < i && #[trigger] rv[x][col as int] == v,
            seen@.len() <= i,
        decreases rows.len() - i,
    {
        let v = &rows[i][col];
        assert(rv[i as int][col as int] == v@);
        let mut k: usize = 0;
        let mut found = false;
        while k < seen.len()
            invariant
                k <= seen@.len(),
                !found ==> forall|y: int| 0 <= y < k ==> seen@[y]@ != v@,
                found ==> views(seen@).contains(v@),
            decreases seen.len() - k,
        {
            if seen[k] == *v {
                found = true;
                assert(views(seen@)[k as int] == v@);
            }
            k = k + 1;
        }
        let ghost before = views(seen@);
        if !found {
            seen.push(v.clone());
            proof {
                assert(views(seen@) =~= before.push(v@));
                assert(!before.contains(v@)) by {
                    if before.contains(v@) {
                        let y = choose|y: int| 0 <= y < before.len() && before[y] == v@;
                        assert(seen@[y]@ == v@);
                    }
                }
            }
        }
        proof {
            assert forall|w: Seq<char>| #[trigger] views(seen@).contains(w) <==> exists|x: int| 0 <= x < i + 1 && #[trigger] rv[x][col as int] == w by {
                if views(seen@).contains(w) && !before.contains(w) {
                    assert(w == v@);
                    assert(rv[i as int][col as int] == w);
                }
                if before.contains(w) {
                    let y = choose|y: int| 0 <= y < before.len() && before[y] == w;
                    assert(views(seen@)[y] == w);
                }
                if exists|x: int| 0 <= x < i + 1 && #[trigger] rv[x][col as int] == w {
                    let x = choose|x: int| 0 <= x < i + 1 && #[trigger] rv[x][col as int] == w;
                    if x == i {
                        if found {
                        } else {
                            assert(views(seen@)[before.len() as int] == w);
                        }
                    }
                }
            }
        }
        i = i + 1;
    }
    proof {
        assert(views(seen@).to_set() =~= column_values(rv, col as int));
        views(seen@).unique_seq_to_set();
    }
    seen.len()
}

impl StateGrid {
    /// For each property, whether it changes what is drawn (see [`column_irrelevant`]).
    pub fn relevant<R: PoolKey>(&self, records: &[R]) -> (out: Vec<bool>)
        requires
            self.wf(),
            records@.len() == self.rows@.len(),
        ensures
            out@.len() == self.properties@.len(),
            forall|c: int| 0 <= c < out@.len() ==> out@[c] == !column_irrelevant(self.view_pair().1, records@, c),
    {
        let ghost rv = self.view_pair().1;
        let mut out: Vec<bool> = Vec::new();
        let mut col: usize = 0;
        while col < self.properties.len()
            invariant
                col <= self.properties@.len(),
                self.wf(),
                rv == self.view_pair().1,
                records@.len() == self.rows@.len(),
                out@.len() == col,
                forall|c: int| 0 <= c < col ==> out@[c] == !column_irrelevant(rv, records@, c),
            decreases self.properties.len() - col,
        {
            let values = distinct_count(&self.rows, col);
            let mut irrelevant = true;
            let mut i: usize = 0;
            while i < self.rows.len() && irrelevant
                invariant
                    i <= self.rows@.len(),
                    self.wf(),
                    col < self.properties@.len(),
                    rv == self.view_pair().1,
                    records@.len() == self.rows@.len(),
                    values == column_values(rv, col as int).len(),
                    irrelevant ==> forall|x: int| 0 <= x < i ==> #[trigger] group_ok(rv, records@, col as int, x),
                    !irrelevant ==> !column_irrelevant(rv, records@, col as int),
                decreases self.rows.len() - i,
            {
                let mut count: usize = 0;
                let mut agree = true;
                let mut j: usize = 0;
                while j < self.rows.len()
                    invariant
                        j <= self.rows@.len(),
                        i < self.rows@.len(),
                        self.wf(),
                        col < self.properties@.len(),
                        rv == self.view_pair().1,
                        records@.len() == self.rows@.len(),
                        count == count_same(rv, col as int, rest_of(rv[i as int], col as int), j as int),
                        count <= j,
                        agree == forall|y: int| 0 <= y < j && rest_of(rv[y], col as int) == rest_of(rv[i as int], col as int) ==> records@[y].key() == records@[i as int].key(),
                    decreases self.rows.len() - j,
                {
                    proof {
                        assert(rv[j as int] == views(self.rows@[j as int]@));
                        assert(rv[i as int] == views(self.rows@[i as int]@));
                    }
                    let same = same_rest(&self.rows[j], &self.rows[i], col);
                    if same {
                        count = count + 1;
                        if !records[j].same(&records[i]) {
                            agree = false;
                        }
                    }
                    j = j + 1;
                }
                proof {
                    assert(rv.len() == self.rows@.len());
                    assert(j == rv.len());
                }
                if count != values || !agree {
                    irrelevant = false;
                    proof {
                        assert(!group_ok(rv, records@, col as int, i as int));
                    }
                }
                i = i + 1;
            }
            proof {
                if irrelevant {
                    assert(rv.len() == self.rows@.len());
                    assert(i == rv.len());
                    assert(column_irrelevant(rv, records@, col as int));
                }
            }
            out.push(!irrelevant);
            col = col + 1;
        }
        out
    }
}

/// The `property=value` pairs of a row's relevant columns among the first `n`.
pub open spec fn kept_pairs(props: Seq<Seq<char>>, row: Seq<Seq<char>>, relevant: Seq<bool>, n: int) -> Seq<Seq<char>>
    decreases n,
{
    if n <= 0 {
        Seq::empty()
    } else {
        kept_pairs(props, row, relevant, n - 1) + if relevant[n - 1] {
            seq![props[n - 1] + "="@ + row[n - 1]]
        } else {
            Seq::empty()
        }
    }
}

/// A state's key with only the relevant properties: `property=value` pairs joined by commas.
pub open spec fn state_key(props: Seq<Seq<char>>, row: Seq<Seq<char>>, relevant: Seq<bool>) -> Seq<char> {
    joined(kept_pairs(props, row, relevant, props.len() as int), ","@)
}

impl StateGrid {
    /// Each row's key with only the relevant properties (see [`state_key`]).
    pub fn keys(&self, relevant: &[bool]) -> (out: Vec<String>)
        requires
            self.wf(),
            relevant@.len() == self.properties@.len(),
        ensures
            out@.len() == self.rows@.len(),
            forall|i: int| 0 <= i < out@.len() ==> (#[trigger] out@[i])@ == state_key(
                self.view_pair().0,
                self.view_pair().1[i],
                relevant@,
            ),
    {
        let ghost pv = self.view_pair().0;
        let ghost rv = self.view_pair().1;
        let mut out: Vec<String> = Vec::new();
        let mut i: usize = 0;
        while i < self.rows.len()
            invariant
                i <= self.rows@.len(),
                self.wf(),
                relevant@.len() == self.properties@.len(),
                pv == self.view_pair().0,
                rv == self.view_pair().1,
                out@.len() == i,
                forall|x: int| 0 <= x < i ==> (#[trigger] out@[x])@ == state_key(pv, rv[x], relevant@),
            decreases self.rows.len() - i,
        {
            let row = &self.rows[i];
            let ghost rowv = rv[i as int];
            assert(rowv == views(row@));
            let mut pairs: Vec<String> = Vec::new();
            let mut c: usize = 0;
            while c < self.properties.len()
                invariant
                    c <= self.properties@.len(),
                    i < self.rows@.len(),
                    self.wf(),
                    relevant@.len() == self.properties@.len(),
                    pv == self.view_pair().0,
                    rowv == views(row@),
                    row@.len() == self.properties@.len(),
                    views(pairs@) == kept_pairs(pv, rowv, relevant@, c as int),
                decreases self.properties.len() - c,
            {
                if relevant[c] {
                    let mut p = self.properties[c].clone();
                    push_str(&mut p, "=");
                    push_str(&mut p, row[c].as_str());
                    let ghost before = views(pairs@);
                    pairs.push(p);
                    proof {
                        assert(views(pairs@) =~= before.push(pv[c as int] + "="@ + rowv[c as int]));
                        assert(kept_pairs(pv, rowv, relevant@, c as int + 1) =~= before + seq![pv[c as int] + "="@ + rowv[c as int]]);
                    }
                } else {
                    proof {
                        assert(kept_pairs(pv, rowv, relevant@, c as int + 1) =~= kept_pairs(pv, rowv, relevant@, c as int));
                    }
                }
                c = c + 1;
            }
            let key = join(&pairs, ",");
            out.push(key);
            proof {
                assert(pv.len() == self.properties@.len());
            }
            i = i + 1;
        }
        out
    }
}


/// The record of each key, keys and records paired in order as far as both go: a key that
/// comes again takes the record of its last occurrence.
pub open spec fn collapsed<R>(keys: Seq<Seq<char>>, records: Seq<R>) -> Map<Seq<char>, R>
    decreases keys.len(),
{
    if keys.len() == 0 || records.len() == 0 {
        Map::empty()
    } else {
        let n = if keys.len() < records.len() { keys.len() } else { records.len() };
        let ks = keys.take(n as int);
        let rs = records.take(n as int);
        collapsed(ks.drop_last(), rs.drop_last()).insert(ks.last(), rs.last())
    }
}

/// The states of a block by key: each key once, in lexicographic order, with the record of
/// its last occurrence (see [`collapsed`]).
pub fn collapse_states<R: Copy>(keys: Vec<String>, records: &Vec<R>) -> (out: Vec<(String, R)>)
    ensures
        strictly_sorted(out@.map_values(|e: (String, R)| e.0@)),
        out@.map_values(|e: (String, R)| e.0@).to_set() == collapsed(views(keys@), records@).dom(),
        forall|i: int| 0 <= i < out@.len() ==> (#[trigger] out@[i]).1 == collapsed(views(keys@), records@)[out@[i].0@],
{
    let ghost kv = views(keys@);
    let n: usize = if keys.len() < records.len() { keys.len() } else { records.len() };
    let mut table: StrMap<R> = StrMap::new();
    let mut used: Vec<String> = Vec::new();
    let mut i: usize = 0;
    while i < n
        invariant
            n <= keys@.len(),
            n <= records@.len(),
            n == keys@.len() || n == records@.len(),
            i <= n,
            kv == views(keys@),
            table.wf(),
            table@ == collapsed(kv.take(i as int), records@.take(i as int)),
            views(used@) == kv.take(i as int),
        decreases n - i,
    {
        proof {
            let ks = kv.take(i as int + 1);
            let rs = records@.take(i as int + 1);
            assert(ks.take(i as int + 1) =~= ks);
            assert(rs.take(i as int + 1) =~= rs);
            assert(ks.drop_last() =~= kv.take(i as int));
            assert(rs.drop_last() =~= records@.take(i as int));
        }
        let key = keys[i].clone();
        table.insert(key, records[i]);
        used.push(keys[i].clone());
        proof {
            assert(views(used@) =~= kv.take(i as int + 1));
        }
        i = i + 1;
    }
    proof {
        if n == keys@.len() {
            assert(kv.take(n as int) =~= kv);
            assert(collapsed(kv, records@) == collapsed(kv.take(n as int), records@.take(n as int))) by {
                lemma_collapsed_prefix(kv, records@);
            }
        } else {
            assert(records@.take(n as int) =~= records@);
            assert(collapsed(kv, records@) == collapsed(kv.take(n as int), records@.take(n as int))) by {
                lemma_collapsed_prefix(kv, records@);
            }
        }
        assert forall|x: Seq<char>| table@.contains_key(x) <==> views(used@).contains(x) by {
            lemma_collapsed_dom(kv.take(n as int), records@.take(n as int), x);
        }
    }
    let ghost uv = views(used@);
    let sorted = sorted_unique(used);
    proof {
        assert forall|x: Seq<char>| table@.contains_key(x) <==> views(sorted@).contains(x) by {
            assert(views(sorted@).to_set().contains(x) == views(sorted@).contains(x));
            assert(uv.to_set().contains(x) == uv.contains(x));
        }
    }
    let mut out: Vec<(String, R)> = Vec::new();
    let mut j: usize = 0;
    while j < sorted.len()
        invariant
            j <= sorted@.len(),
            table.wf(),
            strictly_sorted(views(sorted@)),
            forall|x: Seq<char>| #[trigger] table@.contains_key(x) <==> views(sorted@).contains(x),
            out@.map_values(|e: (String, R)| e.0@) == views(sorted@).take(j as int),
            forall|l: int| 0 <= l < j ==> (#[trigger] out@[l]).1 == table@[out@[l].0@],
        decreases sorted.len() - j,
    {
        let k = sorted[j].clone();
        proof {
            assert(views(sorted@)[j as int] == sorted@[j as int]@);
            assert(views(sorted@).contains(k@));
        }
        let r: R = match table.get(k.as_str()) {
            Some(v) => *v,
            None => {
                proof {
                    assert(false);
                }
                records[0]
            },
        };
        let ghost before = out@;
        let ghost kk = k@;
        out.push((k, r));
        proof {
            assert(kk == views(sorted@)[j as int]);
            assert(out@.map_values(|e: (String, R)| e.0@) =~= before.map_values(|e: (String, R)| e.0@).push(kk));
            assert(out@.map_values(|e: (String, R)| e.0@) =~= views(sorted@).take(j as int + 1));
        }
        j = j + 1;
    }
    proof {
        assert(views(sorted@).take(j as int) =~= views(sorted@));
        assert(out@.map_values(|e: (String, R)| e.0@).to_set() =~= collapsed(kv, records@).dom());
    }
    out
}

proof fn lemma_collapsed_prefix<R>(keys: Seq<Seq<char>>, records: Seq<R>)
    ensures
        ({
            let n = if keys.len() < records.len() { keys.len() } else { records.len() };
            collapsed(keys, records) == collapsed(keys.take(n as int), records.take(n as int))
        }),
{
    let n = if keys.len() < records.len() { keys.len() } else { records.len() };
    let ks = keys.take(n as int);
    let rs = records.take(n as int);
    assert(ks.take(n as int) =~= ks);
    assert(rs.take(n as int) =~= rs);
}

proof fn lemma_collapsed_dom<R>(keys: Seq<Seq<char>>, records: Seq<R>, x: Seq<char>)
    requires
        keys.len() == records.len(),
    ensures
        collapsed(keys, records).contains_key(x) <==> keys.contains(x),
    decreases keys.len(),
{
    if keys.len() > 0 {
        let n = keys.len();
        assert(keys.take(n as int) =~= keys);
        assert(records.take(n as int) =~= records);
        lemma_collapsed_dom(keys.drop_last(), records.drop_last(), x);
        if keys.drop_last().contains(x) {
            let i = choose|i: int| 0 <= i < keys.drop_last().len() && keys.drop_last()[i] == x;
            assert(keys[i] == x);
        }
        if keys.contains(x) && x != keys.last() {
            let i = choose|i: int| 0 <= i < keys.len() && keys[i] == x;
            assert(keys.drop_last()[i] == x);
        }
    }
}

} // verus!
