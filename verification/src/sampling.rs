//! The sampling engine: draws distinct shows at random from a candidate
//! list and picks one theme from each drawn show.

use std::collections::HashMap;
use vstd::prelude::*;

use crate::show::aggregate;
use crate::show::aggregate_spec;
use crate::show::classify;
use crate::show::classify_spec;
use crate::show::Show;
use crate::show::ThemeKind;

verus! {

broadcast use vstd::seq_lib::seq_to_set_is_finite;

/// One successful draw: a theme, its category, and the show it came from.
#[derive(Debug)]
pub struct DrawRow {
    pub theme: String,
    pub kind: ThemeKind,
    pub show_id: usize,
    pub title: String,
}

/// Whether a draw of `v` can produce a result: the catalog knows the show
/// and its merged theme pool is non-empty.
pub open spec fn productive(catalog: Map<usize, Show>, v: usize) -> bool {
    catalog.contains_key(v) && aggregate_spec(catalog[v]).len() > 0
}

/// The distinct candidate values whose draw can produce a result.
pub open spec fn fruitful_ids(list: Seq<usize>, catalog: Map<usize, Show>) -> Set<usize> {
    list.to_set().filter(|v: usize| productive(catalog, v))
}

/// The show identifiers of a sequence of draws.
pub open spec fn row_ids(rows: Seq<DrawRow>) -> Seq<usize> {
    rows.map_values(|r: DrawRow| r.show_id)
}

/// A well-formed draw: its show is a candidate and is in the catalog, the
/// theme comes from that show's merged pool, the title is the show's, and
/// the category is the theme's classification within the show.
pub open spec fn row_ok(row: DrawRow, list: Seq<usize>, catalog: Map<usize, Show>) -> bool {
    &&& list.contains(row.show_id)
    &&& catalog.contains_key(row.show_id)
    &&& aggregate_spec(catalog[row.show_id]).contains(row.theme)
    &&& row.title == catalog[row.show_id].title
    &&& row.kind == classify_spec(row.theme@, catalog[row.show_id])
}

/// Relies on rand::Rng::gen_range, called on the thread-local generator
/// that rand::thread_rng hands out: a draw from the half-open range below
/// `n`. The range is non-empty, so the call cannot panic, and the result is
/// below `n`. Nothing more is assumed of a random value.
#[verifier::external_body]
fn random_below(n: usize) -> (r: usize)
    requires
        n > 0,
    ensures
        r < n,
{
    rand::Rng::gen_range(&mut rand::thread_rng(), 0..n)
}

/// Whether `x` occurs in `v`.
fn contains_id(v: &Vec<usize>, x: usize) -> (b: bool)
    ensures
        b == v@.contains(x),
{
    let mut i: usize = 0;
    while i < v.len()
        invariant
            i <= v@.len(),
            forall|j: int| 0 <= j < i ==> v@[j] != x,
        decreases v@.len() - i,
    {
        if v[i] == x {
            assert(v@.contains(x)) by {
                assert(v@[i as int] == x);
            }
            return true;
        }
        i += 1;
    }
    false
}

/// Whether every candidate value has already been visited.
fn all_visited(list: &Vec<usize>, visited: &Vec<usize>) -> (b: bool)
    ensures
        b == (forall|v: usize| list@.contains(v) ==> visited@.contains(v)),
{
    let mut i: usize = 0;
    while i < list.len()
        invariant
            i <= list@.len(),
            forall|j: int| 0 <= j < i ==> visited@.contains(#[trigger] list@[j]),
        decreases list@.len() - i,
    {
        if !contains_id(visited, list[i]) {
            assert(list@.contains(list@[i as int]));
            return false;
        }
        i += 1;
    }
    assert forall|v: usize| list@.contains(v) implies visited@.contains(v) by {
        let j = choose|j: int| 0 <= j < list@.len() && list@[j] == v;
        assert(visited@.contains(list@[j]));
    }
    true
}

/// Finds a candidate value that has not been visited yet, scanning the list
/// cyclically from position `start`.
fn pick_fresh(list: &Vec<usize>, visited: &Vec<usize>, start: usize) -> (v: usize)
    requires
        start < list@.len(),
        exists|w: usize| list@.contains(w) && !visited@.contains(w),
    ensures
        list@.contains(v),
        !visited@.contains(v),
{
    let mut i: usize = start;
    while i < list.len()
        invariant
            start <= i <= list@.len(),
            forall|j: int| start <= j < i ==> visited@.contains(#[trigger] list@[j]),
        decreases list@.len() - i,
    {
        if !contains_id(visited, list[i]) {
            assert(list@.contains(list@[i as int]));
            return list[i];
        }
        i += 1;
    }
    let mut i: usize = 0;
    while i < start
        invariant
            i <= start <= list@.len(),
            forall|j: int| start <= j < list@.len() ==> visited@.contains(#[trigger] list@[j]),
            forall|j: int| 0 <= j < i ==> visited@.contains(#[trigger] list@[j]),
        decreases start - i,
    {
        if !contains_id(visited, list[i]) {
            assert(list@.contains(list@[i as int]));
            return list[i];
        }
        i += 1;
    }
    proof {
        let w = choose|w: usize| list@.contains(w) && !visited@.contains(w);
        let j = choose|j: int| 0 <= j < list@.len() && list@[j] == w;
        assert(visited@.contains(list@[j]));
        assert(false);
    }
    unreached()
}

/// The number of distinct values in `list`.
pub fn distinct_count(list: &Vec<usize>) -> (n: usize)
    ensures
        n == list@.to_set().len(),
{
    let mut seen: Vec<usize> = Vec::new();
    let mut i: usize = 0;
    while i < list.len()
        invariant
            i <= list@.len(),
            seen@.no_duplicates(),
            seen@.to_set() == list@.take(i as int).to_set(),
        decreases list@.len() - i,
    {
        let v = list[i];
        let ghost pre = seen@;
        if !contains_id(&seen, v) {
            seen.push(v);
            proof {
                lemma_push_no_dup(pre, v);
            }
        }
        proof {
            assert(list@.take((i + 1) as int) =~= list@.take(i as int).push(v));
            list@.take(i as int).lemma_push_to_set_commute(v);
            if pre.contains(v) {
                assert(pre.to_set().contains(v));
                assert(pre.to_set().insert(v) =~= pre.to_set());
            } else {
                pre.lemma_push_to_set_commute(v);
            }
            assert(seen@.to_set() =~= list@.take((i + 1) as int).to_set());
        }
        i += 1;
    }
    proof {
        assert(list@.take(list@.len() as int) =~= list@);
        seen@.unique_seq_to_set();
    }
    seen.len()
}

/// Pushing a value onto a sequence makes exactly that value newly present.
proof fn lemma_push_contains(s: Seq<usize>, x: usize, v: usize)
    ensures
        s.push(x).contains(v) <==> s.contains(v) || v == x,
{
    if s.push(x).contains(v) {
        let i = choose|i: int| 0 <= i < s.push(x).len() && s.push(x)[i] == v;
        if i < s.len() {
            assert(s[i] == v);
        }
    }
    if s.contains(v) {
        let i = choose|i: int| 0 <= i < s.len() && s[i] == v;
        assert(s.push(x)[i] == v);
    }
    if v == x {
        assert(s.push(x)[s.len() as int] == v);
    }
}

/// Pushing a value that is not yet present keeps a sequence free of
/// duplicates.
proof fn lemma_push_no_dup(s: Seq<usize>, x: usize)
    requires
        s.no_duplicates(),
        !s.contains(x),
    ensures
        s.push(x).no_duplicates(),
{
    assert forall|i: int, j: int| 0 <= i < j < s.push(x).len() implies s.push(x)[i] != s.push(x)[j]
    by {
        if j < s.len() {
            assert(s[i] != s[j]);
        } else {
            assert(s.contains(s[i]) || s.len() == 0) by {
                if s.len() > 0 {
                    assert(s[i] == s[i]);
                }
            }
        }
    }
}

/// A sequence without duplicates, all of whose elements occur in `list`, is
/// no longer than `list`, and its elements form a subset of `list`'s.
proof fn lemma_distinct_in_list_le(s: Seq<usize>, list: Seq<usize>)
    requires
        s.no_duplicates(),
        forall|k: int| 0 <= k < s.len() ==> list.contains(#[trigger] s[k]),
    ensures
        s.len() <= list.len(),
        s.to_set().len() == s.len(),
        s.to_set().subset_of(list.to_set()),
{
    s.unique_seq_to_set();
    assert forall|v: usize| s.to_set().contains(v) implies list.to_set().contains(v) by {
        assert(s.contains(v));
        let k = choose|k: int| 0 <= k < s.len() && s[k] == v;
        assert(list.contains(s[k]));
    }
    vstd::set_lib::lemma_len_subset(s.to_set(), list.to_set());
    list.lemma_cardinality_of_set();
}

/// The draws collected so far reference pairwise distinct fruitful
/// candidates, so they never outnumber the fruitful candidates.
proof fn lemma_rows_le_fruitful(rows: Seq<DrawRow>, list: Seq<usize>, catalog: Map<usize, Show>)
    requires
        row_ids(rows).no_duplicates(),
        forall|i: int| 0 <= i < rows.len() ==> row_ok(#[trigger] rows[i], list, catalog),
    ensures
        rows.len() <= fruitful_ids(list, catalog).len(),
        row_ids(rows).to_set().subset_of(fruitful_ids(list, catalog)),
        fruitful_ids(list, catalog).finite(),
{
    let ids = row_ids(rows);
    let fruit = fruitful_ids(list, catalog);
    assert forall|v: usize| ids.to_set().contains(v) implies fruit.contains(v) by {
        assert(ids.contains(v));
        let i = choose|i: int| 0 <= i < ids.len() && ids[i] == v;
        assert(row_ok(rows[i], list, catalog));
        assert(rows[i].show_id == v);
        assert(list.to_set().contains(v));
        assert(aggregate_spec(catalog[v]).len() > 0) by {
            let t = choose|t: int|
                0 <= t < aggregate_spec(catalog[v]).len() && aggregate_spec(catalog[v])[t]
                    == rows[i].theme;
        }
        assert(productive(catalog, v));
    }
    assert(fruit.subset_of(list.to_set()));
    vstd::set_lib::lemma_len_subset(fruit, list.to_set());
    ids.unique_seq_to_set();
    vstd::set_lib::lemma_len_subset(ids.to_set(), fruit);
}

/// With one draw per productive visited value and every candidate value
/// visited, the number of draws equals the number of fruitful candidates.
proof fn lemma_rows_exhausted(
    rows: Seq<DrawRow>,
    visited: Seq<usize>,
    list: Seq<usize>,
    catalog: Map<usize, Show>,
)
    requires
        row_ids(rows).no_duplicates(),
        forall|i: int| 0 <= i < rows.len() ==> row_ok(#[trigger] rows[i], list, catalog),
        forall|v: usize| visited.contains(v) && productive(catalog, v) ==> row_ids(rows).contains(
            v,
        ),
        forall|v: usize| list.contains(v) ==> visited.contains(v),
    ensures
        rows.len() == fruitful_ids(list, catalog).len(),
{
    let ids = row_ids(rows);
    let fruit = fruitful_ids(list, catalog);
    lemma_rows_le_fruitful(rows, list, catalog);
    assert(ids.to_set() =~= fruit) by {
        assert forall|v: usize| fruit.contains(v) implies ids.to_set().contains(v) by {
            assert(list.to_set().contains(v));
            assert(list.contains(v));
            assert(visited.contains(v));
            assert(productive(catalog, v));
            assert(ids.contains(v));
        }
    }
    ids.unique_seq_to_set();
}

/// One draw attempt: marks fresh candidate values as visited until it finds
/// a fresh show with at least one theme, for which it returns a draw, or
/// until every candidate value has been visited, which it reports as None.
fn draw_one(list: &Vec<usize>, catalog: &HashMap<usize, Show>, visited: &mut Vec<usize>) -> (res:
    Option<DrawRow>)
    requires
        list@.len() > 0,
        old(visited)@.no_duplicates(),
        forall|k: int| 0 <= k < old(visited)@.len() ==> list@.contains(#[trigger] old(visited)@[k]),
    ensures
        final (visited)@.no_duplicates(),
        forall|k: int| 0 <= k < final (visited)@.len() ==> list@.contains(
            #[trigger] final (visited)@[k],
        ),
        forall|v: usize| old(visited)@.contains(v) ==> final (visited)@.contains(v),
        forall|v: usize|
            final (visited)@.contains(v) && productive(catalog@, v) ==> old(visited)@.contains(v)
                || (res is Some && res->Some_0.show_id == v),
        match res {
            Some(row) => {
                &&& !old(visited)@.contains(row.show_id)
                &&& final (visited)@.contains(row.show_id)
                &&& productive(catalog@, row.show_id)
                &&& row_ok(row, list@, catalog@)
            },
            None => forall|v: usize| list@.contains(v) ==> final (visited)@.contains(v),
        },
{
    proof {
        lemma_distinct_in_list_le(old(visited)@, list@);
    }
    loop
        invariant
            list@.len() > 0,
            visited@.no_duplicates(),
            forall|k: int| 0 <= k < visited@.len() ==> list@.contains(#[trigger] visited@[k]),
            forall|v: usize| old(visited)@.contains(v) ==> visited@.contains(v),
            forall|v: usize|
                visited@.contains(v) && productive(catalog@, v) ==> old(visited)@.contains(v),
            visited@.len() <= list@.len(),
        decreases list@.len() - visited@.len(),
    {
        if all_visited(list, visited) {
            return None;
        }
        let start = random_below(list.len());
        let v = pick_fresh(list, visited, start);
        let ghost pre_push = visited@;
        visited.push(v);
        proof {
            lemma_push_no_dup(pre_push, v);
            assert forall|u: usize| visited@.contains(u) implies pre_push.contains(u) || u == v by {
                lemma_push_contains(pre_push, v, u);
            }
            assert forall|u: usize| pre_push.contains(u) implies visited@.contains(u) by {
                lemma_push_contains(pre_push, v, u);
            }
            assert(visited@.contains(v)) by {
                lemma_push_contains(pre_push, v, v);
            }
            assert forall|k: int| 0 <= k < visited@.len() implies list@.contains(visited@[k]) by {
                if k < pre_push.len() {
                    assert(list@.contains(pre_push[k]));
                }
            }
            lemma_distinct_in_list_le(visited@, list@);
        }
        match catalog.get(&v) {
            None => {
                proof {
                    assert(!productive(catalog@, v));
                }
            },
            Some(show) => {
                let themes = aggregate(show);
                if themes.len() == 0 {
                    proof {
                        assert(!productive(catalog@, v));
                    }
                } else {
                    let ti = random_below(themes.len());
                    let theme = themes[ti].clone();
                    let kind = classify(&theme, show);
                    let title = show.title.clone();
                    let row = DrawRow { theme, kind, show_id: v, title };
                    proof {
                        assert(catalog@[v] == *show);
                        assert(aggregate_spec(catalog@[v]).contains(row.theme)) by {
                            assert(aggregate_spec(catalog@[v])[ti as int] == row.theme);
                        }
                        assert(row_ok(row, list@, catalog@));
                    }
                    return Some(row);
                }
            },
        }
    }
}

/// Draws up to `target` distinct shows at random from `list`, picking one
/// theme from each drawn show.
///
/// The returned draws reference pairwise distinct shows. Their number is
/// `target`, or the number of fruitful candidate values when that is
/// smaller; exactly in the latter case the sampling is reported as failed,
/// the draw set having been exhausted early.
///
/// Every attempt marks at least one fresh candidate value as visited, and
/// the visited set is bounded by the candidate list, so the run always
/// terminates; the `decreases` measures carry that argument.
pub fn sample(target: usize, list: &Vec<usize>, catalog: &HashMap<usize, Show>) -> (r: (
    Vec<DrawRow>,
    bool,
))
    requires
        list@.len() > 0,
        catalog@.len() > 0,
    ensures
        forall|i: int| 0 <= i < r.0@.len() ==> row_ok(#[trigger] r.0@[i], list@, catalog@),
        forall|i: int, j: int|
            0 <= i < j < r.0@.len() ==> r.0@[i].show_id != r.0@[j].show_id,
        r.0@.len() == if fruitful_ids(list@, catalog@).len() < target {
            fruitful_ids(list@, catalog@).len() as int
        } else {
            target as int
        },
        r.1 == (fruitful_ids(list@, catalog@).len() < target),
        ((forall|v: usize|
            #[trigger] list@.contains(v) && catalog@.contains_key(v) ==> aggregate_spec(
                catalog@[v],
            ).len() > 0) && target <= fruitful_ids(list@, catalog@).len()) ==> (!r.1
            && r.0@.len() == target),
{
    let mut rows: Vec<DrawRow> = Vec::new();
    let mut visited: Vec<usize> = Vec::new();
    let mut failed = false;
    while rows.len() < target && !failed
        invariant
            list@.len() > 0,
            visited@.no_duplicates(),
            forall|k: int| 0 <= k < visited@.len() ==> list@.contains(#[trigger] visited@[k]),
            row_ids(rows@).no_duplicates(),
            forall|i: int| 0 <= i < rows@.len() ==> row_ok(#[trigger] rows@[i], list@, catalog@),
            forall|i: int| 0 <= i < rows@.len() ==> visited@.contains(#[trigger] rows@[i].show_id),
            forall|v: usize|
                visited@.contains(v) && productive(catalog@, v) ==> row_ids(rows@).contains(v),
            rows@.len() <= target,
            failed ==> rows@.len() == fruitful_ids(list@, catalog@).len() && rows@.len() < target,
        decreases target - rows@.len() + (if failed {
            0int
        } else {
            1int
        }),
    {
        let ghost pre_visited = visited@;
        let ghost pre_rows = rows@;
        let res = draw_one(list, catalog, &mut visited);
        match res {
            Some(row) => {
                proof {
                    assert(!row_ids(pre_rows).contains(row.show_id)) by {
                        if row_ids(pre_rows).contains(row.show_id) {
                            let i = choose|i: int|
                                0 <= i < row_ids(pre_rows).len() && row_ids(pre_rows)[i]
                                    == row.show_id;
                            assert(pre_visited.contains(pre_rows[i].show_id));
                        }
                    }
                }
                rows.push(row);
                proof {
                    assert(row_ids(rows@) =~= row_ids(pre_rows).push(row.show_id));
                    lemma_push_no_dup(row_ids(pre_rows), row.show_id);
                    assert forall|v: usize|
                        visited@.contains(v) && productive(catalog@, v) implies row_ids(
                        rows@,
                    ).contains(v) by {
                        if pre_visited.contains(v) {
                            assert(row_ids(pre_rows).contains(v));
                            let i = choose|i: int|
                                0 <= i < row_ids(pre_rows).len() && row_ids(pre_rows)[i] == v;
                            assert(row_ids(rows@)[i] == v);
                        } else {
                            assert(v == row.show_id);
                            assert(row_ids(rows@)[row_ids(pre_rows).len() as int] == v);
                        }
                    }
                    assert forall|i: int| 0 <= i < rows@.len() implies visited@.contains(
                        rows@[i].show_id,
                    ) by {
                        if i < pre_rows.len() {
                            assert(pre_visited.contains(pre_rows[i].show_id));
                        }
                    }
                }
            },
            None => {
                proof {
                    lemma_rows_exhausted(rows@, visited@, list@, catalog@);
                }
                failed = true;
            },
        }
    }
    proof {
        if !failed {
            assert(rows@.len() == target);
            lemma_rows_le_fruitful(rows@, list@, catalog@);
        }
        assert forall|i: int, j: int| 0 <= i < j < rows@.len() implies rows@[i].show_id
            != rows@[j].show_id by {
            assert(row_ids(rows@)[i] == rows@[i].show_id);
            assert(row_ids(rows@)[j] == rows@[j].show_id);
        }
    }
    (rows, failed)
}

} // verus!
