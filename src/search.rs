use vstd::prelude::*;
use vstd::relations::injective_on;
use vstd::set_lib::{lemma_int_range, lemma_map_size, lemma_subset_equality, set_int_range};
use crate::field::{
    Cell, Field, CELLS, N, clash, empties, extends, first_empty, grid_contradictory, grid_full,
    cell_ok, grid_ok, grid_solved, lemma_fill_one, lemma_unit_pos_bounds, unit_clashes,
    unit_pos,
};

verus! {

/// `g` with the cell at `p` set to the `j`-th candidate digit (`j + 1`).
pub open spec fn candidate(g: Seq<Cell>, p: int, j: int) -> Seq<Cell> {
    g.update(p, Cell::Digit((j + 1) as usize))
}

/// `h` is one of the grids that a step on `g` tries: `g` with its first empty
/// cell set to a digit.
pub open spec fn is_trial(g: Seq<Cell>, h: Seq<Cell>) -> bool {
    exists|p: int, j: int| first_empty(g, p) && 0 <= j < 9 && h == candidate(g, p, j)
}

/// No solved grid keeps the digits of `g`.
pub open spec fn unsolvable(g: Seq<Cell>) -> bool {
    forall|s: Seq<Cell>| grid_solved(s) ==> !#[trigger] extends(s, g)
}

/// What a "continue" continuation must do with a trial `h`: leave a legal
/// grid, and leave `h` itself when it answers `None`.
pub open spec fn next_ok<T>(h: Seq<Cell>, after: Field, r: Option<T>) -> bool {
    &&& after.wf()
    &&& r is None ==> after@ == h
}

/// `next` may answer `r` when handed the grid `h`.
pub open spec fn answers<T, C: FnMut(&mut Field) -> Option<T>>(next: C, h: Seq<Cell>, r: Option<T>) -> bool {
    exists|m: &mut Field| (*m)@ == h && call_ensures(next, (m,), r)
}

/// The first empty cell of `g` in row-major order (meaningful when `g` has one).
pub open spec fn first_empty_at(g: Seq<Cell>) -> int {
    choose|p: int| first_empty(g, p)
}

/// A grid has at most one first empty cell.
pub proof fn lemma_first_empty_unique(g: Seq<Cell>, p: int, q: int)
    requires
        first_empty(g, p),
        first_empty(g, q),
    ensures
        p == q,
{
    if p < q {
        assert(g[p] != Cell::Empty);
    } else if q < p {
        assert(g[q] != Cell::Empty);
    }
}

/// The first empty cell of `f` in row-major order, if any.
pub fn first_empty_cell(f: &Field) -> (r: Option<usize>)
    requires
        f.wf(),
    ensures
        match r {
            Some(p) => first_empty(f@, p as int),
            None => grid_full(f@),
        },
{
    let mut p: usize = 0;
    while p < CELLS
        invariant
            f.wf(),
            p <= 81,
            forall|q: int| 0 <= q < p ==> #[trigger] f@[q] != Cell::Empty,
        decreases 81 - p,
    {
        if f.at(p) == Cell::Empty {
            return Some(p);
        }
        p = p + 1;
    }
    None
}

/// One level of the search. A contradictory grid gives `None`. A full grid
/// is handed to `solved_cb`, whose result is the answer, with the grid left as
/// `solved_cb` left it. Otherwise the digits
/// 1 to 9 are tried in turn in the first empty cell (row-major order), each
/// trial handed to `next_step_cb`; the first `Some` it answers is the answer,
/// with the grid left as the continuation left it. When every trial answers
/// `None` the answer is `None` and the grid is as it was.
pub fn try_extend_field<T, S, C>(f: &mut Field, solved_cb: S, next_step_cb: C) -> (r: Option<T>)
    where
        S: FnOnce(&mut Field) -> T,
        C: FnMut(&mut Field) -> Option<T>,
    requires
        old(f).wf(),
        forall|g: &mut Field|
            (*g).wf() && (*g)@ == old(f)@ && grid_solved((*g)@) ==> call_requires(solved_cb, (g,)),
        forall|g: &mut Field, x: T|
            (*g)@ == old(f)@ && call_ensures(solved_cb, (g,), x) ==> (*final(g)).wf(),
        forall|g: &mut Field| is_trial(old(f)@, (*g)@) ==> call_requires(next_step_cb, (g,)),
        forall|g: &mut Field, r: Option<T>|
            is_trial(old(f)@, (*g)@) && call_ensures(next_step_cb, (g,), r) ==> next_ok(
                (*g)@,
                *final(g),
                r,
            ),
    ensures
        final(f).wf(),
        r is None ==> final(f)@ == old(f)@,
        grid_contradictory(old(f)@) ==> r is None,
        !grid_contradictory(old(f)@) && grid_full(old(f)@) ==> exists|g: &mut Field, x: T|
            {
                &&& r == Some(x)
                &&& (*g)@ == old(f)@
                &&& (*final(g))@ == (*final(f))@
                &&& call_ensures(solved_cb, (g,), x)
            },
        !grid_contradictory(old(f)@) && !grid_full(old(f)@) ==> first_empty(
            old(f)@,
            first_empty_at(old(f)@),
        ),
        !grid_contradictory(old(f)@) && !grid_full(old(f)@) && r is None ==> forall|j: int|
            0 <= j < 9 ==> #[trigger] answers(
                next_step_cb,
                candidate(old(f)@, first_empty_at(old(f)@), j),
                None::<T>,
            ),
        !grid_contradictory(old(f)@) && !grid_full(old(f)@) && r is Some ==> exists|k: int|
            #![trigger candidate(old(f)@, first_empty_at(old(f)@), k)]
            {
                &&& 0 <= k < 9
                &&& exists|m: &mut Field|
                    (*m)@ == candidate(old(f)@, first_empty_at(old(f)@), k) && (*final(m))@
                        == (*final(f))@ && #[trigger] call_ensures(next_step_cb, (m,), r)
                &&& forall|j: int|
                    0 <= j < k ==> #[trigger] answers(
                        next_step_cb,
                        candidate(old(f)@, first_empty_at(old(f)@), j),
                        None::<T>,
                    )
            },
{
    let ghost g = f@;
    let mut next = next_step_cb;
    if f.contradictory() {
        return None;
    }
    let p = match first_empty_cell(f) {
        Some(p) => p,
        None => {
            let x = solved_cb(f);
            return Some(x);
        },
    };
    proof {
        lemma_first_empty_unique(g, p as int, first_empty_at(g));
    }
    let mut d: usize = 1;
    while d <= N
        invariant
            f.wf(),
            f@ == g,
            g == old(f)@,
            next == next_step_cb,
            first_empty(g, p as int),
            p as int == first_empty_at(g),
            !grid_contradictory(g),
            1 <= d <= 10,
            forall|g: &mut Field| is_trial(old(f)@, (*g)@) ==> call_requires(next, (g,)),
            forall|g: &mut Field, r: Option<T>|
                is_trial(old(f)@, (*g)@) && call_ensures(next, (g,), r) ==> next_ok(
                    (*g)@,
                    *final(g),
                    r,
                ),
            forall|j: int|
                0 <= j < d - 1 ==> #[trigger] answers(next, candidate(g, p as int, j), None::<T>),
        decreases 10 - d,
    {
        f.put(p, Cell::Digit(d));
        assert(f@ == candidate(g, p as int, d - 1));
        assert(is_trial(g, f@));
        let ghost before = f@;
        let r = next(f);
        assert(answers(next, before, r));
        assert(next_ok(before, *f, r));
        if r.is_some() {
            let ghost k = d - 1;
            assert(exists|m: &mut Field|
                (*m)@ == candidate(g, p as int, k) && (*final(m))@ == (*final(f))@ && call_ensures(
                    next,
                    (m,),
                    r,
                ));
            return r;
        }
        f.put(p, Cell::Empty);
        assert(f@ =~= g);
        d = d + 1;
    }
    None
}

/// The digit of a cell, 0 for an empty one.
pub open spec fn digit_of(c: Cell) -> int {
    match c {
        Cell::Digit(d) => d as int,
        Cell::Empty => 0,
    }
}

/// `a` comes before `b` in row-major, ascending-digit order: they agree up to
/// some cell, where `a` holds the smaller digit.
pub open spec fn lex_less(a: Seq<Cell>, b: Seq<Cell>) -> bool {
    exists|i: int|
        0 <= i < 81 && (forall|q: int| 0 <= q < i ==> a[q] == b[q]) && digit_of(a[i]) < digit_of(
            #[trigger] b[i],
        )
}

/// `s` is the first solution keeping the digits of `g` in row-major,
/// ascending-digit order.
pub open spec fn least_solution(s: Seq<Cell>, g: Seq<Cell>) -> bool {
    &&& grid_solved(s)
    &&& extends(s, g)
    &&& forall|t: Seq<Cell>| grid_solved(t) && #[trigger] extends(t, g) ==> !lex_less(t, s)
}

/// Two solved grids that agree on their first `n` cells are equal, or one
/// comes first.
proof fn lemma_order_total(a: Seq<Cell>, b: Seq<Cell>, n: int)
    requires
        grid_solved(a),
        grid_solved(b),
        0 <= n <= 81,
        forall|q: int| 0 <= q < n ==> a[q] == b[q],
    ensures
        a == b || lex_less(a, b) || lex_less(b, a),
    decreases 81 - n,
{
    if n == 81 {
        assert(a =~= b);
    } else if a[n] == b[n] {
        lemma_order_total(a, b, n + 1);
    } else {
        assert(cell_ok(a[n]) && cell_ok(b[n]));
        if digit_of(a[n]) < digit_of(b[n]) {
            assert(lex_less(a, b));
        } else {
            assert(forall|q: int| 0 <= q < n ==> b[q] == a[q]);
            assert(lex_less(b, a));
        }
    }
}

/// Solving is deterministic: a grid has at most one first solution, so every
/// solve of the same grid answers the same solution.
pub proof fn lemma_solve_deterministic(g: Seq<Cell>, a: Seq<Cell>, b: Seq<Cell>)
    requires
        least_solution(a, g),
        least_solution(b, g),
    ensures
        a == b,
{
    lemma_order_total(a, b, 0);
}

/// What a solve promises when handed `g`, leaving `h` and answering `r`: with
/// no answer the grid is untouched and nothing solves it; with an answer `s`,
/// `s` is the first solution that keeps the digits of `g`, and the grid is
/// left as `s`.
pub open spec fn solve_ok(g: Seq<Cell>, h: Seq<Cell>, r: Option<Field>) -> bool {
    match r {
        None => h == g && unsolvable(g),
        Some(s) => least_solution(s@, g) && h == s@,
    }
}

/// The first solution after the first empty cell `p` is set to digit `k + 1`,
/// when the smaller digits lead nowhere, is the first solution of `g`.
pub proof fn lemma_least_lifts(g: Seq<Cell>, p: int, k: int, s: Seq<Cell>)
    requires
        first_empty(g, p),
        0 <= k < 9,
        forall|j: int| 0 <= j < k ==> unsolvable(#[trigger] candidate(g, p, j)),
        least_solution(s, candidate(g, p, k)),
    ensures
        least_solution(s, g),
{
    lemma_candidate_extends(g, p, k, s);
    assert forall|t: Seq<Cell>| grid_solved(t) && #[trigger] extends(t, g) implies !lex_less(t, s) by {
        if lex_less(t, s) {
            assert(cell_ok(t[p]));
            let j = (t[p]->Digit_0 - 1) as int;
            let c = candidate(g, p, j);
            assert forall|q: int| 0 <= q < c.len() && c[q] is Digit implies #[trigger] t[q] == c[q] by {
                if q != p {
                    assert(c[q] == g[q]);
                }
            }
            assert(extends(t, c));
            assert(s[p] == candidate(g, p, k)[p]);
            if j < k {
                assert(unsolvable(c));
            } else if j > k {
                let i = choose|i: int|
                    0 <= i < 81 && (forall|q: int| 0 <= q < i ==> t[q] == s[q]) && digit_of(t[i])
                        < digit_of(#[trigger] s[i]);
                if i < p {
                    assert(g[i] != Cell::Empty);
                    assert(t[i] == g[i]);
                    assert(s[i] == g[i]);
                } else if i > p {
                    assert(t[p] == s[p]);
                }
            }
        }
    }
}

/// A clash among the digits of `g` is a clash in every grid that keeps them.
pub proof fn lemma_clash_kept(g: Seq<Cell>, s: Seq<Cell>)
    requires
        grid_ok(g),
        grid_contradictory(g),
        extends(s, g),
    ensures
        grid_contradictory(s),
{
    let u = choose|u: int| 0 <= u < 27 && #[trigger] unit_clashes(g, u);
    let (i, j) = choose|i: int, j: int| #[trigger] clash(g, u, i, j);
    lemma_unit_pos_bounds(u, i);
    lemma_unit_pos_bounds(u, j);
    assert(clash(s, u, i, j));
    assert(unit_clashes(s, u));
}

/// A contradictory grid has no solution.
pub proof fn lemma_contradictory_unsolvable(g: Seq<Cell>)
    requires
        grid_ok(g),
        grid_contradictory(g),
    ensures
        unsolvable(g),
{
    assert forall|s: Seq<Cell>| grid_solved(s) implies !#[trigger] extends(s, g) by {
        if extends(s, g) {
            lemma_clash_kept(g, s);
        }
    }
}

/// A trial keeps the digits of the grid it was made from.
pub proof fn lemma_candidate_extends(g: Seq<Cell>, p: int, j: int, s: Seq<Cell>)
    requires
        first_empty(g, p),
        extends(s, candidate(g, p, j)),
    ensures
        extends(s, g),
{
    assert forall|q: int| 0 <= q < g.len() && g[q] is Digit implies #[trigger] s[q] == g[q] by {
        assert(q != p);
        assert(candidate(g, p, j)[q] == g[q]);
    }
}

/// When no digit at the first empty cell leads to a solution, nothing does.
pub proof fn lemma_trials_cover(g: Seq<Cell>, p: int)
    requires
        first_empty(g, p),
        forall|j: int| 0 <= j < 9 ==> unsolvable(#[trigger] candidate(g, p, j)),
    ensures
        unsolvable(g),
{
    assert forall|s: Seq<Cell>| grid_solved(s) implies !#[trigger] extends(s, g) by {
        if extends(s, g) {
            assert(cell_ok(s[p]));
            let j = (s[p]->Digit_0 - 1) as int;
            let c = candidate(g, p, j);
            assert(unsolvable(c));
            assert forall|q: int| 0 <= q < c.len() && c[q] is Digit implies #[trigger] s[q] == c[q] by {
                if q != p {
                    assert(c[q] == g[q]);
                }
            }
            assert(extends(s, c));
        }
    }
}

/// Every trial of a step on `g` is a legal grid with one empty cell fewer.
pub proof fn lemma_trial_shrinks(g: Seq<Cell>, h: Seq<Cell>)
    requires
        grid_ok(g),
        is_trial(g, h),
    ensures
        grid_ok(h),
        empties(h, 81) < empties(g, 81),
{
    let (p, j) = choose|p: int, j: int| first_empty(g, p) && 0 <= j < 9 && h == candidate(g, p, j);
    lemma_fill_one(g, p, Cell::Digit((j + 1) as usize), 81);
    assert forall|q: int| 0 <= q < 81 implies cell_ok(#[trigger] h[q]) by {
        if q != p {
            assert(h[q] == g[q]);
        }
    }
}

/// Depth-first search over the whole solution space, built from
/// [`try_extend_field`] by recursing on every trial. Answers a solution that
/// keeps the digits of `f`, and leaves `f` equal to it; or answers `None`,
/// leaving `f` untouched, exactly when no such solution exists.
pub fn find_solution(f: &mut Field) -> (r: Option<Field>)
    requires
        old(f).wf(),
    ensures
        final(f).wf(),
        solve_ok(old(f)@, final(f)@, r),
    decreases empties(old(f)@, 81),
{
    let ghost g = f@;
    let ghost m = empties(g, 81);
    proof {
        assert forall|h: Seq<Cell>| is_trial(g, h) implies grid_ok(h) && empties(h, 81) < m by {
            lemma_trial_shrinks(g, h);
        }
    }
    let snapshot = |s: &mut Field| -> (x: Field)
        ensures
            x@ == old(s)@,
            final(s)@ == old(s)@,
        { s.snapshot() };
    let recurse = |h: &mut Field| -> (r: Option<Field>)
        requires
            (*h).wf(),
            empties((*h)@, 81) < m,
        ensures
            final(h).wf(),
            solve_ok(old(h)@, final(h)@, r),
        { find_solution(h) };
    let r = try_extend_field(f, snapshot, recurse);
    proof {
        if grid_contradictory(g) {
            lemma_contradictory_unsolvable(g);
        } else if grid_full(g) {
            assert(f@ =~= g);
            assert forall|t: Seq<Cell>| grid_solved(t) && #[trigger] extends(t, g) implies !lex_less(t, g) by {
                assert(t =~= g);
            }
        } else {
            let p = first_empty_at(g);
            if r is None {
                assert forall|j: int| 0 <= j < 9 implies unsolvable(#[trigger] candidate(g, p, j)) by {
                    assert(answers(recurse, candidate(g, p, j), None::<Field>));
                }
                lemma_trials_cover(g, p);
            } else {
                let k = f@[p]->Digit_0 - 1;
                assert forall|j: int| 0 <= j < k implies unsolvable(#[trigger] candidate(g, p, j)) by {
                    assert(answers(recurse, candidate(g, p, j), None::<Field>));
                }
                lemma_least_lifts(g, p, k, r->Some_0@);
            }
        }
    }
    r
}

/// Each unit of a solved grid holds every digit 1 to 9.
pub proof fn lemma_unit_has_digit(c: Seq<Cell>, u: int, d: int)
    requires
        grid_solved(c),
        0 <= u < 27,
        1 <= d <= 9,
    ensures
        exists|i: int| 0 <= i < 9 && c[unit_pos(u, i)] == Cell::Digit(d as usize),
{
    let x = set_int_range(0, 9);
    let f = |i: int| digit_of(c[unit_pos(u, i)]);
    let y = x.map(f);
    lemma_int_range(0, 9);
    lemma_int_range(1, 10);
    assert forall|i: int, j: int| x.contains(i) && x.contains(j) && #[trigger] f(i) == #[trigger] f(j) implies i == j by {
        lemma_unit_pos_bounds(u, i);
        lemma_unit_pos_bounds(u, j);
        assert(c[unit_pos(u, i)] != Cell::Empty);
        assert(c[unit_pos(u, j)] != Cell::Empty);
        if i < j {
            assert(clash(c, u, i, j));
            assert(unit_clashes(c, u));
        } else if j < i {
            assert(clash(c, u, j, i));
            assert(unit_clashes(c, u));
        }
    }
    assert(injective_on(f, x));
    lemma_map_size(x, y, f);
    assert forall|v: int| y.contains(v) implies set_int_range(1, 10).contains(v) by {
        let i = choose|i: int| x.contains(i) && f(i) == v;
        lemma_unit_pos_bounds(u, i);
        assert(cell_ok(c[unit_pos(u, i)]));
        assert(c[unit_pos(u, i)] != Cell::Empty);
    }
    lemma_subset_equality(y, set_int_range(1, 10));
    assert(y.contains(d));
    let i = choose|i: int| x.contains(i) && f(i) == d;
    lemma_unit_pos_bounds(u, i);
    assert(cell_ok(c[unit_pos(u, i)]));
    assert(c[unit_pos(u, i)] != Cell::Empty);
    assert(c[unit_pos(u, i)] == Cell::Digit(d as usize));
}

/// A solved grid with one cell cleared is solvable, and the solved grid is
/// its only solution: the cleared digit is the one its row is missing.
pub proof fn lemma_one_cell_cleared(c: Seq<Cell>, p: int)
    requires
        grid_solved(c),
        0 <= p < 81,
    ensures
        !unsolvable(c.update(p, Cell::Empty)),
        forall|s: Seq<Cell>|
            grid_solved(s) && #[trigger] extends(s, c.update(p, Cell::Empty)) ==> s == c,
{
    let h = c.update(p, Cell::Empty);
    assert(extends(c, h));
    assert forall|s: Seq<Cell>| grid_solved(s) && #[trigger] extends(s, h) implies s == c by {
        let u = p / 9;
        let i0 = p % 9;
        assert(unit_pos(u, i0) == p);
        assert(s[p] != Cell::Empty);
        assert(cell_ok(s[p]));
        let d = s[p]->Digit_0 as int;
        lemma_unit_has_digit(c, u, d);
        let i = choose|i: int| 0 <= i < 9 && c[unit_pos(u, i)] == Cell::Digit(d as usize);
        lemma_unit_pos_bounds(u, i);
        if i != i0 {
            assert(unit_pos(u, i) != p);
            assert(h[unit_pos(u, i)] == c[unit_pos(u, i)]);
            assert(s[unit_pos(u, i)] == s[p]);
            if i < i0 {
                assert(clash(s, u, i, i0));
            } else {
                assert(clash(s, u, i0, i));
            }
            assert(unit_clashes(s, u));
        }
        assert forall|q: int| 0 <= q < 81 implies s[q] == c[q] by {
            if q != p {
                assert(h[q] == c[q]);
                assert(c[q] != Cell::Empty);
            }
        }
        assert(s =~= c);
    }
}

} // verus!
