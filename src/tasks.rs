use vstd::prelude::*;
use crate::field::{
    Cell, Field, N, extends, first_empty, grid_contradictory, grid_full, grid_solved,
};
use crate::search::{
    candidate, find_solution, first_empty_at, first_empty_cell, least_solution,
    lemma_candidate_extends, lemma_contradictory_unsolvable, lemma_first_empty_unique, unsolvable,
};

verus! {

/// Depth at which the search is split into independent units of work.
pub const SPAWN_DEPTH: u32 = 2;

/// Number of workers that run the units of work.
pub const POOL_SIZE: usize = 8;

/// One independent piece of a split search.
#[derive(Clone, Debug)]
pub enum Work {
    /// A grid still to be searched on its own.
    Solve(Field),
    /// A grid found solved while splitting.
    Found(Field),
}

impl Work {
    /// The grid this piece of work is about.
    pub open spec fn grid(self) -> Field {
        match self {
            Work::Solve(h) => h,
            Work::Found(h) => h,
        }
    }
}

/// A piece of work split off a search on `g`: its grid keeps the digits of
/// `g`, and a grid found solved is a solution.
pub open spec fn work_ok(g: Seq<Cell>, w: Work) -> bool {
    &&& w.grid().wf()
    &&& extends(w.grid()@, g)
    &&& w is Found ==> grid_solved(w.grid()@)
}

/// What a piece of work is, as a value: whether it was found solved, and its grid.
pub open spec fn models(ws: Seq<Work>) -> Seq<(bool, Seq<Cell>)> {
    ws.map_values(|w: Work| (w is Found, w.grid()@))
}

/// The work that splitting the search on `g` at depth `depth` yields, in order:
/// at depth 0 one unit for `g` itself; nothing for a contradictory grid; a
/// found grid for a full one; otherwise the work of each trial of the first
/// empty cell, digit 1 first, each split one level less deep.
pub open spec fn plan(g: Seq<Cell>, depth: nat) -> Seq<(bool, Seq<Cell>)>
    decreases depth, 10nat,
{
    if depth == 0 {
        seq![(false, g)]
    } else if grid_contradictory(g) {
        Seq::empty()
    } else if grid_full(g) {
        seq![(true, g)]
    } else {
        plan_digits(g, first_empty_at(g), depth, 9)
    }
}

/// The work of the trials of digits `1..=n` at cell `p` of `g`, each split at
/// depth `depth - 1`.
pub open spec fn plan_digits(g: Seq<Cell>, p: int, depth: nat, n: nat) -> Seq<(bool, Seq<Cell>)>
    decreases depth, n,
{
    if depth == 0 || n == 0 {
        Seq::empty()
    } else {
        plan_digits(g, p, depth, (n - 1) as nat) + plan(
            candidate(g, p, n - 1),
            (depth - 1) as nat,
        )
    }
}

/// Every solution of `g` keeps the digits of some grid in `ws[lo..]`.
pub open spec fn covers(g: Seq<Cell>, ws: Seq<Work>, lo: int) -> bool {
    forall|s: Seq<Cell>|
        grid_solved(s) && #[trigger] extends(s, g) ==> exists|i: int|
            lo <= i < ws.len() && extends(s, #[trigger] ws[i].grid()@)
}

/// Splits the search on `f` into independent units: enumerates, in the order
/// of [`try_extend_field`](crate::search::try_extend_field), every
/// non-contradictory assignment of the first `depth` empty cells, appending a
/// `Solve` unit for each, or a `Found` entry for a grid that became full on
/// the way. `f` is left as it was. Between them the appended entries cover
/// every solution of `f`.
///
/// The walk takes the same steps as `try_extend_field` but does them itself:
/// its continuation would have to append to `tasks` on every call, and a
/// closure in verified code cannot keep a mutable borrow across calls.
pub fn spawn_tasks(f: &mut Field, depth: u32, tasks: &mut Vec<Work>)
    requires
        old(f).wf(),
    ensures
        final(f)@ == old(f)@,
        final(f).wf(),
        final(tasks)@.len() >= old(tasks)@.len(),
        final(tasks)@.subrange(0, old(tasks)@.len() as int) == old(tasks)@,
        forall|i: int|
            old(tasks)@.len() <= i < final(tasks)@.len() ==> work_ok(
                old(f)@,
                #[trigger] final(tasks)@[i],
            ),
        models(final(tasks)@) == models(old(tasks)@) + plan(old(f)@, depth as nat),
        covers(old(f)@, final(tasks)@, old(tasks)@.len() as int),
    decreases depth,
{
    let ghost g = f@;
    let ghost t0 = tasks@;
    if depth == 0 {
        tasks.push(Work::Solve(f.snapshot()));
        proof {
            assert(models(tasks@) =~= models(t0) + plan(g, 0));
            assert(tasks@[t0.len() as int].grid()@ == g);
            assert(tasks@.subrange(0, t0.len() as int) =~= t0);
        }
        return;
    }
    if f.contradictory() {
        proof {
            lemma_contradictory_unsolvable(g);
            assert(models(tasks@) =~= models(t0) + plan(g, depth as nat));
            assert(tasks@.subrange(0, t0.len() as int) =~= t0);
        }
        return;
    }
    let p = match first_empty_cell(f) {
        Some(p) => p,
        None => {
            tasks.push(Work::Found(f.snapshot()));
            proof {
                assert(models(tasks@) =~= models(t0) + plan(g, depth as nat));
                assert(tasks@[t0.len() as int].grid()@ == g);
                assert(tasks@.subrange(0, t0.len() as int) =~= t0);
            }
            return;
        },
    };
    proof {
        lemma_first_empty_unique(g, p as int, first_empty_at(g));
    }
    let mut d: usize = 1;
    while d <= N
        invariant
            f.wf(),
            f@ == g,
            !grid_contradictory(g),
            p as int == first_empty_at(g),
            models(tasks@) == models(t0) + plan_digits(g, p as int, depth as nat, (d - 1) as nat),
            g == old(f)@,
            t0 == old(tasks)@,
            first_empty(g, p as int),
            depth > 0,
            1 <= d <= 10,
            tasks@.len() >= t0.len(),
            tasks@.subrange(0, t0.len() as int) == t0,
            forall|i: int| t0.len() <= i < tasks@.len() ==> work_ok(g, #[trigger] tasks@[i]),
            forall|s: Seq<Cell>|
                grid_solved(s) && #[trigger] extends(s, g) && s[p as int]->Digit_0 < d ==> exists|i: int|
                    t0.len() <= i < tasks@.len() && extends(s, #[trigger] tasks@[i].grid()@),
        decreases 10 - d,
    {
        let ghost t1 = tasks@;
        f.put(p, Cell::Digit(d));
        let ghost c = f@;
        assert(c == candidate(g, p as int, d - 1));
        spawn_tasks(f, depth - 1, tasks);
        f.put(p, Cell::Empty);
        proof {
            assert(models(tasks@) =~= models(t0) + plan_digits(g, p as int, depth as nat, d as nat));
            assert(f@ =~= g);
            assert(tasks@.subrange(0, t1.len() as int) == t1);
            assert forall|i: int| t0.len() <= i < tasks@.len() implies work_ok(g, #[trigger] tasks@[i]) by {
                if i < t1.len() {
                    assert(tasks@[i] == t1[i]);
                } else {
                    lemma_candidate_extends(g, p as int, d - 1, tasks@[i].grid()@);
                }
            }
            assert(tasks@.subrange(0, t0.len() as int) =~= t0) by {
                assert forall|i: int| 0 <= i < t0.len() implies tasks@[i] == t0[i] by {
                    assert(tasks@[i] == t1[i]);
                }
            }
            assert forall|s: Seq<Cell>|
                grid_solved(s) && #[trigger] extends(s, g) && s[p as int]->Digit_0 < d + 1 implies exists|i: int|
                    t0.len() <= i < tasks@.len() && extends(s, #[trigger] tasks@[i].grid()@) by {
                if s[p as int]->Digit_0 < d {
                    let i = choose|i: int|
                        t0.len() <= i < t1.len() && extends(s, #[trigger] t1[i].grid()@);
                    assert(tasks@[i] == t1[i]);
                } else {
                    assert forall|q: int| 0 <= q < c.len() && c[q] is Digit implies #[trigger] s[q] == c[q] by {
                        if q != p {
                            assert(c[q] == g[q]);
                        }
                    }
                    assert(extends(s, c));
                }
            }
        }
        d = d + 1;
    }
    proof {
        assert(!grid_full(g));
        assert(models(tasks@) == models(t0) + plan(g, depth as nat));
        assert forall|s: Seq<Cell>| grid_solved(s) && #[trigger] extends(s, g) implies exists|i: int|
            t0.len() <= i < tasks@.len() && extends(s, #[trigger] tasks@[i].grid()@) by {
            assert(s[p as int] is Digit);
        }
    }
}

/// Runs one unit of work to the end: searches a `Solve` grid with
/// [`find_solution`], and answers a `Found` grid as it is.
pub fn solve_unit(w: Work) -> (r: Option<Field>)
    requires
        w.grid().wf(),
        w is Found ==> grid_solved(w.grid()@),
    ensures
        r is None ==> w is Solve && unsolvable(w.grid()@),
        r matches Some(s) ==> grid_solved(s@) && extends(s@, w.grid()@),
        w is Found && r is Some ==> r->Some_0@ == w.grid()@,
        w is Solve && r is Some ==> least_solution(r->Some_0@, w.grid()@),
{
    match w {
        Work::Solve(h) => {
            let mut h = h;
            find_solution(&mut h)
        },
        Work::Found(h) => Some(h),
    }
}

/// Whatever unit of a split search answers, and in whatever order the units
/// finish, an answer is a solution of the grid the search was split from.
pub proof fn lemma_unit_answer_solves(g: Seq<Cell>, w: Work, s: Seq<Cell>)
    requires
        work_ok(g, w),
        grid_solved(s),
        extends(s, w.grid()@),
    ensures
        grid_solved(s),
        extends(s, g),
{
    assert forall|q: int| 0 <= q < g.len() && g[q] is Digit implies #[trigger] s[q] == g[q] by {
        assert(w.grid()@[q] == g[q]);
    }
}

/// When every unit of a split search finds nothing, the grid the search was
/// split from has no solution: the split loses no solution.
pub proof fn lemma_no_unit_answer(g: Seq<Cell>, ws: Seq<Work>, lo: int)
    requires
        covers(g, ws, lo),
        forall|i: int| lo <= i < ws.len() ==> unsolvable(#[trigger] ws[i].grid()@),
    ensures
        unsolvable(g),
{
    assert forall|s: Seq<Cell>| grid_solved(s) implies !#[trigger] extends(s, g) by {
        if extends(s, g) {
            let i = choose|i: int| lo <= i < ws.len() && extends(s, #[trigger] ws[i].grid()@);
            assert(unsolvable(ws[i].grid()@));
        }
    }
}

} // verus!
