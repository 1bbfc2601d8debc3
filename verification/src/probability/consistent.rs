//! The mine layouts a player cannot rule out.
//!
//! A layout puts the mines that are still out there on unopened cells so that every
//! visible number is right. The probability that a cell is a mine is the share of
//! these layouts in which it is one. This module says so in terms of the board, and
//! proves that the problem the estimators work on has the same layouts.

use vstd::prelude::*;
use vstd::set_lib::*;
use crate::board;
use crate::board::{CellContent, CellState, Minesweeper};
use crate::counting;
use crate::layouts;
use crate::probability::combine;
use crate::probability::estimate;
use crate::probability::propagate;
use crate::probability::reduce;
use crate::probability::setup;
use crate::probability::setup::SimSetup;

verus! {

/// How many of the listed cells are mines of a layout.
pub open spec fn spots_among(cells: Seq<(usize, usize)>, layout: Set<(int, int)>) -> nat
    decreases cells.len(),
{
    if cells.len() == 0 {
        0
    } else {
        spots_among(cells.drop_last(), layout) + if layout.contains(board::spot(cells.last())) {
            1nat
        } else {
            0nat
        }
    }
}

/// Whether a layout makes the number at a position right.
pub open spec fn number_right(game: Minesweeper, layout: Set<(int, int)>, x: int, y: int) -> bool {
    setup::number_of(game.at(x, y).content) == spots_among(game.around(x, y), layout)
        + setup::shown_in(game, game.around(x, y))
}

/// The layouts of the mines still out there that make every visible number right.
pub open spec fn consistent(game: Minesweeper) -> Set<Set<(int, int)>> {
    Set::new(
        |m: Set<(int, int)>|
            {
                &&& m.finite()
                &&& m.len() + board::scan(
                    setup::shown_mine_test(game),
                    game.width as int,
                    game.height as int,
                ).len() == game.mines_count
                &&& forall|p: (int, int)| #[trigger]
                    m.contains(p) ==> game.has(p.0, p.1) && game.at(p.0, p.1).state
                        != CellState::Visible
                &&& forall|x: int, y: int|
                    game.has(x, y) && (#[trigger] game.at(x, y)).state == CellState::Visible
                        && !game.mine_at(x, y) ==> number_right(game, m, x, y)
            },
    )
}

/// Whether any layout is consistent.
pub open spec fn possible(game: Minesweeper) -> bool {
    exists|m: Set<(int, int)>| #[trigger] consistent(game).contains(m)
}

/// The consistent layouts that put a mine on a cell.
pub open spec fn consistent_with_mine(game: Minesweeper, p: (int, int)) -> Set<Set<(int, int)>> {
    consistent(game).filter(|m: Set<(int, int)>| m.contains(p))
}

// ---------------------------------------------------------------------------
// Indices and squares
// ---------------------------------------------------------------------------

/// The squares at some indices.
pub open spec fn squares(list: Seq<(usize, usize)>, at: Set<int>) -> Set<(int, int)> {
    Set::new(
        |p: (int, int)|
            exists|i: int| 0 <= i < list.len() && #[trigger] board::spot(list[i]) == p && at.contains(i),
    )
}

/// The indices of some squares.
pub open spec fn indices(list: Seq<(usize, usize)>, m: Set<(int, int)>) -> Set<int> {
    Set::new(|i: int| 0 <= i < list.len() && m.contains(board::spot(list[i])))
}

proof fn lemma_squares(list: Seq<(usize, usize)>, at: Set<int>)
    requires
        board::row_major(list),
        at.subset_of(layouts::first_cells(list.len())),
    ensures
        indices(list, squares(list, at)) =~= at,
        squares(list, at).finite(),
        squares(list, at).len() == at.len(),
        forall|i: int|
            0 <= i < list.len() ==> (squares(list, at).contains(
                #[trigger] board::spot(list[i]),
            ) <==> at.contains(i)),
{
    let m = squares(list, at);
    assert forall|i: int, j: int|
        0 <= i < list.len() && 0 <= j < list.len() && board::spot(list[i]) == board::spot(
            list[j],
        ) implies i == j by {
        if i < j {
            assert(board::earlier(list[i], list[j]));
        } else if j < i {
            assert(board::earlier(list[j], list[i]));
        }
    }
    assert forall|i: int| 0 <= i < list.len() implies (m.contains(#[trigger] board::spot(list[i]))
        <==> at.contains(i)) by {
        if m.contains(board::spot(list[i])) {
            let j = choose|j: int|
                0 <= j < list.len() && #[trigger] board::spot(list[j]) == board::spot(list[i])
                    && at.contains(j);
            assert(i == j);
        }
    }
    assert forall|i: int| at.contains(i) implies indices(list, m).contains(i) by {
        assert(layouts::first_cells(list.len()).contains(i));
        assert(m.contains(board::spot(list[i])));
    }
    let f = |i: int| board::spot(list[i]);
    layouts::lemma_first_cells(list.len());
    lemma_set_subset_finite(layouts::first_cells(list.len()), at);
    assert(at.map(f) =~= m) by {
        assert forall|p: (int, int)| m.contains(p) implies at.map(f).contains(p) by {
            let i = choose|i: int|
                0 <= i < list.len() && #[trigger] board::spot(list[i]) == p && at.contains(i);
            assert(f(i) == p);
        }
        assert forall|p: (int, int)| at.map(f).contains(p) implies m.contains(p) by {
            let i = choose|i: int| at.contains(i) && f(i) == p;
            assert(layouts::first_cells(list.len()).contains(i));
            assert(board::spot(list[i]) == p);
        }
    }
    assert(vstd::relations::injective_on(f, at)) by {
        assert forall|a: int, b: int|
            at.contains(a) && at.contains(b) && #[trigger] f(a) == #[trigger] f(b) implies a == b by {
            assert(layouts::first_cells(list.len()).contains(a));
            assert(layouts::first_cells(list.len()).contains(b));
        }
    }
    lemma_map_size(at, m, f);
}

/// A layout of unopened squares is recovered from its indices.
proof fn lemma_indices(game: Minesweeper, m: Set<(int, int)>)
    requires
        forall|p: (int, int)| #[trigger]
            m.contains(p) ==> game.has(p.0, p.1) && game.at(p.0, p.1).state != CellState::Visible,
    ensures
        squares(setup::unopened(game), indices(setup::unopened(game), m)) =~= m,
        indices(setup::unopened(game), m).subset_of(
            layouts::first_cells(setup::unopened(game).len()),
        ),
{
    let list = setup::unopened(game);
    assert forall|p: (int, int)| m.contains(p) implies squares(list, indices(list, m)).contains(
        p,
    ) by {
        let u = (p.0 as usize, p.1 as usize);
        assert(board::spot(u) == p);
        setup::lemma_index(game, u);
        let i = setup::index_in(list, u);
        assert(board::spot(list[i]) == p);
        assert(indices(list, m).contains(i));
    }
}

/// Counting mines among squares is counting among the indices they cover.
proof fn lemma_covers_count(
    game: Minesweeper,
    cells: Seq<(usize, usize)>,
    m: Set<(int, int)>,
    at: Set<int>,
)
    requires
        forall|i: int|
            0 <= i < cells.len() ==> (#[trigger] cells[i]).0 < game.width && cells[i].1
                < game.height,
        setup::unopened(game).len() <= usize::MAX,
        forall|i: int|
            0 <= i < setup::unopened(game).len() ==> (m.contains(
                #[trigger] board::spot(setup::unopened(game)[i]),
            ) <==> at.contains(i)),
        forall|p: (int, int)| #[trigger]
            m.contains(p) ==> game.has(p.0, p.1) && game.at(p.0, p.1).state != CellState::Visible,
    ensures
        spots_among(cells, m) == layouts::mines_among(setup::covers(game, cells), at),
    decreases cells.len(),
{
    if cells.len() > 0 {
        let rest = cells.drop_last();
        assert forall|i: int| 0 <= i < rest.len() implies (#[trigger] rest[i]).0 < game.width
            && rest[i].1 < game.height by {
            assert(rest[i] == cells[i]);
        }
        lemma_covers_count(game, rest, m, at);
        let p = cells.last();
        assert(p == cells[cells.len() - 1]);
        let front = setup::covers(game, rest);
        if setup::unopened_test(game)(p.0 as int, p.1 as int) {
            setup::lemma_index(game, p);
            let i = setup::index_in(setup::unopened(game), p);
            assert(board::spot(setup::unopened(game)[i]) == board::spot(p));
            let all = setup::covers(game, cells);
            assert(all.drop_last() =~= front);
            assert(all.last() == i);
        } else {
            assert(!m.contains(board::spot(p)));
        }
    }
}

// ---------------------------------------------------------------------------
// The board and its problem
// ---------------------------------------------------------------------------

/// A consistent layout solves the board's problem.
proof fn lemma_consistent_solves(game: Minesweeper, m: Set<(int, int)>)
    requires
        game.wf(),
        setup::unopened(game).len() <= usize::MAX,
        consistent(game).contains(m),
    ensures
        propagate::problem(
            setup::unopened(game).len(),
            setup::board_demands(game),
            setup::mines_left(game),
        ).contains(indices(setup::unopened(game), m)),
        squares(setup::unopened(game), indices(setup::unopened(game), m)) == m,
{
    let list = setup::unopened(game);
    let at = indices(list, m);
    let ds = setup::board_demands(game);
    board::lemma_scan(setup::unopened_test(game), game.width, game.height);
    board::lemma_scan(setup::speaks_test(game), game.width, game.height);
    lemma_indices(game, m);
    lemma_squares(list, at);
    assert forall|i: int| 0 <= i < ds.len() implies layouts::met(#[trigger] ds[i], at) by {
        let p = setup::speakers(game)[i];
        let x = p.0 as int;
        let y = p.1 as int;
        assert(setup::speaks_test(game)(x, y));
        board::lemma_neighbours(x, y, game.width, game.height);
        lemma_covers_count(game, game.around(x, y), m, at);
        assert(game.at(x, y).state == CellState::Visible);
        assert(number_right(game, m, x, y));
    }
    assert(layouts::all_met(ds, at));
}

/// Where any layout is consistent, what solves the board's problem is consistent.
proof fn lemma_solution_consistent(game: Minesweeper, witness: Set<(int, int)>, at: Set<int>)
    requires
        game.wf(),
        setup::unopened(game).len() <= usize::MAX,
        consistent(game).contains(witness),
        propagate::problem(
            setup::unopened(game).len(),
            setup::board_demands(game),
            setup::mines_left(game),
        ).contains(at),
    ensures
        consistent(game).contains(squares(setup::unopened(game), at)),
        indices(setup::unopened(game), squares(setup::unopened(game), at)) == at,
{
    let list = setup::unopened(game);
    let m = squares(list, at);
    let ds = setup::board_demands(game);
    let was = indices(list, witness);
    board::lemma_scan(setup::unopened_test(game), game.width, game.height);
    board::lemma_scan(setup::speaks_test(game), game.width, game.height);
    lemma_squares(list, at);
    lemma_indices(game, witness);
    lemma_squares(list, was);
    assert forall|p: (int, int)| #[trigger] m.contains(p) implies game.has(p.0, p.1) && game.at(
        p.0,
        p.1,
    ).state != CellState::Visible by {
        let i = choose|i: int|
            0 <= i < list.len() && #[trigger] board::spot(list[i]) == p && at.contains(i);
        setup::lemma_index_back(game, i);
    }
    assert forall|x: int, y: int|
        game.has(x, y) && (#[trigger] game.at(x, y)).state == CellState::Visible && !game.mine_at(
            x,
            y,
        ) implies number_right(game, m, x, y) by {
        let cells = game.around(x, y);
        let said = setup::demand_at(game, x, y);
        board::lemma_neighbours(x, y, game.width, game.height);
        lemma_covers_count(game, cells, m, at);
        lemma_covers_count(game, cells, witness, was);
        assert(number_right(game, witness, x, y));
        layouts::lemma_mines_among_bound(said.cells, was);
        layouts::lemma_mines_among_bound(said.cells, at);
        if setup::speaks_test(game)(x, y) {
            let u = (x as usize, y as usize);
            assert(setup::speakers(game).contains(u));
            let i = choose|i: int| 0 <= i < setup::speakers(game).len() && setup::speakers(game)[i] == u;
            assert(layouts::met(ds[i], at));
        }
    }
}

/// Two families that squares and indices carry into each other are equally large.
proof fn lemma_as_many(
    x: Set<Set<int>>,
    y: Set<Set<(int, int)>>,
    list: Seq<(usize, usize)>,
)
    requires
        x.finite(),
        forall|at: Set<int>| #[trigger]
            x.contains(at) ==> y.contains(squares(list, at)) && indices(list, squares(list, at))
                == at,
        forall|m: Set<(int, int)>| #[trigger]
            y.contains(m) ==> x.contains(indices(list, m)) && squares(list, indices(list, m)) == m,
    ensures
        x.len() == y.len(),
        y.finite(),
{
    let f = |at: Set<int>| squares(list, at);
    assert(x.map(f) =~= y) by {
        assert forall|m: Set<(int, int)>| y.contains(m) implies x.map(f).contains(m) by {
            let at = indices(list, m);
            assert(x.contains(at) && f(at) == m);
        }
    }
    assert(vstd::relations::injective_on(f, x)) by {
        assert forall|a: Set<int>, b: Set<int>|
            x.contains(a) && x.contains(b) && #[trigger] f(a) == #[trigger] f(b) implies a == b by {
            assert(indices(list, f(a)) == a);
            assert(indices(list, f(b)) == b);
        }
    }
    lemma_map_size(x, y, f);
}

/// Where any layout is consistent, the board's problem has exactly the consistent
/// layouts: as many, and with a mine on each unopened cell as often.
proof fn lemma_board_problem(game: Minesweeper)
    requires
        game.wf(),
        setup::unopened(game).len() <= usize::MAX,
        possible(game),
    ensures
        ({
            let list = setup::unopened(game);
            let all = propagate::problem(
                list.len(),
                setup::board_demands(game),
                setup::mines_left(game),
            );
            &&& all.len() == consistent(game).len()
            &&& consistent(game).finite()
            &&& consistent(game).len() > 0
            &&& exists|at: Set<int>| #[trigger] all.contains(at)
            &&& forall|i: int|
                0 <= i < list.len() ==> consistent_with_mine(
                    game,
                    #[trigger] board::spot(list[i]),
                ).len() == layouts::holding(all, i).len()
        }),
{
    let list = setup::unopened(game);
    let ds = setup::board_demands(game);
    let all = propagate::problem(list.len(), ds, setup::mines_left(game));
    let right = consistent(game);
    layouts::lemma_first_cells(list.len());
    layouts::lemma_layouts_finite(layouts::first_cells(list.len()), ds);
    lemma_set_subset_finite(layouts::layouts_over(layouts::first_cells(list.len()), ds), all);
    let witness = choose|m: Set<(int, int)>| #[trigger] right.contains(m);
    lemma_consistent_solves(game, witness);
    assert(all.contains(indices(list, witness)));
    assert forall|at: Set<int>| #[trigger] all.contains(at) implies right.contains(
        squares(list, at),
    ) && indices(list, squares(list, at)) == at by {
        lemma_solution_consistent(game, witness, at);
    }
    assert forall|m: Set<(int, int)>| #[trigger] right.contains(m) implies all.contains(
        indices(list, m),
    ) && squares(list, indices(list, m)) == m by {
        lemma_consistent_solves(game, m);
    }
    lemma_as_many(all, right, list);
    assert(right.len() > 0) by {
        if right.len() == 0 {
            assert(right =~= Set::<Set<(int, int)>>::empty());
        }
    }
    board::lemma_scan(setup::unopened_test(game), game.width, game.height);
    assert forall|i: int| 0 <= i < list.len() implies consistent_with_mine(
        game,
        #[trigger] board::spot(list[i]),
    ).len() == layouts::holding(all, i).len() by {
        let p = board::spot(list[i]);
        let x = layouts::holding(all, i);
        let y = consistent_with_mine(game, p);
        lemma_set_subset_finite(all, x);
        assert forall|at: Set<int>| #[trigger] x.contains(at) implies y.contains(
            squares(list, at),
        ) && indices(list, squares(list, at)) == at by {
            assert(all.contains(at));
            lemma_squares(list, at);
            assert(squares(list, at).contains(board::spot(list[i])));
        }
        assert forall|m: Set<(int, int)>| #[trigger] y.contains(m) implies x.contains(
            indices(list, m),
        ) && squares(list, indices(list, m)) == m by {
            assert(right.contains(m));
            assert(indices(list, m).contains(i));
        }
        lemma_as_many(x, y, list);
    }
}

/// What a set-up board says is what the player cannot rule out.
///
/// Where any layout is consistent: the problem has as many layouts, each cell left
/// open is a mine in as many of them, a certain mine is one in all of them, and a
/// certainly safe cell in none.
pub proof fn law_setup_keeps_the_consistent_layouts(game: Minesweeper, set_up: SimSetup)
    requires
        game.wf(),
        setup::unopened(game).len() <= usize::MAX,
        possible(game),
        set_up.describes(game),
    ensures
        consistent(game).finite(),
        consistent(game).len() > 0,
        combine::setup_layouts(set_up).len() == consistent(game).len(),
        forall|i: int|
            0 <= i < set_up.hidden_cells@.len() ==> combine::held(set_up, i)
                == consistent_with_mine(
                game,
                board::spot(#[trigger] set_up.hidden_cells@[i]),
            ).len(),
        forall|i: int|
            0 <= i < set_up.certain_mines@.len() ==> consistent_with_mine(
                game,
                board::spot(#[trigger] set_up.certain_mines@[i]),
            ).len() == consistent(game).len(),
        forall|i: int|
            0 <= i < set_up.certain_safe@.len() ==> consistent_with_mine(
                game,
                board::spot(#[trigger] set_up.certain_safe@[i]),
            ).len() == 0,
{
    let list = setup::unopened(game);
    let n = list.len();
    let un = n as usize;
    let ds = setup::board_demands(game);
    let total = setup::mines_left(game);
    let known = setup::board_known(game);
    let all = propagate::problem(n, ds, total);
    lemma_board_problem(game);
    setup::lemma_board_demands(game);
    propagate::law_propagation_reaches_a_fixpoint(n, ds, total);
    reduce::law_reduction_keeps_the_layouts(un, ds, total);
    reduce::lemma_kept(known, un);
    let kept = reduce::kept(known, n);
    assert forall|i: int| 0 <= i < set_up.hidden_cells@.len() implies combine::held(set_up, i)
        == consistent_with_mine(game, board::spot(#[trigger] set_up.hidden_cells@[i])).len() by {
        assert(set_up.hidden_cells@[i] == list[kept[i] as int]);
        assert(consistent_with_mine(game, board::spot(list[kept[i] as int])).len()
            == layouts::holding(all, kept[i] as int).len());
    }
    propagate::lemma_listed(known.mines, un);
    propagate::lemma_listed(known.safe, un);
    assert forall|i: int| 0 <= i < set_up.certain_mines@.len() implies consistent_with_mine(
        game,
        board::spot(#[trigger] set_up.certain_mines@[i]),
    ).len() == consistent(game).len() by {
        let named = propagate::listed(known.mines, n as int);
        let c = named[i] as int;
        assert(layouts::cell_set(named).contains(c));
        assert(known.mines.contains(c));
        assert(set_up.certain_mines@[i] == list[c]);
        assert(consistent_with_mine(game, board::spot(list[c])).len() == layouts::holding(
            all,
            c,
        ).len());
        assert(layouts::holding(all, c) =~= all);
    }
    assert forall|i: int| 0 <= i < set_up.certain_safe@.len() implies consistent_with_mine(
        game,
        board::spot(#[trigger] set_up.certain_safe@[i]),
    ).len() == 0 by {
        let named = propagate::listed(known.safe, n as int);
        let c = named[i] as int;
        assert(layouts::cell_set(named).contains(c));
        assert(known.safe.contains(c));
        assert(set_up.certain_safe@[i] == list[c]);
        assert(consistent_with_mine(game, board::spot(list[c])).len() == layouts::holding(
            all,
            c,
        ).len());
        assert(layouts::holding(all, c) =~= Set::<Set<int>>::empty());
    }
}

/// Certain cells are certain: in every consistent layout a certain mine is a mine and
/// a certainly safe cell is none.
pub proof fn law_certain_cells_are_never_wrong(
    game: Minesweeper,
    set_up: SimSetup,
    layout: Set<(int, int)>,
)
    requires
        game.wf(),
        setup::unopened(game).len() <= usize::MAX,
        set_up.describes(game),
        consistent(game).contains(layout),
    ensures
        forall|i: int|
            0 <= i < set_up.certain_mines@.len() ==> layout.contains(
                board::spot(#[trigger] set_up.certain_mines@[i]),
            ),
        forall|i: int|
            0 <= i < set_up.certain_safe@.len() ==> !layout.contains(
                board::spot(#[trigger] set_up.certain_safe@[i]),
            ),
{
    let all = consistent(game);
    law_setup_keeps_the_consistent_layouts(game, set_up);
    assert forall|i: int| 0 <= i < set_up.certain_mines@.len() implies layout.contains(
        board::spot(#[trigger] set_up.certain_mines@[i]),
    ) by {
        let p = board::spot(set_up.certain_mines@[i]);
        let part = consistent_with_mine(game, p);
        lemma_subset_equality(part, all);
        assert(part.contains(layout));
    }
    assert forall|i: int| 0 <= i < set_up.certain_safe@.len() implies !layout.contains(
        board::spot(#[trigger] set_up.certain_safe@[i]),
    ) by {
        let p = board::spot(set_up.certain_safe@[i]);
        let part = consistent_with_mine(game, p);
        lemma_set_subset_finite(all, part);
        if layout.contains(p) {
            assert(part.contains(layout));
            assert(part =~= Set::<Set<(int, int)>>::empty());
        }
    }
}

/// Every unopened cell is a certain mine, certainly safe, or open.
proof fn lemma_listed_somewhere(game: Minesweeper, set_up: SimSetup, p: (usize, usize))
    requires
        set_up.describes(game),
        setup::unopened(game).len() <= usize::MAX,
        p.0 < game.width,
        p.1 < game.height,
        setup::unopened_test(game)(p.0 as int, p.1 as int),
    ensures
        set_up.certain_mines@.contains(p) || set_up.certain_safe@.contains(p)
            || set_up.hidden_cells@.contains(p),
{
    let list = setup::unopened(game);
    let n = list.len() as usize;
    let known = setup::board_known(game);
    setup::lemma_board_demands(game);
    propagate::law_propagation_reaches_a_fixpoint(
        n as nat,
        setup::board_demands(game),
        setup::mines_left(game),
    );
    setup::lemma_index(game, p);
    let i = setup::index_in(list, p);
    propagate::lemma_listed(known.mines, n);
    propagate::lemma_listed(known.safe, n);
    reduce::lemma_kept(known, n);
    assert(layouts::first_cells(n as nat).contains(i));
    if known.mines.contains(i) {
        let named = propagate::listed(known.mines, n as int);
        assert(layouts::cell_set(named).contains(i));
        let k = choose|k: int| 0 <= k < named.len() && #[trigger] named[k] == i;
        assert(set_up.certain_mines@[k] == p);
    } else if known.safe.contains(i) {
        let named = propagate::listed(known.safe, n as int);
        assert(layouts::cell_set(named).contains(i));
        let k = choose|k: int| 0 <= k < named.len() && #[trigger] named[k] == i;
        assert(set_up.certain_safe@[k] == p);
    } else {
        assert(known.open(n as nat).contains(i));
        let k = reduce::rank(known, n as nat, i) as int;
        assert(reduce::kept(known, n as nat)[k] == i);
        assert(set_up.hidden_cells@[k] == p);
    }
}

/// What is reported of each cell is in how many consistent layouts it is a mine.
pub proof fn lemma_reported(
    game: Minesweeper,
    set_up: SimSetup,
    counts: Seq<nat>,
    total: nat,
    p: (usize, usize),
)
    requires
        game.wf(),
        setup::unopened(game).len() <= usize::MAX,
        possible(game),
        set_up.describes(game),
        total == combine::setup_layouts(set_up).len(),
        counts.len() == set_up.hidden_cells@.len(),
        forall|i: int| 0 <= i < counts.len() ==> #[trigger] counts[i] == combine::held(set_up, i),
        p.0 < game.width,
        p.1 < game.height,
    ensures
        estimate::reported(set_up, counts, total, p) == consistent_with_mine(
            game,
            board::spot(p),
        ).len(),
{
    let part = consistent_with_mine(game, board::spot(p));
    law_setup_keeps_the_consistent_layouts(game, set_up);
    if setup::unopened_test(game)(p.0 as int, p.1 as int) {
        lemma_listed_somewhere(game, set_up, p);
        if set_up.certain_mines@.contains(p) {
            let k = choose|k: int|
                0 <= k < set_up.certain_mines@.len() && set_up.certain_mines@[k] == p;
            assert(board::spot(set_up.certain_mines@[k]) == board::spot(p));
        } else if set_up.hidden_cells@.contains(p) {
            let k = setup::index_in(set_up.hidden_cells@, p);
            assert(0 <= k < set_up.hidden_cells@.len() && set_up.hidden_cells@[k] == p);
            assert(counts[k] == combine::held(set_up, k));
        } else {
            let k = choose|k: int|
                0 <= k < set_up.certain_safe@.len() && set_up.certain_safe@[k] == p;
            assert(board::spot(set_up.certain_safe@[k]) == board::spot(p));
        }
    } else {
        assert(part =~= Set::<Set<(int, int)>>::empty()) by {
            assert forall|m: Set<(int, int)>| !part.contains(m) by {}
        }
        if set_up.certain_mines@.contains(p) || set_up.hidden_cells@.contains(p) {
            lemma_listed_is_unopened(game, set_up, p);
        }
    }
}

/// Only unopened cells are listed.
proof fn lemma_listed_is_unopened(game: Minesweeper, set_up: SimSetup, p: (usize, usize))
    requires
        set_up.describes(game),
        setup::unopened(game).len() <= usize::MAX,
        set_up.certain_mines@.contains(p) || set_up.hidden_cells@.contains(p),
    ensures
        setup::unopened_test(game)(p.0 as int, p.1 as int),
{
    let list = setup::unopened(game);
    let n = list.len() as usize;
    let known = setup::board_known(game);
    setup::lemma_board_demands(game);
    propagate::law_propagation_reaches_a_fixpoint(
        n as nat,
        setup::board_demands(game),
        setup::mines_left(game),
    );
    propagate::lemma_listed(known.mines, n);
    reduce::lemma_kept(known, n);
    if set_up.certain_mines@.contains(p) {
        let named = propagate::listed(known.mines, n as int);
        let k = choose|k: int|
            0 <= k < set_up.certain_mines@.len() && set_up.certain_mines@[k] == p;
        setup::lemma_index_back(game, named[k] as int);
    } else {
        let kept = reduce::kept(known, n as nat);
        let k = choose|k: int| 0 <= k < set_up.hidden_cells@.len() && set_up.hidden_cells@[k] == p;
        setup::lemma_index_back(game, kept[k] as int);
    }
}

// ---------------------------------------------------------------------------
// Where the mines really are
// ---------------------------------------------------------------------------

/// The mines on unopened cells.
pub open spec fn hidden_mines(game: Minesweeper) -> Set<(int, int)> {
    Set::new(
        |p: (int, int)|
            game.has(p.0, p.1) && game.mine_at(p.0, p.1) && game.at(p.0, p.1).state
                != CellState::Visible,
    )
}

/// The squares that satisfy a test.
pub open spec fn test_spots(game: Minesweeper, test: spec_fn(int, int) -> bool) -> Set<(int, int)> {
    Set::new(|p: (int, int)| game.has(p.0, p.1) && test(p.0, p.1))
}

/// A scan lists as many squares as satisfy the test.
pub proof fn lemma_scan_len(game: Minesweeper, test: spec_fn(int, int) -> bool)
    ensures
        test_spots(game, test).finite(),
        test_spots(game, test).len() == board::scan(
            test,
            game.width as int,
            game.height as int,
        ).len(),
{
    let list = board::scan(test, game.width as int, game.height as int);
    let spots = list.map_values(|p: (usize, usize)| board::spot(p));
    board::lemma_scan(test, game.width, game.height);
    assert(spots.no_duplicates()) by {
        assert forall|i: int, j: int|
            0 <= i < spots.len() && 0 <= j < spots.len() && i != j implies spots[i]
            != spots[j] by {
            if i < j {
                assert(board::earlier(list[i], list[j]));
            } else {
                assert(board::earlier(list[j], list[i]));
            }
        }
    }
    spots.unique_seq_to_set();
    assert(spots.to_set() =~= test_spots(game, test)) by {
        assert forall|p: (int, int)| spots.to_set().contains(p) <==> test_spots(
            game,
            test,
        ).contains(p) by {
            if spots.to_set().contains(p) {
                let i = choose|i: int| 0 <= i < spots.len() && spots[i] == p;
                assert(board::spot(list[i]) == p);
                assert(list[i].0 < game.width);
            }
            if test_spots(game, test).contains(p) {
                let u = (p.0 as usize, p.1 as usize);
                assert(list.contains(u));
                let i = choose|i: int| 0 <= i < list.len() && list[i] == u;
                assert(spots[i] == p);
                assert(spots.contains(p));
            }
        }
    }
}

proof fn lemma_mines_split(game: Minesweeper, cells: Seq<(usize, usize)>)
    requires
        forall|i: int|
            0 <= i < cells.len() ==> (#[trigger] cells[i]).0 < game.width && cells[i].1
                < game.height,
    ensures
        game.mines_in(cells) == spots_among(cells, hidden_mines(game)) + setup::shown_in(
            game,
            cells,
        ),
    decreases cells.len(),
{
    if cells.len() > 0 {
        let rest = cells.drop_last();
        assert forall|i: int| 0 <= i < rest.len() implies (#[trigger] rest[i]).0 < game.width
            && rest[i].1 < game.height by {
            assert(rest[i] == cells[i]);
        }
        lemma_mines_split(game, rest);
        let p = cells.last();
        assert(p == cells[cells.len() - 1]);
        assert(game.has(p.0 as int, p.1 as int));
        assert(hidden_mines(game).contains(board::spot(p)) <==> game.mine_at(
            p.0 as int,
            p.1 as int,
        ) && game.at(p.0 as int, p.1 as int).state != CellState::Visible);
    }
}

/// On a board whose numbers and number of mines are right, the mines as they really
/// lie are consistent. What holds of every consistent layout therefore holds of the
/// board itself.
pub proof fn law_the_real_mines_are_consistent(game: Minesweeper)
    requires
        game.wf(),
        game.numbered(),
        game.mine_spots().len() == game.mines_count,
    ensures
        consistent(game).contains(hidden_mines(game)),
{
    let m = hidden_mines(game);
    let shown = test_spots(game, setup::shown_mine_test(game));
    lemma_scan_len(game, setup::shown_mine_test(game));
    let every = |x: int, y: int| game.mine_at(x, y);
    lemma_scan_len(game, every);
    assert(test_spots(game, every) =~= game.mine_spots());
    lemma_set_subset_finite(game.mine_spots(), m);
    assert(m.disjoint(shown));
    assert(m.union(shown) =~= game.mine_spots());
    lemma_set_disjoint_lens(m, shown);
    assert forall|x: int, y: int|
        game.has(x, y) && (#[trigger] game.at(x, y)).state == CellState::Visible && !game.mine_at(
            x,
            y,
        ) implies number_right(game, m, x, y) by {
        let cells = game.around(x, y);
        board::lemma_neighbours(x, y, game.width, game.height);
        lemma_mines_split(game, cells);
        board::lemma_mines_in_bound(game, cells);
    }
}

// ---------------------------------------------------------------------------
// Laws of exact probabilities
// ---------------------------------------------------------------------------

/// Certainty is exact: a cell reads "always" just when it is a mine in every
/// consistent layout, and "never" just when it is one in none.
pub proof fn law_certainty_is_exact(game: Minesweeper, p: (int, int))
    requires
        game.wf(),
        setup::unopened(game).len() <= usize::MAX,
        possible(game),
    ensures
        consistent_with_mine(game, p).len() == consistent(game).len() <==> forall|
            m: Set<(int, int)>,
        | #[trigger] consistent(game).contains(m) ==> m.contains(p),
        consistent_with_mine(game, p).len() == 0 <==> forall|m: Set<(int, int)>| #[trigger]
            consistent(game).contains(m) ==> !m.contains(p),
        consistent_with_mine(game, p).len() <= consistent(game).len(),
{
    let all = consistent(game);
    let part = consistent_with_mine(game, p);
    lemma_board_problem(game);
    lemma_set_subset_finite(all, part);
    lemma_len_subset(part, all);
    if part.len() == all.len() {
        lemma_subset_equality(part, all);
        assert forall|m: Set<(int, int)>| #[trigger] all.contains(m) implies m.contains(p) by {
            assert(part.contains(m));
        }
    }
    if forall|m: Set<(int, int)>| #[trigger] all.contains(m) ==> m.contains(p) {
        assert(part =~= all);
    }
    if part.len() == 0 {
        assert forall|m: Set<(int, int)>| #[trigger] all.contains(m) implies !m.contains(p) by {
            if m.contains(p) {
                assert(part.contains(m));
                assert(part =~= Set::<Set<(int, int)>>::empty());
            }
        }
    }
    if forall|m: Set<(int, int)>| #[trigger] all.contains(m) ==> !m.contains(p) {
        assert(part =~= Set::<Set<(int, int)>>::empty());
    }
}

/// In how many consistent layouts each of the first `i` unopened cells is a mine,
/// summed up.
pub open spec fn mine_sum(game: Minesweeper, i: int) -> nat
    decreases i,
{
    if i <= 0 {
        0
    } else {
        mine_sum(game, i - 1) + consistent_with_mine(
            game,
            board::spot(setup::unopened(game)[i - 1]),
        ).len()
    }
}

/// Probabilities add up to the mines that are left: over all unopened cells, the
/// layouts that put a mine there are as many as the mines left times the layouts.
pub proof fn law_probabilities_sum_to_remaining_mines(game: Minesweeper)
    requires
        game.wf(),
        setup::unopened(game).len() <= usize::MAX,
        possible(game),
    ensures
        mine_sum(game, setup::unopened(game).len() as int) == setup::mines_left(game) * consistent(
            game,
        ).len(),
{
    let list = setup::unopened(game);
    let ds = setup::board_demands(game);
    let total = setup::mines_left(game);
    let all = propagate::problem(list.len(), ds, total);
    lemma_board_problem(game);
    layouts::lemma_first_cells(list.len());
    layouts::lemma_layouts_finite(layouts::first_cells(list.len()), ds);
    lemma_set_subset_finite(layouts::layouts_over(layouts::first_cells(list.len()), ds), all);
    counting::lemma_held_sum(all, list.len(), total);
    lemma_mine_sum(game, list.len() as int);
}

proof fn lemma_mine_sum(game: Minesweeper, i: int)
    requires
        game.wf(),
        setup::unopened(game).len() <= usize::MAX,
        possible(game),
        0 <= i <= setup::unopened(game).len(),
    ensures
        mine_sum(game, i) == counting::held_sum(
            propagate::problem(
                setup::unopened(game).len(),
                setup::board_demands(game),
                setup::mines_left(game),
            ),
            i as nat,
        ),
    decreases i,
{
    if i > 0 {
        lemma_mine_sum(game, i - 1);
        lemma_board_problem(game);
        let list = setup::unopened(game);
        assert(consistent_with_mine(game, board::spot(list[i - 1])).len() == layouts::holding(
            propagate::problem(list.len(), setup::board_demands(game), setup::mines_left(game)),
            i - 1,
        ).len());
    }
}

/// Two boards that show the same leave the same layouts open.
pub proof fn lemma_shows_the_same(before: Minesweeper, after: Minesweeper)
    requires
        setup::shows_the_same(before, after),
    ensures
        consistent(after) =~= consistent(before),
{
    assert forall|i: int, j: int| before.has(i, j) implies setup::shows_alike(
        before.at(i, j),
        #[trigger] after.at(i, j),
    ) by {
        assert(setup::shows_alike(before.at(i, j), after.at(i, j)));
    }
    let w = before.width as int;
    let h = before.height as int;
    assert forall|i: int, j: int|
        0 <= i < w && 0 <= j < h implies #[trigger] setup::shown_mine_test(after)(i, j)
        == setup::shown_mine_test(before)(i, j) by {
        assert(before.has(i, j));
        assert(setup::shows_alike(before.at(i, j), after.at(i, j)));
    }
    board::lemma_scan_same(
        setup::shown_mine_test(after),
        setup::shown_mine_test(before),
        w,
        h,
    );
    assert forall|m: Set<(int, int)>| consistent(after).contains(m) <==> consistent(
        before,
    ).contains(m) by {
        assert forall|i: int, j: int|
            before.has(i, j) && before.at(i, j).state == CellState::Visible implies (
        #[trigger] number_right(after, m, i, j) <==> number_right(before, m, i, j)) by {
            assert(setup::shows_alike(before.at(i, j), after.at(i, j)));
            board::lemma_neighbours(i, j, before.width, before.height);
            lemma_shown_same(after, before, before.around(i, j));
        }
        if consistent(after).contains(m) {
            assert forall|p: (int, int)| #[trigger] m.contains(p) implies before.has(p.0, p.1)
                && before.at(p.0, p.1).state != CellState::Visible by {
                assert(setup::shows_alike(before.at(p.0, p.1), after.at(p.0, p.1)));
            }
            assert forall|i: int, j: int|
                before.has(i, j) && (#[trigger] before.at(i, j)).state == CellState::Visible
                    && !before.mine_at(i, j) implies number_right(before, m, i, j) by {
                assert(setup::shows_alike(before.at(i, j), after.at(i, j)));
                assert(number_right(after, m, i, j));
            }
        }
        if consistent(before).contains(m) {
            assert forall|p: (int, int)| #[trigger] m.contains(p) implies after.has(p.0, p.1)
                && after.at(p.0, p.1).state != CellState::Visible by {
                assert(setup::shows_alike(before.at(p.0, p.1), after.at(p.0, p.1)));
            }
            assert forall|i: int, j: int|
                after.has(i, j) && (#[trigger] after.at(i, j)).state == CellState::Visible
                    && !after.mine_at(i, j) implies number_right(after, m, i, j) by {
                assert(before.has(i, j));
                assert(before.at(i, j).state == CellState::Visible);
                assert(number_right(before, m, i, j));
            }
        }
    }
    assert(consistent(after) =~= consistent(before));
}

/// A flag is a player's opinion, not evidence: toggling one changes no probability.
pub proof fn law_flags_do_not_change_probabilities(
    before: Minesweeper,
    x: int,
    y: int,
    after: Minesweeper,
)
    requires
        before.flag_toggled(x, y, after),
    ensures
        consistent(after) =~= consistent(before),
        forall|p: (int, int)|
            consistent_with_mine(after, p) =~= #[trigger] consistent_with_mine(before, p),
{
    assert forall|i: int, j: int| before.has(i, j) implies (
    #[trigger] before.at(i, j)).content == after.at(i, j).content && (before.at(i, j).state
        == CellState::Visible <==> after.at(i, j).state == CellState::Visible) by {
        assert(after.at(i, j).content == before.at(i, j).content);
    }
    lemma_shows_the_same(before, after);
}

proof fn lemma_shown_same(a: Minesweeper, b: Minesweeper, cells: Seq<(usize, usize)>)
    requires
        forall|i: int|
            0 <= i < cells.len() ==> setup::shown_mine_test(a)(
                (#[trigger] cells[i]).0 as int,
                cells[i].1 as int,
            ) == setup::shown_mine_test(b)(cells[i].0 as int, cells[i].1 as int),
    ensures
        setup::shown_in(a, cells) == setup::shown_in(b, cells),
    decreases cells.len(),
{
    if cells.len() > 0 {
        let rest = cells.drop_last();
        assert forall|i: int| 0 <= i < rest.len() implies setup::shown_mine_test(a)(
            (#[trigger] rest[i]).0 as int,
            rest[i].1 as int,
        ) == setup::shown_mine_test(b)(rest[i].0 as int, rest[i].1 as int) by {
            assert(rest[i] == cells[i]);
        }
        lemma_shown_same(a, b, rest);
        assert(cells.last() == cells[cells.len() - 1]);
    }
}

// ---------------------------------------------------------------------------
// What a consistent layout is
// ---------------------------------------------------------------------------

/// The mines that the player sees.
pub open spec fn seen_mines(game: Minesweeper) -> Set<(int, int)> {
    Set::new(
        |q: (int, int)|
            game.has(q.0, q.1) && game.at(q.0, q.1).state == CellState::Visible && game.mine_at(
                q.0,
                q.1,
            ),
    )
}

/// The mines that would touch a cell: those of a layout, and those that the player sees.
pub open spec fn touching(
    game: Minesweeper,
    layout: Set<(int, int)>,
    x: int,
    y: int,
) -> Set<(int, int)> {
    Set::new(
        |q: (int, int)|
            game.has(q.0, q.1) && board::adjacent((x, y), q) && (layout.contains(q)
                || seen_mines(game).contains(q)),
    )
}

/// Those of them that are listed.
spec fn touching_among(
    game: Minesweeper,
    layout: Set<(int, int)>,
    cells: Seq<(usize, usize)>,
) -> Set<(int, int)> {
    Set::new(
        |q: (int, int)|
            (layout.contains(q) || seen_mines(game).contains(q)) && exists|i: int|
                0 <= i < cells.len() && board::spot(#[trigger] cells[i]) == q,
    )
}

proof fn lemma_touching_among(
    game: Minesweeper,
    layout: Set<(int, int)>,
    cells: Seq<(usize, usize)>,
)
    requires
        board::row_major(cells),
        forall|i: int|
            0 <= i < cells.len() ==> game.has((#[trigger] cells[i]).0 as int, cells[i].1 as int),
        forall|p: (int, int)| #[trigger]
            layout.contains(p) ==> game.at(p.0, p.1).state != CellState::Visible,
    ensures
        touching_among(game, layout, cells).finite(),
        touching_among(game, layout, cells).len() == spots_among(cells, layout) + setup::shown_in(
            game,
            cells,
        ),
    decreases cells.len(),
{
    let found = touching_among(game, layout, cells);
    if cells.len() == 0 {
        assert(found =~= Set::empty());
    } else {
        let rest = cells.drop_last();
        let last = board::spot(cells.last());
        assert(game.has(cells[cells.len() - 1].0 as int, cells[cells.len() - 1].1 as int));
        assert forall|i: int, j: int| 0 <= i < j < rest.len() implies board::earlier(
            #[trigger] rest[i],
            #[trigger] rest[j],
        ) by {
            assert(board::earlier(cells[i], cells[j]));
        }
        assert forall|i: int| 0 <= i < rest.len() implies game.has(
            (#[trigger] rest[i]).0 as int,
            rest[i].1 as int,
        ) by {
            assert(rest[i] == cells[i]);
        }
        lemma_touching_among(game, layout, rest);
        let fewer = touching_among(game, layout, rest);
        assert(!fewer.contains(last)) by {
            if fewer.contains(last) {
                let i = choose|i: int|
                    0 <= i < rest.len() && board::spot(#[trigger] rest[i]) == last;
                assert(board::earlier(cells[i], cells[cells.len() - 1]));
            }
        }
        let counts = layout.contains(last) || seen_mines(game).contains(last);
        let now = if counts {
            fewer.insert(last)
        } else {
            fewer
        };
        assert(found =~= now) by {
            assert forall|q: (int, int)| found.contains(q) <==> now.contains(q) by {
                if found.contains(q) {
                    let i = choose|i: int|
                        0 <= i < cells.len() && board::spot(#[trigger] cells[i]) == q;
                    if i < rest.len() {
                        assert(board::spot(rest[i]) == q);
                    }
                }
                if fewer.contains(q) {
                    let i = choose|i: int|
                        0 <= i < rest.len() && board::spot(#[trigger] rest[i]) == q;
                    assert(board::spot(cells[i]) == q);
                }
                if q == last {
                    assert(board::spot(cells[cells.len() - 1]) == q);
                }
            }
        }
        assert(setup::shown_mine_test(game)(last.0, last.1) == seen_mines(game).contains(last));
    }
}

/// The mines that the player sees are counted each once.
proof fn lemma_seen_mines(game: Minesweeper)
    ensures
        seen_mines(game).finite(),
        seen_mines(game).len() == board::scan(
            setup::shown_mine_test(game),
            game.width as int,
            game.height as int,
        ).len(),
{
    let test = setup::shown_mine_test(game);
    let list = board::scan(test, game.width as int, game.height as int);
    board::lemma_scan(test, game.width, game.height);
    let spots = list.map_values(|p: (usize, usize)| board::spot(p));
    assert(spots.no_duplicates()) by {
        assert forall|i: int, j: int|
            0 <= i < spots.len() && 0 <= j < spots.len() && i != j implies spots[i]
            != spots[j] by {
            if i < j {
                assert(board::earlier(list[i], list[j]));
            } else {
                assert(board::earlier(list[j], list[i]));
            }
        }
    }
    spots.unique_seq_to_set();
    assert(spots.to_set() =~= seen_mines(game)) by {
        assert forall|q: (int, int)| spots.to_set().contains(q) <==> seen_mines(game).contains(q) by {
            if spots.contains(q) {
                let i = choose|i: int| 0 <= i < spots.len() && spots[i] == q;
                assert(test(list[i].0 as int, list[i].1 as int));
            }
            if seen_mines(game).contains(q) {
                let u = (q.0 as usize, q.1 as usize);
                assert(test(u.0 as int, u.1 as int));
                assert(list.contains(u));
                let i = choose|i: int| 0 <= i < list.len() && list[i] == u;
                assert(spots[i] == q);
            }
        }
    }
}

/// What the player cannot rule out: mines on unopened cells, so many that with those that are
/// seen they are as many as the board has, of which just as many touch each open cell as its
/// number says. All of these layouts, and no others, are counted.
pub proof fn law_consistent_layouts_meet_every_number(game: Minesweeper, layout: Set<(int, int)>)
    ensures
        consistent(game).contains(layout) <==> {
            &&& layout.finite()
            &&& forall|p: (int, int)| #[trigger]
                layout.contains(p) ==> game.has(p.0, p.1) && game.at(p.0, p.1).state
                    != CellState::Visible
            &&& layout.len() + seen_mines(game).len() == game.mines_count
            &&& forall|x: int, y: int|
                game.has(x, y) && (#[trigger] game.at(x, y)).state == CellState::Visible ==> (
                game.at(x, y).content matches CellContent::Empty(n) ==> touching(
                    game,
                    layout,
                    x,
                    y,
                ).len() == n)
        },
{
    lemma_seen_mines(game);
    if forall|p: (int, int)| #[trigger]
        layout.contains(p) ==> game.has(p.0, p.1) && game.at(p.0, p.1).state != CellState::Visible {
        assert forall|x: int, y: int|
            game.has(x, y) && (#[trigger] game.at(x, y)).state == CellState::Visible
                && !game.mine_at(x, y) implies (number_right(game, layout, x, y) <==> touching(
            game,
            layout,
            x,
            y,
        ).len() == setup::number_of(game.at(x, y).content)) by {
            let list = game.around(x, y);
            board::lemma_neighbours(x, y, game.width, game.height);
            assert forall|i: int| 0 <= i < list.len() implies game.has(
                (#[trigger] list[i]).0 as int,
                list[i].1 as int,
            ) by {
                assert(list[i].0 < game.width && list[i].1 < game.height);
            }
            lemma_touching_among(game, layout, list);
            assert(touching_among(game, layout, list) =~= touching(game, layout, x, y)) by {
                assert forall|q: (int, int)|
                    touching_among(game, layout, list).contains(q) <==> touching(
                        game,
                        layout,
                        x,
                        y,
                    ).contains(q) by {
                    if touching_among(game, layout, list).contains(q) {
                        let i = choose|i: int|
                            0 <= i < list.len() && board::spot(#[trigger] list[i]) == q;
                        assert(board::adjacent((x, y), board::spot(list[i])));
                    }
                    if touching(game, layout, x, y).contains(q) {
                        let u = (q.0 as usize, q.1 as usize);
                        assert(board::spot(u) == q);
                        assert(list.contains(u));
                        let i = choose|i: int| 0 <= i < list.len() && list[i] == u;
                        assert(board::spot(list[i]) == q);
                    }
                }
            }
        }
    }
}

} // verus!
