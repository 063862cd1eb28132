//! General properties of the simulation, stated and proved once for all
//! grids and rule configurations.

use crate::grid::{
    count8, first_target, flat, in_range, lemma_flat_in_bounds, lemma_flat_of_position,
    lemma_stepped_full_at, live_at, next_state, playable, step_cell, stepped, stepped_full, Action,
    Pending, drain_cell, drained,
};
use crate::ruleset::Ruleset;
use vstd::prelude::*;

verus! {

/// The live-neighbor count of any coordinate in any grid lies in `[0, 8]`.
pub proof fn lemma_neighbor_count_range(cells: Seq<bool>, w: int, h: int, x: int, y: int)
    ensures
        0 <= count8(cells, w, h, x, y) <= 8,
{
}

/// One generation step is a pure function of the pre-step state: two equal
/// pre-step grids, with equal pending queues and equal rules, step to equal
/// post-step grids.
pub proof fn lemma_step_deterministic(
    cells1: Seq<bool>,
    acts1: Seq<Pending>,
    r1: Ruleset,
    cells2: Seq<bool>,
    acts2: Seq<Pending>,
    r2: Ruleset,
    w: int,
    h: int,
)
    requires
        cells1 == cells2,
        acts1 == acts2,
        r1 == r2,
    ensures
        stepped_full(cells1, acts1, w, h, r1) == stepped_full(cells2, acts2, w, h, r2),
{
}

/// A dead cell with zero live neighbors stays dead over a step — unless the
/// birth threshold is zero, in which case exactly such a cell is born.
pub proof fn lemma_dead_isolated_cell(cells: Seq<bool>, w: int, h: int, r: Ruleset, x: int, y: int)
    requires
        cells.len() == w * h,
        playable(w, h, x, y),
        !cells[flat(w, x, y)],
        count8(cells, w, h, x, y) == 0,
    ensures
        next_state(cells, w, h, r, x, y) == (r.born == 0),
        stepped(cells, w, h, r)[flat(w, x, y)] == (r.born == 0),
{
    lemma_stepped_full_at(cells, Seq::empty(), w, h, r, x, y);
    assert(first_target(Seq::<Pending>::empty(), x, y) == None::<Action>);
}

/// Draining an empty action queue never changes the grid.
pub proof fn lemma_drain_empty_is_identity(cells: Seq<bool>, w: int, h: int)
    requires
        1 <= w,
        1 <= h,
        cells.len() == w * h,
    ensures
        drained(cells, Seq::empty(), w) == cells,
{
    assert forall|i: int| 0 <= i < cells.len() implies drained(
        cells,
        Seq::<Pending>::empty(),
        w,
    )[i] == cells[i] by {
        lemma_flat_of_position(w, h, i);
        assert(first_target(Seq::<Pending>::empty(), i % w, i / w) == None::<Action>);
        assert(drained(cells, Seq::<Pending>::empty(), w)[i] == drain_cell(
            cells,
            Seq::<Pending>::empty(),
            w,
            i % w,
            i / w,
        ));
    }
    assert(drained(cells, Seq::<Pending>::empty(), w) =~= cells);
}

/// In an all-dead grid no coordinate is live.
proof fn lemma_all_dead_no_live(cells: Seq<bool>, w: int, h: int)
    requires
        cells.len() == w * h,
        forall|i: int| 0 <= i < cells.len() ==> !(#[trigger] cells[i]),
    ensures
        forall|a: int, b: int| !(#[trigger] live_at(cells, w, h, a, b)),
{
    assert forall|a: int, b: int| !(#[trigger] live_at(cells, w, h, a, b)) by {
        if in_range(w, h, a, b) {
            lemma_flat_in_bounds(w, h, a, b);
        }
    }
}

/// Toggling one cell of an all-dead grid alive and then dead again, each
/// toggle applied by its own generation step, returns the grid to its
/// original state, provided the birth threshold is at least two, so that
/// neither the empty grid nor the lone live cell triggers a birth. (With a
/// birth threshold of one, the toggled cell's neighbors would be born in the
/// second step; with zero, the whole playable area would be.)
pub proof fn lemma_toggle_round_trip(
    cells: Seq<bool>,
    w: int,
    h: int,
    r: Ruleset,
    x: usize,
    y: usize,
)
    requires
        1 <= w,
        1 <= h,
        cells.len() == w * h,
        in_range(w, h, x as int, y as int),
        forall|i: int| 0 <= i < cells.len() ==> !(#[trigger] cells[i]),
        r.born >= 2,
    ensures
        stepped_full(
            stepped_full(cells, seq![((x, y), Action::Create)], w, h, r),
            seq![((x, y), Action::Kill)],
            w,
            h,
            r,
        ) == cells,
{
    let xi = x as int;
    let yi = y as int;
    let cre: Seq<Pending> = seq![((x, y), Action::Create)];
    let kil: Seq<Pending> = seq![((x, y), Action::Kill)];
    let s1 = stepped_full(cells, cre, w, h, r);
    let s2 = stepped_full(s1, kil, w, h, r);
    lemma_all_dead_no_live(cells, w, h);
    assert forall|a: int, b: int|
        #![trigger first_target(cre, a, b)]
        first_target(cre, a, b) == (if a == xi && b == yi {
            Some(Action::Create)
        } else {
            None::<Action>
        }) by {
        assert(cre[0] == ((x, y), Action::Create));
        assert(cre.drop_first() =~= Seq::<Pending>::empty());
        assert(first_target(cre.drop_first(), a, b) == None::<Action>);
    }
    assert forall|a: int, b: int|
        #![trigger first_target(kil, a, b)]
        first_target(kil, a, b) == (if a == xi && b == yi {
            Some(Action::Kill)
        } else {
            None::<Action>
        }) by {
        assert(kil[0] == ((x, y), Action::Kill));
        assert(kil.drop_first() =~= Seq::<Pending>::empty());
        assert(first_target(kil.drop_first(), a, b) == None::<Action>);
    }
    assert(s1.len() == cells.len());
    assert forall|a: int, b: int| in_range(w, h, a, b) implies s1[#[trigger] flat(w, a, b)] == (a
        == xi && b == yi) by {
        lemma_stepped_full_at(cells, cre, w, h, r, a, b);
        lemma_flat_in_bounds(w, h, a, b);
    }
    assert forall|a: int, b: int|
        #![trigger live_at(s1, w, h, a, b)]
        live_at(s1, w, h, a, b) == (in_range(w, h, a, b) && a == xi && b == yi) by {
        if in_range(w, h, a, b) {
            lemma_flat_in_bounds(w, h, a, b);
        }
    }
    assert forall|i: int| 0 <= i < cells.len() implies s2[i] == cells[i] by {
        lemma_flat_of_position(w, h, i);
        let a = i % w;
        let b = i / w;
        lemma_stepped_full_at(s1, kil, w, h, r, a, b);
        assert(s2[flat(w, a, b)] == step_cell(s1, kil, w, h, r, a, b));
        if a == xi && b == yi {
        } else {
            if playable(w, h, a, b) {
                assert(count8(s1, w, h, a, b) <= 1);
                assert(!live_at(s1, w, h, a, b));
            } else {
                assert(s1[flat(w, a, b)] == false);
            }
        }
    }
    assert(s2 =~= cells);
}

} // verus!
