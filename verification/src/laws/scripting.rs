//! What a script does at its steps, and what its checks say of a client.
use vstd::prelude::*;

use crate::codec::Codec;
use crate::moves::Placement;
use crate::rows::{CardRow, Micro};
use crate::scenarios::{
    each, held_by, mine, not, peers, seen_at, theirs, AXES, HUMAN, MAGNET, MOVED, SOULS, START,
    TALLY, WIDGET,
};
use crate::script::{Action, Card, Check, Place, Recipe, Seat, Spot, Step, Who};

verus! {

use crate::queue::ends;
use crate::scenarios::{
    cross_visibility_script, move_sync_script, passed, run_forge_as_script, run_magnetic_script,
    run_move_reject_script, run_move_step_script, run_move_to_script, run_stock_progress_script,
    showed,
};
use crate::script::{first_outcome, law_passed_run_met_its_demands, without, Env, RunState};

/// The run is at the next step, which has not waited or asked.
pub open spec fn moves_on(before: RunState, after: RunState) -> bool {
    after.pc == before.pc + 1 && after.tries == 0 && !after.asked
}

/// The registers are as before.
pub open spec fn same_registers(before: RunState, after: RunState) -> bool {
    after.lists == before.lists && after.marks == before.marks && after.cells == before.cells
}

/// The step has waited so often, and waits once more for that long or fails.
pub open spec fn waits_or_fails(
    before: RunState,
    after: RunState,
    a: Action,
    limit: u32,
    ms: u32,
) -> bool {
    &&& before.tries < limit ==> a == Action::Pump(ms) && after.pc == before.pc && after.tries
        == before.tries + 1 && !after.asked
    &&& before.tries >= limit ==> a == Action::Failed(before.pc) && after == before
}

/// What a step that demands something does: a plain demand goes on or fails; one that may
/// wait goes on once it is met, a polled one only after a wait, and else waits as often and
/// as long as it may; a guarded one fails as soon as, after a wait, what must not be is.
pub proof fn law_demands_are_waited_for<'a, C: Codec>(
    s: RunState,
    script: Seq<Step>,
    seats: Seq<Seat<'a, C>>,
    worked: bool,
)
    requires
        s.pc < script.len() <= usize::MAX,
    ensures
        ({
            let (t, a) = s.turned(script, seats, worked);
            let env = s.env(seats, 0);
            let step = script[s.pc as int];
            &&& step matches Step::Need(c) ==> {
                &&& c.holds(env) ==> a == Action::Go && moves_on(s, t)
                &&& !c.holds(env) ==> a == Action::Failed(s.pc)
            }
            &&& step matches Step::Await(limit, ms, c) ==> {
                &&& c.holds(env) ==> a == Action::Go && moves_on(s, t)
                &&& !c.holds(env) ==> waits_or_fails(s, t, a, limit, ms)
            }
            &&& step matches Step::Poll(limit, ms, c) ==> {
                &&& c.holds(env) && s.tries > 0 ==> a == Action::Go && moves_on(s, t)
                &&& !(c.holds(env) && s.tries > 0) ==> waits_or_fails(s, t, a, limit, ms)
            }
            &&& step matches Step::Guard(limit, ms, bad, good) ==> {
                &&& s.tries > 0 && bad.holds(env) ==> a == Action::Failed(s.pc)
                &&& s.tries > 0 && !bad.holds(env) && good.holds(env) ==> a == Action::Go
                    && moves_on(s, t)
                &&& s.tries == 0 || (!bad.holds(env) && !good.holds(env)) ==> waits_or_fails(
                    s,
                    t,
                    a,
                    limit,
                    ms,
                )
            }
            &&& step matches Step::Pump(ms) ==> a == Action::Pump(ms) && moves_on(s, t)
            &&& step is Forget ==> a == Action::Forget && moves_on(s, t)
            &&& step is Need || step is Await || step is Poll || step is Guard || step is Pump
                || step is Forget ==> same_registers(s, t)
        }),
{
}

/// A card is put once, and the step goes on if that worked; a refusal is a step that goes on
/// if it did not. What is put where is what the registers say.
pub proof fn law_putting_must_work_or_be_refused<'a, C: Codec>(
    s: RunState,
    script: Seq<Step>,
    seats: Seq<Seat<'a, C>>,
    worked: bool,
    seat: usize,
    card: Card,
    spot: Spot,
)
    requires
        s.pc < script.len() <= usize::MAX,
        seat < seats.len(),
    ensures
        ({
            let (t, a) = s.turned(script, seats, worked);
            let env = s.env(seats, seat);
            let step = script[s.pc as int];
            let known = env.card(card) is Some && env.target(spot) is Some;
            let put = Action::Put {
                seat,
                card_id: env.card(card)->0,
                at: env.target(spot)->0,
            };
            &&& step == Step::Put(seat, card, spot) || step == Step::Refused(seat, card, spot) ==> {
                &&& !s.asked && known ==> a == put && t.asked && t.pc == s.pc
                &&& !s.asked && !known ==> a == Action::Failed(s.pc)
                &&& s.asked && worked == (step is Put) ==> a == Action::Go && moves_on(s, t)
                &&& s.asked && worked != (step is Put) ==> a == Action::Failed(s.pc)
                &&& same_registers(s, t)
            }
        }),
{
}

/// A step that keeps what a query finds keeps it in that client's register, one that marks
/// or locates fills its own kind of register, and nothing else changes.
pub proof fn law_registers_keep_what_was_found<'a, C: Codec>(
    s: RunState,
    script: Seq<Step>,
    seats: Seq<Seat<'a, C>>,
    worked: bool,
    seat: usize,
    reg: usize,
    at: usize,
)
    requires
        s.pc < script.len() <= usize::MAX,
        seat < seats.len() <= 0x1_0000,
        reg < 0x1_0000,
    ensures
        ({
            let (t, a) = s.turned(script, seats, worked);
            let env = s.env(seats, seat);
            let after = t.env(seats, seat);
            let step = script[s.pc as int];
            &&& step matches Step::Keep(x, query, y) ==> x == seat && y == reg ==> {
                &&& a == Action::Go && moves_on(s, t)
                &&& at < env.found(query).len() ==> after.card(Card { who: Who::Me, reg, at })
                    == Some(env.found(query)[at as int])
                &&& at >= env.found(query).len() ==> after.card(
                    Card { who: Who::Me, reg, at },
                ) is None
                &&& t.marks == s.marks && t.cells == s.cells
            }
            &&& step matches Step::Mark(x, measure, y) ==> x == seat && y == reg
                && env.measured(measure) is Some ==> {
                &&& a == Action::Go && moves_on(s, t)
                &&& after.mark(Who::Me, reg) == env.measured(measure)
                &&& t.lists == s.lists && t.cells == s.cells
            }
            &&& step matches Step::Locate(x, card, y) ==> x == seat && y == reg && env.cell_of(
                card,
            ) is Some ==> {
                &&& a == Action::Go && moves_on(s, t)
                &&& after.east(reg, 0) == env.cell_of(card)
                &&& t.lists == s.lists && t.marks == s.marks
            }
        }),
{
}

/// A soul is walked so many tiles east of where a register says, in its own row.
pub proof fn law_souls_are_walked_east<'a, C: Codec>(env: Env<'a, C>, reg: usize, dx: i32)
    requires
        0 <= env.me < 0x1_0000,
        reg < 0x1_0000,
    ensures
        ({
            let k = (env.me * 0x1_0000 + reg) as u64;
            let cell = env.cells[k];
            let on_map = i32::MIN <= cell.0 + dx <= i32::MAX;
            &&& !env.cells.dom().contains(k) ==> env.east(reg, dx) is None
            &&& env.cells.dom().contains(k) && !on_map ==> env.east(reg, dx) is None
            &&& env.cells.dom().contains(k) && on_map ==> env.east(reg, dx) == Some(
                ((cell.0 + dx) as i32, cell.1),
            )
        }),
{
}

/// No two registers of a few clients share a place.
pub proof fn law_registers_are_apart(a: int, x: usize, b: int, y: usize)
    requires
        0 <= a < 0x1_0000,
        0 <= b < 0x1_0000,
        x < 0x1_0000,
        y < 0x1_0000,
        crate::script::slot(a, x) == crate::script::slot(b, y),
    ensures
        a == b && x == y,
{
    assert(a * 0x1_0000 + x <= u64::MAX);
    assert(b * 0x1_0000 + y <= u64::MAX);
}

/// What a client sees of a card: whether it is there, alive or dead, loose or on which card,
/// in which branch and place, in which zone, with how much stock, held and claimed.
pub proof fn law_checks_read_the_row<'a, C: Codec>(
    env: Env<'a, C>,
    c: Card,
    base: Card,
    row: CardRow,
    b: u8,
    n: u16,
    stock: u8,
    place: Place,
    who: Who,
    reg: usize,
)
    requires
        env.row(c) == Some(row),
    ensures
        (Check::Known(c)).holds(env),
        (Check::Dead(c)).holds(env) <==> row.dead,
        (Check::Alive(c)).holds(env) <==> !row.dead,
        (Check::Loose(c)).holds(env) <==> row.micro is Loose,
        (Check::PosHeld(c)).holds(env) <==> row.pos_held,
        (Check::SlotHeld(c)).holds(env) <==> row.stock.claimed,
        (Check::InZone(c, place)).holds(env) <==> env.zone(place) == Some(row.macro_zone),
        (Check::MicroIs(c, who, reg)).holds(env) <==> env.mark(who, reg) == Some(
            row.micro_location as u64,
        ),
        (Check::StackedOn(c, base)).holds(env) <==> (row.micro matches Micro::Stacked { root, .. }
            && env.card(base) == Some(root)),
{
}

/// A card that is not there is neither dead nor alive, neither loose nor stacked, in no zone
/// and not held.
pub proof fn law_checks_fail_without_a_row<'a, C: Codec>(
    env: Env<'a, C>,
    c: Card,
    base: Card,
    place: Place,
)
    requires
        env.row(c) is None,
    ensures
        !(Check::Known(c)).holds(env),
        !(Check::Dead(c)).holds(env),
        !(Check::Alive(c)).holds(env),
        !(Check::Loose(c)).holds(env),
        !(Check::PosHeld(c)).holds(env),
        !(Check::SlotHeld(c)).holds(env),
        !(Check::InZone(c, place)).holds(env),
        !(Check::StackedOn(c, base)).holds(env),
{
}

/// Checks are put together as the words say: both, not, at a client, at each, looking at
/// every other, and the other way round.
pub proof fn law_checks_are_put_together<'a, C: Codec>(
    env: Env<'a, C>,
    x: Box<Check>,
    y: Box<Check>,
    i: usize,
)
    ensures
        (Check::Both(x, y)).holds(env) <==> x.holds(env) && y.holds(env),
        (Check::Not(x)).holds(env) <==> !x.holds(env),
        (Check::At(i, x)).holds(env) <==> i < env.seats.len() && x.holds(
            Env { me: i as int, ..env },
        ),
        (Check::Each(x)).holds(env) && i < env.seats.len() ==> x.holds(
            Env { me: i as int, ..env },
        ),
        (Check::Peers(x)).holds(env) && i < env.seats.len() && i != env.me ==> x.holds(
            Env { peer: i as int, ..env },
        ),
        (Check::There(x)).holds(env) <==> x.holds(Env { me: env.peer, peer: env.me, ..env }),
{
    if (Check::Each(x)).holds(env) && i < env.seats.len() {
        assert(x.holds(env.at(i as int)));
    }
    if (Check::Peers(x)).holds(env) && i < env.seats.len() && i != env.me {
        assert(x.holds(env.facing(i as int)));
    }
}

/// An action was accepted where the first outcome of its recipe is a good one; rejected where
/// some outcome of it is not; ended where it has any.
pub proof fn law_outcomes_are_read_off_the_log<'a, C: Codec>(env: Env<'a, C>, r: Recipe)
    ensures
        ({
            let log = env.seat().log@;
            &&& (Check::Ended(r)).holds(env) <==> exists|i: int|
                0 <= i < log.len() && (#[trigger] log[i]).0@ == r.text()
            &&& (Check::Rejected(r)).holds(env) <==> exists|i: int|
                0 <= i < log.len() && (#[trigger] log[i]).0@ == r.text() && log[i].1 is Some
            &&& (Check::Accepted(r)).holds(env) <==> exists|i: int|
                0 <= i < log.len() && (#[trigger] log[i]).0@ == r.text() && log[i].1 is None
                    && forall|j: int| 0 <= j < i ==> (#[trigger] log[j]).0@ != r.text()
            &&& (Check::AnyOutcome).holds(env) <==> log.len() > 0
            &&& (Check::AnyError).holds(env) <==> env.seat().errors > 0
        }),
{
    let log = env.seat().log@;
    let all = ends(log);
    lemma_first_outcome(all, r.text());
    assert forall|i: int| 0 <= i < log.len() implies (#[trigger] all[i]).0 == log[i].0@ && (
    all[i].1 is None <==> log[i].1 is None) by {}
    if first_outcome(all, r.text()) == Some(None::<Seq<char>>) {
        let i = choose|i: int|
            0 <= i < all.len() && (#[trigger] all[i]).0 == r.text() && Some(all[i].1)
                == first_outcome(all, r.text()) && forall|j: int|
                0 <= j < i ==> (#[trigger] all[j]).0 != r.text();
        assert(log[i].0@ == r.text());
        assert forall|j: int| 0 <= j < i implies (#[trigger] log[j]).0@ != r.text() by {
            assert(all[j].0 != r.text());
        }
    }
    if exists|i: int|
        0 <= i < log.len() && (#[trigger] log[i]).0@ == r.text() && log[i].1 is None && forall|j: int|
            0 <= j < i ==> (#[trigger] log[j]).0@ != r.text() {
        let i = choose|i: int|
            0 <= i < log.len() && (#[trigger] log[i]).0@ == r.text() && log[i].1 is None
                && forall|j: int| 0 <= j < i ==> (#[trigger] log[j]).0@ != r.text();
        assert(all[i].0 == r.text());
        let k = choose|k: int|
            0 <= k < all.len() && (#[trigger] all[k]).0 == r.text() && Some(all[k].1)
                == first_outcome(all, r.text()) && forall|j: int|
                0 <= j < k ==> (#[trigger] all[j]).0 != r.text();
        if k < i {
            assert(log[k].0@ != r.text());
        } else if i < k {
            assert(all[i].0 != r.text());
        }
    }
}

proof fn lemma_first_outcome(log: Seq<(Seq<char>, Option<Seq<char>>)>, recipe: Seq<char>)
    ensures
        first_outcome(log, recipe) is Some <==> exists|i: int|
            0 <= i < log.len() && (#[trigger] log[i]).0 == recipe,
        first_outcome(log, recipe) is Some ==> exists|i: int|
            0 <= i < log.len() && (#[trigger] log[i]).0 == recipe && Some(log[i].1)
                == first_outcome(log, recipe) && forall|j: int|
                0 <= j < i ==> (#[trigger] log[j]).0 != recipe,
    decreases log.len(),
{
    if log.len() > 0 && log[0].0 != recipe {
        let rest = log.skip(1);
        lemma_first_outcome(rest, recipe);
        assert(forall|i: int| 0 <= i < rest.len() ==> #[trigger] rest[i] == log[i + 1]);
        if first_outcome(rest, recipe) is Some {
            let i = choose|i: int|
                0 <= i < rest.len() && (#[trigger] rest[i]).0 == recipe && Some(rest[i].1)
                    == first_outcome(rest, recipe) && forall|j: int|
                    0 <= j < i ==> (#[trigger] rest[j]).0 != recipe;
            assert(log[i + 1] == rest[i]);
            assert forall|j: int| 0 <= j < i + 1 implies (#[trigger] log[j]).0 != recipe by {
                if j > 0 {
                    assert(rest[j - 1] == log[j]);
                }
            }
        }
        if exists|i: int| 0 <= i < log.len() && (#[trigger] log[i]).0 == recipe {
            let i = choose|i: int| 0 <= i < log.len() && (#[trigger] log[i]).0 == recipe;
            assert(rest[i - 1] == log[i]);
        }
    } else if log.len() > 0 {
        assert(log[0].0 == recipe);
    }
}

/// What is new is what is there and was not before, in its order.
pub proof fn law_fresh_ids_were_not_there(ids: Seq<u32>, other: Seq<u32>)
    ensures
        without(ids, other) == ids.filter(|id: u32| !other.contains(id)),
    decreases ids.len(),
{
    reveal(Seq::filter);
    if ids.len() > 0 {
        law_fresh_ids_were_not_there(ids.drop_last(), other);
    }
}

/// A card is put onto another in a direction, or loose in a cell of a zone, in its middle.
pub proof fn law_spots_become_placements<'a, C: Codec>(
    env: Env<'a, C>,
    c: Card,
    dir: u8,
    surface: u8,
    p: Place,
    q: u8,
    r: u8,
)
    ensures
        env.card(c) matches Some(id) ==> env.target(Spot::Onto(c, dir)) == Some(
            Placement::Stack { parent_id: id, direction: dir },
        ),
        env.card(c) is None ==> env.target(Spot::Onto(c, dir)) is None,
        env.zone(p) matches Some(z) ==> env.target(Spot::Cell(surface, p, q, r)) == Some(
            Placement::Loose { surface, macro_zone: z, q, r, x: 0, y: 0 },
        ),
        env.zone(p) is None ==> env.target(Spot::Cell(surface, p, q, r)) is None,
{
}

proof fn lemma_met<'a, C: Codec>(
    script: Seq<Step>,
    states: Seq<RunState>,
    seen: Seq<Seq<Seat<'a, C>>>,
    worked: Seq<bool>,
    i: int,
    check: Check,
)
    requires
        passed(script, states, seen, worked),
        0 <= i < script.len() <= usize::MAX,
        match script[i] {
            Step::Need(c) => c == check,
            Step::Poll(_, _, c) => c == check,
            Step::Await(_, _, c) => c == check,
            _ => false,
        },
    ensures
        showed(states, seen, check),
{
    law_passed_run_met_its_demands(script, states, seen, worked, i);
}

/// Where the scenario passes, every client saw the others' souls, took none of them for its
/// own, saw nothing of their inventories, and knew the zone to be watched by all.
pub proof fn law_cross_visibility_shows_the_others<'a, C: Codec>(
    zone: u64,
    states: Seq<RunState>,
    seen: Seq<Seq<Seat<'a, C>>>,
    worked: Seq<bool>,
)
    requires
        passed(cross_visibility_script(zone), states, seen, worked),
    ensures
        showed(states, seen, each(peers(Check::Known(theirs(HUMAN, 0))))),
        showed(states, seen, each(peers(not(Check::IsSoul(theirs(HUMAN, 0)))))),
        showed(states, seen, each(peers(not(Check::Same(mine(HUMAN, 0), theirs(HUMAN, 0)))))),
        showed(
            states,
            seen,
            each(peers(not(Check::Occupied(Place::Inventory(theirs(HUMAN, 0)))))),
        ),
        showed(states, seen, each(Check::WatchedByAll(Place::Zone(zone)))),
{
    let s = cross_visibility_script(zone);
    lemma_met(
        s,
        states,
        seen,
        worked,
        0,
        each(peers(not(Check::Same(mine(HUMAN, 0), theirs(HUMAN, 0))))),
    );
    lemma_met(s, states, seen, worked, 2, each(peers(Check::Known(theirs(HUMAN, 0)))));
    lemma_met(s, states, seen, worked, 3, each(peers(not(Check::IsSoul(theirs(HUMAN, 0))))));
    lemma_met(
        s,
        states,
        seen,
        worked,
        4,
        each(peers(not(Check::Occupied(Place::Inventory(theirs(HUMAN, 0)))))),
    );
    lemma_met(s, states, seen, worked, 6, each(Check::WatchedByAll(Place::Zone(zone))));
}

/// Where the scenario passes, the second client, which did not know the axe, saw it where the
/// first had moved it.
pub proof fn law_move_sync_shows_the_move<'a, C: Codec>(
    zone: u64,
    states: Seq<RunState>,
    seen: Seq<Seq<Seat<'a, C>>>,
    worked: Seq<bool>,
)
    requires
        passed(move_sync_script(zone), states, seen, worked),
    ensures
        showed(states, seen, seen_at(1, not(Check::Known(held_by(0, AXES, 0))))),
        showed(
            states,
            seen,
            seen_at(1, Check::MicroIs(held_by(0, AXES, 0), Who::At(0), MOVED)),
        ),
{
    let s = move_sync_script(zone);
    lemma_met(s, states, seen, worked, 3, seen_at(1, not(Check::Known(held_by(0, AXES, 0)))));
    lemma_met(
        s,
        states,
        seen,
        worked,
        10,
        seen_at(1, Check::MicroIs(held_by(0, AXES, 0), Who::At(0), MOVED)),
    );
}

/// Where the single-recipe scenarios pass: the tally was stocked with one and ended with three,
/// the widget was made with four, and the pair of magnets used each other up.
pub proof fn law_progress_takes_effect<'a, C: Codec>(
    seat: usize,
    set: crate::scenarios::Setting,
    states: Seq<RunState>,
    seen: Seq<Seq<Seat<'a, C>>>,
    worked: Seq<bool>,
)
    ensures
        passed(run_stock_progress_script(seat), states, seen, worked) ==> showed(
            states,
            seen,
            seen_at(seat, Check::Stock(mine(TALLY, 0), 1)),
        ) && showed(states, seen, seen_at(seat, Check::Stock(mine(TALLY, 0), 3))),
        passed(run_forge_as_script(seat), states, seen, worked) ==> showed(
            states,
            seen,
            seen_at(seat, Check::Stock(mine(WIDGET, 0), 4)),
        ),
        passed(run_magnetic_script(seat, set), states, seen, worked) ==> showed(
            states,
            seen,
            seen_at(seat, not(Check::Alive(mine(MAGNET, 0)))),
        ),
{
    let a = run_stock_progress_script(seat);
    let b = run_forge_as_script(seat);
    let c = run_magnetic_script(seat, set);
    if passed(a, states, seen, worked) {
        lemma_met(a, states, seen, worked, 7, seen_at(seat, Check::Stock(mine(TALLY, 0), 1)));
        lemma_met(a, states, seen, worked, 9, seen_at(seat, Check::Stock(mine(TALLY, 0), 3)));
    }
    if passed(b, states, seen, worked) {
        lemma_met(b, states, seen, worked, 9, seen_at(seat, Check::Stock(mine(WIDGET, 0), 4)));
    }
    if passed(c, states, seen, worked) {
        lemma_met(c, states, seen, worked, 8, seen_at(seat, not(Check::Alive(mine(MAGNET, 0)))));
    }
}

/// Where the movement scenarios pass: a step took the soul one tile east, not at once but in
/// the end; a walk took it as far as it was sent; and a step of two tiles was refused.
pub proof fn law_movement_takes_effect<'a, C: Codec>(
    seat: usize,
    dx: i32,
    states: Seq<RunState>,
    seen: Seq<Seq<Seat<'a, C>>>,
    worked: Seq<bool>,
)
    ensures
        passed(run_move_step_script(seat), states, seen, worked) ==> showed(
            states,
            seen,
            seen_at(seat, Check::AtCell(mine(SOULS, 0), START, 0)),
        ) && showed(states, seen, seen_at(seat, Check::AtCell(mine(SOULS, 0), START, 1)))
            && showed(states, seen, seen_at(seat, not(Check::AnyError))),
        passed(run_move_to_script(seat, dx), states, seen, worked) ==> showed(
            states,
            seen,
            seen_at(seat, Check::AtCell(mine(SOULS, 0), START, dx)),
        ) && showed(states, seen, seen_at(seat, not(Check::AnyError))),
        passed(run_move_reject_script(seat), states, seen, worked) ==> showed(
            states,
            seen,
            seen_at(seat, Check::AtCell(mine(SOULS, 0), START, 0)),
        ),
{
    let a = run_move_step_script(seat);
    let b = run_move_to_script(seat, dx);
    let c = run_move_reject_script(seat);
    if passed(a, states, seen, worked) {
        lemma_met(a, states, seen, worked, 7, seen_at(seat, Check::AtCell(mine(SOULS, 0), START, 0)));
        lemma_met(a, states, seen, worked, 9, seen_at(seat, Check::AtCell(mine(SOULS, 0), START, 1)));
        lemma_met(a, states, seen, worked, 10, seen_at(seat, not(Check::AnyError)));
    }
    if passed(b, states, seen, worked) {
        lemma_met(
            b,
            states,
            seen,
            worked,
            5,
            seen_at(seat, Check::AtCell(mine(SOULS, 0), START, dx)),
        );
        lemma_met(b, states, seen, worked, 6, seen_at(seat, not(Check::AnyError)));
    }
    if passed(c, states, seen, worked) {
        lemma_met(c, states, seen, worked, 6, seen_at(seat, Check::AtCell(mine(SOULS, 0), START, 0)));
    }
}

} // verus!
