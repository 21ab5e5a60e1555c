//! What a move writes, and what is committed of it.
use vstd::prelude::*;

use crate::codec::Codec;
use crate::moves::{Placement, PlacementArgs, Write};
use crate::realm::Known;
use crate::rows::{CardRow, Micro};

verus! {

use crate::client::ClientState;
use crate::history::latest_at;
use crate::moves::{
    cleared, law_move_shows, move_call, places, row_in, Board, Moved, MovesState, Rows,
};
use crate::wire::{CallView, MsgView};

/// `row` is the row of the card at `now`: of those whose time has come the one with the
/// largest stamp, whose upper bits are its millisecond.
pub open spec fn is_row_at(rows: Rows, id: u32, now: u64, row: CardRow) -> bool {
    exists|k: u64| #[trigger]
        is_stamp_at(rows, id, now, k) && rows[id as u64][k] == row
}

/// `k` is the largest stamp of the card whose millisecond has come.
pub open spec fn is_stamp_at(rows: Rows, id: u32, now: u64, k: u64) -> bool {
    &&& rows.dom().contains(id as u64)
    &&& rows[id as u64].dom().contains(k)
    &&& k / 0x1_0000 <= now
    &&& forall|j: u64| #[trigger]
        rows[id as u64].dom().contains(j) && j / 0x1_0000 <= now ==> j <= k
}

/// The current row is the latest whose time has come.
pub proof fn law_current_row_is_the_latest_due(rows: Rows, id: u32, now: u64, row: CardRow)
    ensures
        row_in(rows, id, now) == Some(row) <==> is_row_at(rows, id, now, row),
{
    let hist = if rows.dom().contains(id as u64) {
        rows[id as u64]
    } else {
        Map::empty()
    };
    if row_in(rows, id, now) == Some(row) {
        let k = choose|k: u64| latest_at(hist.dom(), now, k);
        assert(latest_at(hist.dom(), now, k));
        assert(is_stamp_at(rows, id, now, k));
    }
    if is_row_at(rows, id, now, row) {
        let k = choose|k: u64| #[trigger]
            is_stamp_at(rows, id, now, k) && rows[id as u64][k] == row;
        assert(latest_at(hist.dom(), now, k));
        let l = choose|l: u64| latest_at(hist.dom(), now, l);
        assert(latest_at(hist.dom(), now, l));
        assert(l == k);
    }
}

/// The call commits the rows of cards as they are: entry by entry the id of a card, and the
/// zone, the cell and the masked flags of its row at `now`.
pub open spec fn commits_rows(
    call: CallView,
    rows: Rows,
    caller: u32,
    now: u64,
    pmask: u32,
) -> bool {
    call matches CallView::MoveCards {
        client_time_ms,
        caller_player_id,
        card_ids,
        macro_zones,
        micro_locations,
        stack_states,
    } && {
        &&& client_time_ms == now
        &&& caller_player_id == caller
        &&& macro_zones.len() == card_ids.len()
        &&& micro_locations.len() == card_ids.len()
        &&& stack_states.len() == card_ids.len()
        &&& forall|i: int|
            0 <= i < card_ids.len() ==> is_placed(
                rows,
                now,
                pmask,
                #[trigger] card_ids[i],
                macro_zones[i],
                micro_locations[i],
                stack_states[i],
            )
    }
}

/// The row of the card at `now` has this zone, this cell and, under the mask, these flags.
pub open spec fn is_placed(
    rows: Rows,
    now: u64,
    pmask: u32,
    id: u32,
    macro_zone: u64,
    micro_location: u32,
    stack_state: u8,
) -> bool {
    exists|row: CardRow| #[trigger]
        is_row_at(rows, id, now, row) && macro_zone == row.macro_zone && micro_location
            == row.micro_location && stack_state == (row.flags & pmask) as u8
}

/// A commit carries the place of every card it names as its current row has it; it names
/// the cards of the list that are known, in the order of the list, and no others.
pub proof fn law_commit_carries_current_places(
    rows: Rows,
    ids: Seq<u32>,
    caller: u32,
    now: u64,
    pmask: u32,
)
    ensures
        commits_rows(
            move_call(places(rows, ids, now, pmask), caller, now),
            rows,
            caller,
            now,
            pmask,
        ),
        move_call(places(rows, ids, now, pmask), caller, now)->card_ids == ids.filter(
            |id: u32| exists|row: CardRow| is_row_at(rows, id, now, row),
        ),
{
    let moved = places(rows, ids, now, pmask);
    let call = move_call(moved, caller, now);
    lemma_places(rows, ids, now, pmask);
    assert forall|i: int| 0 <= i < call->card_ids.len() implies is_placed(
        rows,
        now,
        pmask,
        #[trigger] call->card_ids[i],
        call->macro_zones[i],
        call->micro_locations[i],
        call->stack_states[i],
    ) by {
        let row = row_in(rows, moved[i].card_id, now)->0;
        law_current_row_is_the_latest_due(rows, moved[i].card_id, now, row);
        assert(is_row_at(rows, call->card_ids[i], now, row));
    }
    lemma_named(rows, ids, now, pmask);
}

proof fn lemma_places(rows: Rows, ids: Seq<u32>, now: u64, pmask: u32)
    ensures
        forall|i: int|
            0 <= i < places(rows, ids, now, pmask).len() ==> {
                let m = #[trigger] places(rows, ids, now, pmask)[i];
                &&& row_in(rows, m.card_id, now) is Some
                &&& m.macro_zone == row_in(rows, m.card_id, now)->0.macro_zone
                &&& m.micro_location == row_in(rows, m.card_id, now)->0.micro_location
                &&& m.stack_state == (row_in(rows, m.card_id, now)->0.flags & pmask) as u8
            },
    decreases ids.len(),
{
    if ids.len() > 0 {
        lemma_places(rows, ids.drop_last(), now, pmask);
    }
}

proof fn lemma_named(rows: Rows, ids: Seq<u32>, now: u64, pmask: u32)
    ensures
        places(rows, ids, now, pmask).map_values(|m: Moved| m.card_id) == ids.filter(
            |id: u32| exists|row: CardRow| is_row_at(rows, id, now, row),
        ),
    decreases ids.len(),
{
    reveal(Seq::filter);
    let f = |id: u32| exists|row: CardRow| is_row_at(rows, id, now, row);
    let g = |m: Moved| m.card_id;
    if ids.len() > 0 {
        let rest = ids.drop_last();
        let id = ids.last();
        lemma_named(rows, rest, now, pmask);
        if row_in(rows, id, now) is Some {
            law_current_row_is_the_latest_due(rows, id, now, row_in(rows, id, now)->0);
            assert(f(id));
            assert(places(rows, ids, now, pmask).map_values(g) =~= places(
                rows,
                rest,
                now,
                pmask,
            ).map_values(g).push(id));
        } else {
            assert(!f(id)) by {
                if f(id) {
                    let row = choose|row: CardRow| is_row_at(rows, id, now, row);
                    law_current_row_is_the_latest_due(rows, id, now, row);
                }
            }
        }
    } else {
        assert(places(rows, ids, now, pmask).map_values(g) =~= ids.filter(f));
    }
}

/// A written place is the place committed: after one write of a known card, a commit of any
/// list that names the card, at the same moment, carries the zone, the cell and the masked
/// flags that were written. (A row of the same millisecond that is stamped later is shown
/// in its stead.)
pub proof fn law_written_place_is_committed(
    b: Board,
    w: Write,
    ids: Seq<u32>,
    caller: u32,
    now: u64,
    pmask: u32,
)
    requires
        now < 0x1_0000_0000_0000,
        exists|row: CardRow| is_row_at(b.rows, w.card_id, now, row),
        forall|k: u64|
            b.rows.dom().contains(w.card_id as u64) && #[trigger] b.rows[w.card_id as u64].dom().contains(
                k,
            ) && k / 0x1_0000 <= now ==> k <= now * 0x1_0000 + b.seq,
        ids.contains(w.card_id),
    ensures
        ({
            let call = move_call(
                places(b.written(w, now, pmask).rows, ids, now, pmask),
                caller,
                now,
            );
            &&& call->card_ids.contains(w.card_id)
            &&& forall|i: int|
                0 <= i < call->card_ids.len() && #[trigger] call->card_ids[i] == w.card_id ==> {
                    &&& call->macro_zones[i] == w.to.macro_zone
                    &&& call->micro_locations[i] == w.to.micro_location
                    &&& call->stack_states[i] == (w.to.flags & pmask) as u8
                }
        }),
{
    let row = choose|row: CardRow| is_row_at(b.rows, w.card_id, now, row);
    law_current_row_is_the_latest_due(b.rows, w.card_id, now, row);
    law_move_shows(b, w, now, pmask);
    let rows = b.written(w, now, pmask).rows;
    let after = row_in(rows, w.card_id, now)->0;
    law_current_row_is_the_latest_due(rows, w.card_id, now, after);
    let (f, m) = (row.flags, w.to.flags);
    assert(((f & !pmask) | (m & pmask)) & pmask == m & pmask) by (bit_vector);
    law_commit_carries_current_places(rows, ids, caller, now, pmask);
    let moved = places(rows, ids, now, pmask);
    let call = move_call(moved, caller, now);
    lemma_places(rows, ids, now, pmask);
    lemma_kept(ids, |id: u32| exists|r: CardRow| is_row_at(rows, id, now, r), w.card_id);
    assert forall|i: int|
        0 <= i < call->card_ids.len() && #[trigger] call->card_ids[i] == w.card_id implies {
        &&& call->macro_zones[i] == w.to.macro_zone
        &&& call->micro_locations[i] == w.to.micro_location
        &&& call->stack_states[i] == (w.to.flags & pmask) as u8
    } by {
        assert(moved[i].card_id == w.card_id);
    }
}

proof fn lemma_kept(ids: Seq<u32>, f: spec_fn(u32) -> bool, id: u32)
    ensures
        ids.filter(f).contains(id) <==> f(id) && ids.contains(id),
    decreases ids.len(),
{
    reveal(Seq::filter);
    if ids.len() > 0 {
        let rest = ids.drop_last();
        lemma_kept(rest, f, id);
        assert(ids[ids.len() - 1] == ids.last());
        if ids.contains(id) && id != ids.last() {
            let k = ids.index_of(id);
            assert(rest[k] == id);
        }
        if rest.contains(id) {
            let k = rest.index_of(id);
            assert(ids[k] == id);
        }
        let a = rest.filter(f);
        let b = ids.filter(f);
        if a.contains(id) {
            let k = a.index_of(id);
            assert(b[k] == id);
        }
        if b.contains(id) && !a.contains(id) {
            let k = b.index_of(id);
            if k < a.len() {
                assert(a[k] == id);
            }
        }
        if f(id) && id == ids.last() {
            assert(b[a.len() as int] == id);
        }
    }
}

/// A write changes of a known card where it is, and its flags where the mask says so, under
/// a stamp of this millisecond and the next sequence number; of every other card nothing.
/// The card is dirty then, counts as moved, and the root of the stack it came to is to be
/// matched again.
pub proof fn law_write_moves_one_card(
    b: Board,
    w: Write,
    now: u64,
    pmask: u32,
    row: CardRow,
    other: u32,
)
    requires
        now < 0x1_0000_0000_0000,
        is_row_at(b.rows, w.card_id, now, row),
        other != w.card_id,
    ensures
        ({
            let after = b.written(w, now, pmask);
            let stamp = (now * 0x1_0000 + b.seq) as u64;
            let new = after.rows[w.card_id as u64][stamp];
            &&& after.rows.dom() == b.rows.dom()
            &&& after.rows[w.card_id as u64].dom() == b.rows[w.card_id as u64].dom().insert(stamp)
            &&& forall|k: u64|
                k != stamp && b.rows[w.card_id as u64].dom().contains(k)
                    ==> #[trigger] after.rows[w.card_id as u64][k] == b.rows[w.card_id as u64][k]
            &&& after.rows[other as u64] == b.rows[other as u64]
            &&& new.valid_at == stamp
            &&& new.macro_zone == w.to.macro_zone
            &&& new.surface == w.to.surface
            &&& new.chunk_q == w.to.chunk_q
            &&& new.chunk_r == w.to.chunk_r
            &&& new.micro_location == w.to.micro_location
            &&& new.micro == w.to.micro
            &&& new.flags & pmask == w.to.flags & pmask
            &&& new.flags & !pmask == row.flags & !pmask
            &&& (new.card_id, new.owner_id, new.packed_definition, new.is_soul) == (
                row.card_id,
                row.owner_id,
                row.packed_definition,
                row.is_soul,
            )
            &&& (new.flags_bk, new.pos_need, new.pos_held, new.dead, new.stock) == (
                row.flags_bk,
                row.pos_need,
                row.pos_held,
                row.dead,
                row.stock,
            )
            &&& after.dirty == b.dirty.insert(w.card_id as u64)
            &&& after.moved == b.moved.push(w.card_id)
            &&& b.seq < 0xFFFF ==> after.seq == b.seq + 1
            &&& b.seq == 0xFFFF ==> after.seq == 0
        }),
{
    law_current_row_is_the_latest_due(b.rows, w.card_id, now, row);
    let after = b.written(w, now, pmask);
    assert(now % 0x1_0000_0000_0000 == now);
    let (f, m) = (row.flags, w.to.flags);
    assert(((f & !pmask) | (m & pmask)) & pmask == m & pmask) by (bit_vector);
    assert(((f & !pmask) | (m & pmask)) & !pmask == f & !pmask) by (bit_vector);
    assert(after.rows.dom() =~= b.rows.dom());
    let stamp = (now * 0x1_0000 + b.seq) as u64;
    assert(after.rows[w.card_id as u64].dom() =~= b.rows[w.card_id as u64].dom().insert(stamp));
}

/// The root that is matched again after a write is that of the card's stack: itself where
/// it now lies loose.
pub proof fn law_write_marks_the_stack_it_came_to(b: Board, w: Write, now: u64, pmask: u32, k: u64)
    requires
        now < 0x1_0000_0000_0000,
        exists|row: CardRow| is_row_at(b.rows, w.card_id, now, row),
        forall|k: u64|
            b.rows.dom().contains(w.card_id as u64) && #[trigger] b.rows[w.card_id as u64].dom().contains(
                k,
            ) && k / 0x1_0000 <= now ==> k <= now * 0x1_0000 + b.seq,
    ensures
        b.written(w, now, pmask).roots.contains(k) <==> b.roots.contains(k)
            || match w.to.micro {
            Micro::Stacked { root, .. } => k == root as u64,
            Micro::Loose { .. } => k == w.card_id as u64,
        },
{
    let row = choose|row: CardRow| is_row_at(b.rows, w.card_id, now, row);
    law_current_row_is_the_latest_due(b.rows, w.card_id, now, row);
    law_move_shows(b, w, now, pmask);
}

/// A write of a card that is not known changes nothing.
pub proof fn law_unknown_cards_are_passed_over(b: Board, w: Write, now: u64, pmask: u32)
    requires
        !exists|row: CardRow| is_row_at(b.rows, w.card_id, now, row),
    ensures
        b.written(w, now, pmask) == b,
{
    if row_in(b.rows, w.card_id, now) is Some {
        let row = row_in(b.rows, w.card_id, now)->0;
        law_current_row_is_the_latest_due(b.rows, w.card_id, now, row);
    }
}

/// The writes of a plan take effect one after the other.
pub proof fn law_plans_are_carried_out_in_order(
    b: Board,
    first: Seq<Write>,
    w: Write,
    now: u64,
    pmask: u32,
)
    ensures
        b.planned(Seq::empty(), now, pmask) == b,
        b.planned(first.push(w), now, pmask) == b.planned(first, now, pmask).written(w, now, pmask),
{
    assert(first.push(w).drop_last() =~= first);
}

/// After a commit no card of the list is dirty, and no other is less dirty than before.
pub proof fn law_committed_cards_are_clean(dirty: Set<u64>, ids: Seq<u32>, k: u64)
    ensures
        cleared(dirty, ids).contains(k) <==> dirty.contains(k) && !(exists|i: int|
            0 <= i < ids.len() && #[trigger] ids[i] as u64 == k),
    decreases ids.len(),
{
    if ids.len() > 0 {
        let rest = ids.drop_last();
        law_committed_cards_are_clean(dirty, rest, k);
        assert(ids[ids.len() - 1] == ids.last());
        if exists|i: int| 0 <= i < rest.len() && #[trigger] rest[i] as u64 == k {
            let i = choose|i: int| 0 <= i < rest.len() && #[trigger] rest[i] as u64 == k;
            assert(ids[i] as u64 == k);
        }
        if exists|i: int| 0 <= i < ids.len() && #[trigger] ids[i] as u64 == k {
            let i = choose|i: int| 0 <= i < ids.len() && #[trigger] ids[i] as u64 == k;
            if i < rest.len() {
                assert(rest[i] as u64 == k);
            }
        }
    }
}

/// A move is committed at once exactly where one of the moved cards is a soul or a
/// container, or stands in a zone that more than one client watches.
pub proof fn law_watched_moves_are_committed_at_once<'a>(
    s: MovesState,
    known: &Known<'a>,
    ids: Seq<u32>,
)
    ensures
        s.must_sync(known, ids) <==> exists|i: int, row: CardRow|
            #![trigger ids[i], is_row_at(known.world.cards@, ids[i], known.now, row)]
            0 <= i < ids.len() && is_row_at(known.world.cards@, ids[i], known.now, row) && (
            row.is_soul || known.is_container(row.packed_definition) || (s.watched.dom().contains(
                row.macro_zone,
            ) && s.watched[row.macro_zone] >= 2)),
{
    assert forall|id: u32| known.world.cards.at(id, known.now) == row_in(
        known.world.cards@,
        id,
        known.now,
    ) by {}
    if s.must_sync(known, ids) {
        let i = choose|i: int| 0 <= i < ids.len() && s.commits_at_once(known, #[trigger] ids[i]);
        assert(known.world.cards.at(ids[i], known.now) == row_in(
            known.world.cards@,
            ids[i],
            known.now,
        ));
        let row = row_in(known.world.cards@, ids[i], known.now)->0;
        law_current_row_is_the_latest_due(known.world.cards@, ids[i], known.now, row);
        assert(is_row_at(known.world.cards@, ids[i], known.now, row));
    }
    if exists|i: int, row: CardRow|
        #![trigger ids[i], is_row_at(known.world.cards@, ids[i], known.now, row)]
        0 <= i < ids.len() && is_row_at(known.world.cards@, ids[i], known.now, row) && (row.is_soul
            || known.is_container(row.packed_definition) || (s.watched.dom().contains(
            row.macro_zone,
        ) && s.watched[row.macro_zone] >= 2)) {
        let (i, row) = choose|i: int, row: CardRow|
            #![trigger ids[i], is_row_at(known.world.cards@, ids[i], known.now, row)]
            0 <= i < ids.len() && is_row_at(known.world.cards@, ids[i], known.now, row) && (
            row.is_soul || known.is_container(row.packed_definition) || (s.watched.dom().contains(
                row.macro_zone,
            ) && s.watched[row.macro_zone] >= 2));
        law_current_row_is_the_latest_due(known.world.cards@, ids[i], known.now, row);
        assert(known.world.cards.at(ids[i], known.now) == Some(row));
        assert(s.commits_at_once(known, ids[i]));
    }
}

/// What is heard of a zone's watchers is kept where there is more than one, and forgotten
/// where not; of other zones nothing changes.
pub proof fn law_watchers_are_remembered(s: MovesState, zone: u64, observers: u32, other: u64)
    ensures
        s.heard(zone, observers).dirty == s.dirty,
        s.heard(zone, observers).seq == s.seq,
        s.heard(zone, observers).watched.dom().contains(zone) <==> observers >= 2,
        observers >= 2 ==> s.heard(zone, observers).watched[zone] == observers,
        observers >= 2 ==> s.heard(zone, observers).watchers(zone) == observers,
        observers < 2 ==> s.heard(zone, observers).watchers(zone) == 0,
        other != zone ==> s.heard(zone, observers).watchers(other) == s.watchers(other),
{
}

/// A placement on a stack and one on a cell are told apart, and neither loses anything.
pub proof fn law_flat_placement_is_unambiguous(
    p: Placement,
    q: Placement,
    a: PlacementArgs,
    b: PlacementArgs,
)
    requires
        p.flat(a),
        q.flat(b),
        a == b,
    ensures
        p == q,
        p is Stack <==> a.kind == 0,
        p is Loose <==> a.kind == 1,
{
}

/// What is flushed is every dirty card that is known, with the place its current row has;
/// nothing is sent where there is none, and then no call number is used up.
pub proof fn law_flush_sends_every_dirty_card<C: Codec>(s: ClientState<C>, ids: Seq<u32>)
    requires
        crate::realm::lists_set(ids, s.moves.dirty),
    ensures
        ({
            let (after, out) = s.flushed();
            let any = exists|id: u32, row: CardRow| #[trigger]
                is_row_at(s.world.cards@, id, s.pulse.ms, row) && s.moves.dirty.contains(id as u64);
            &&& after.moves.dirty == Set::<u64>::empty()
            &&& after.moves.seq == s.moves.seq
            &&& after.moves.watched == s.moves.watched
            &&& (after.world, after.realm, after.queue, after.asks, after.roots) == (
                s.world,
                s.realm,
                s.queue,
                s.asks,
                s.roots,
            )
            &&& any ==> out.len() == 1 && (out[0] matches MsgView::Call { cid, call } && cid
                == s.pulse.next_cid && commits_rows(
                call,
                s.world.cards@,
                match s.player_id {
                    Some(id) => id,
                    None => 0,
                },
                s.pulse.ms,
                s.pmask,
            ) && forall|id: u32, row: CardRow| #[trigger]
                is_row_at(s.world.cards@, id, s.pulse.ms, row) ==> (call->card_ids.contains(id)
                    <==> s.moves.dirty.contains(id as u64)))
            &&& !any ==> out.len() == 0 && after.pulse == s.pulse
        }),
{
    crate::realm::lemma_listing(ids, s.moves.dirty);
    crate::moves::law_flush_clears(s.moves.dirty, ids);
    let rows = s.world.cards@;
    let now = s.pulse.ms;
    let f = |id: u32| exists|row: CardRow| is_row_at(rows, id, now, row);
    let caller: u32 = match s.player_id {
        Some(id) => id,
        None => 0,
    };
    law_commit_carries_current_places(rows, ids, caller, now, s.pmask);
    let moved = places(rows, ids, now, s.pmask);
    let call = move_call(moved, caller, now);
    assert(call->card_ids.len() == moved.len());
    assert forall|id: u32, row: CardRow| #[trigger] is_row_at(rows, id, now, row) implies (
    call->card_ids.contains(id) <==> s.moves.dirty.contains(id as u64)) by {
        lemma_kept(ids, f, id);
        assert(f(id));
        assert((id as u64) as u32 == id);
        assert(s.moves.dirty.contains(id as u64) <==> ids.contains((id as u64) as u32));
    }
    if moved.len() > 0 {
        let id = call->card_ids[0];
        assert(call->card_ids.contains(id));
        lemma_kept(ids, f, id);
        let row = choose|row: CardRow| is_row_at(rows, id, now, row);
        assert(is_row_at(rows, id, now, row));
    }
    if exists|id: u32, row: CardRow| #[trigger]
        is_row_at(rows, id, now, row) && s.moves.dirty.contains(id as u64) {
        let (id, row) = choose|id: u32, row: CardRow| #[trigger]
            is_row_at(rows, id, now, row) && s.moves.dirty.contains(id as u64);
        assert(call->card_ids.contains(id));
    }
}

/// A flat placement says where: on which parent and in which direction, or on which surface,
/// in which zone and cell, and where in it, as two halves of a word, across in the upper.
pub proof fn law_flat_placement_says_where(p: Placement, a: PlacementArgs)
    requires
        p.flat(a),
    ensures
        p matches Placement::Stack { parent_id, direction } ==> a.kind == 0 && a.parent_id
            == parent_id && a.direction == direction,
        p matches Placement::Loose { surface, macro_zone, q, r, x, y } ==> {
            &&& a.kind == 1
            &&& a.surface == surface
            &&& a.macro_zone == macro_zone
            &&& a.q == q
            &&& a.r == r
            &&& a.xy == (if x >= 0 {
                x as int
            } else {
                x + 0x1_0000
            }) * 0x1_0000 + (if y >= 0 {
                y as int
            } else {
                y + 0x1_0000
            })
        },
{
}

} // verus!
