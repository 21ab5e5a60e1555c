//! What holds of a zone manager over whole runs of calls.
use vstd::prelude::*;

use crate::codec::Codec;
use crate::zones::{Anchor, DataType, RegionBits, ZoneIntent, ZoneManager, ZoneTier};

verus! {

use crate::subs::{
    announces, evicted, is_change, law_decisions_replay, lookup, regions_in, replayed,
    replayed_regions, touched, wants, SubKey,
};
use crate::zones::{best_tier, named, released, tier_from, without_anchor};

/// One call on a zone manager.
pub ghost enum ZoneStep {
    SetAnchor { name: Seq<char>, anchor: Anchor, now: u64 },
    ClearAnchor { name: Seq<char>, now: u64 },
    Ensure { zone: u64, now: u64 },
    Release { zone: u64, now: u64 },
    Update { zone: u64, data: DataType, now: u64 },
    Region { region: u64, bits: RegionBits },
    RegionGone { region: u64 },
    Bounds { subs: usize, memory: usize },
    /// The decisions are drained.
    Drain,
}

/// `new` is `old` after the call.
pub open spec fn stepped<C: Codec>(old: ZoneManager<C>, step: ZoneStep, new: ZoneManager<C>) -> bool {
    match step {
        ZoneStep::SetAnchor { name, anchor, now } => new.anchored_from(&old, name, anchor, now),
        ZoneStep::ClearAnchor { name, now } => if named(old.anchors(), name) is None {
            new == old
        } else {
            new.recomputed(&old, without_anchor(old.anchors(), name), old.refs(), now)
        },
        ZoneStep::Ensure { zone, now } => new.held_from(&old, zone, now),
        ZoneStep::Release { zone, now } => new.recomputed(
            &old,
            old.anchors(),
            released(old.refs(), zone),
            now,
        ),
        ZoneStep::Update { zone, data, now } => new.updated_from(&old, zone, data, now),
        ZoneStep::Region { region, bits } => new.same_but_bits(&old) && new.bits()
            == old.bits().insert(region, bits),
        ZoneStep::RegionGone { region } => new.same_but_bits(&old) && new.bits()
            == old.bits().remove(region),
        ZoneStep::Bounds { subs, memory } => new.same_but_caps(&old) && new.sub_cap() == subs
            && new.memory_cap() == memory,
        ZoneStep::Drain => new.same_but_pending(&old) && new.pending() == Seq::<
            ZoneIntent,
        >::empty(),
    }
}

/// The states are those of a run from a new manager, one call after the other.
pub open spec fn is_zone_run<C: Codec>(
    codec: C,
    states: Seq<ZoneManager<C>>,
    steps: Seq<ZoneStep>,
) -> bool {
    &&& states.len() == steps.len() + 1
    &&& states[0].is_new(codec)
    &&& forall|i: int| 0 <= i < states.len() ==> (#[trigger] states[i]).wf()
    &&& forall|i: int|
        0 <= i < steps.len() ==> stepped(states[i], #[trigger] steps[i], states[i + 1])
}

/// A run without its last call is a run.
proof fn lemma_shorter<C: Codec>(codec: C, states: Seq<ZoneManager<C>>, steps: Seq<ZoneStep>)
    requires
        is_zone_run(codec, states, steps),
        steps.len() > 0,
    ensures
        is_zone_run(codec, states.drop_last(), steps.drop_last()),
        states.drop_last().last() == states[steps.len() - 1],
        states.last() == states[steps.len() as int],
        stepped(states.drop_last().last(), steps.last(), states.last()),
        states.drop_last().last().wf(),
        states.last().wf(),
{
    let (s, t) = (states.drop_last(), steps.drop_last());
    assert forall|i: int| 0 <= i < s.len() implies (#[trigger] s[i]).wf() by {
        assert(states[i].wf());
    }
    assert forall|i: int| 0 <= i < t.len() implies stepped(s[i], #[trigger] t[i], s[i + 1]) by {
        assert(t[i] == steps[i]);
    }
    assert(states[steps.len() - 1].wf());
    assert(states[steps.len() as int].wf());
    assert(steps[steps.len() - 1] == steps.last());
}

/// Everything that was drained over a run, in order.
pub open spec fn drained<C: Codec>(states: Seq<ZoneManager<C>>, steps: Seq<ZoneStep>) -> Seq<ZoneIntent>
    decreases steps.len(),
{
    if steps.len() == 0 {
        Seq::empty()
    } else {
        let before = drained(states, steps.drop_last());
        match steps.last() {
            ZoneStep::Drain => before + states[steps.len() - 1].pending(),
            _ => before,
        }
    }
}

/// Each decision changes what it speaks of: a subscription that is opened was closed, and
/// the other way round; so with regions.
pub open spec fn each_flips(open: Set<SubKey>, regions: Set<u64>, said: Seq<ZoneIntent>) -> bool {
    forall|i: int| 0 <= i < said.len() ==> #[trigger] flips(open, regions, said, i)
}

/// The decision at `i` changes what it speaks of.
pub open spec fn flips(open: Set<SubKey>, regions: Set<u64>, said: Seq<ZoneIntent>, i: int) -> bool {
    match said[i] {
        ZoneIntent::Subscribe { zone, data, on } => replayed(open, said.take(i)).contains(
            (zone, data),
        ) == !on,
        ZoneIntent::Region { region, subscribed } => replayed_regions(
            regions,
            said.take(i),
        ).contains(region) == !subscribed,
    }
}

/// Decisions carried out in two goes end where they end in one.
proof fn lemma_replay_joins(open: Set<SubKey>, regions: Set<u64>, a: Seq<ZoneIntent>, b: Seq<ZoneIntent>)
    ensures
        replayed(open, a + b) == replayed(replayed(open, a), b),
        replayed_regions(regions, a + b) == replayed_regions(replayed_regions(regions, a), b),
    decreases b.len(),
{
    if b.len() == 0 {
        assert(a + b =~= a);
    } else {
        assert((a + b).drop_last() =~= a + b.drop_last());
        assert((a + b).last() == b.last());
        lemma_replay_joins(open, regions, a, b.drop_last());
    }
}

/// What a list does not speak of stays as it is.
proof fn lemma_untouched(open: Set<SubKey>, regions: Set<u64>, said: Seq<ZoneIntent>)
    ensures
        forall|k: SubKey|
            !said.contains(ZoneIntent::Subscribe { zone: k.0, data: k.1, on: true })
                && !said.contains(ZoneIntent::Subscribe { zone: k.0, data: k.1, on: false })
                ==> #[trigger] replayed(open, said).contains(k) == open.contains(k),
        forall|r: u64|
            !said.contains(ZoneIntent::Region { region: r, subscribed: true }) && !said.contains(
                ZoneIntent::Region { region: r, subscribed: false },
            ) ==> #[trigger] replayed_regions(regions, said).contains(r) == regions.contains(r),
    decreases said.len(),
{
    if said.len() > 0 {
        let rest = said.drop_last();
        lemma_untouched(open, regions, rest);
        assert(said[said.len() - 1] == said.last());
        assert forall|x: ZoneIntent| rest.contains(x) implies said.contains(x) by {
            let i = rest.index_of(x);
            assert(said[i] == x);
        }
        assert forall|k: SubKey|
            !said.contains(ZoneIntent::Subscribe { zone: k.0, data: k.1, on: true })
                && !said.contains(
                ZoneIntent::Subscribe { zone: k.0, data: k.1, on: false },
            ) implies #[trigger] replayed(open, said).contains(k) == open.contains(k) by {
            assert(replayed(open, rest).contains(k) == open.contains(k));
            match said.last() {
                ZoneIntent::Subscribe { zone, data, on } => {
                    assert((zone, data) != k);
                },
                _ => {},
            }
        }
        assert forall|r: u64|
            !said.contains(ZoneIntent::Region { region: r, subscribed: true }) && !said.contains(
                ZoneIntent::Region { region: r, subscribed: false },
            ) implies #[trigger] replayed_regions(regions, said).contains(r)
            == regions.contains(r) by {
            assert(replayed_regions(regions, rest).contains(r) == regions.contains(r));
        }
    }
}

/// What is announced flips what it speaks of.
proof fn lemma_announced_flips<C: Codec>(
    codec: C,
    said: Seq<ZoneIntent>,
    before: Set<SubKey>,
    after: Set<SubKey>,
)
    requires
        announces(codec, said, before, after),
    ensures
        each_flips(before, regions_in(codec, before), said),
{
    let regions = regions_in(codec, before);
    assert forall|i: int| 0 <= i < said.len() implies #[trigger] flips(before, regions, said, i) by {
        let earlier = said.take(i);
        let x = said[i];
        assert(said.contains(x));
        assert(is_change(codec, before, after, x));
        lemma_untouched(before, regions, earlier);
        assert forall|y: ZoneIntent| earlier.contains(y) implies said.contains(y) && y != x by {
            let j = earlier.index_of(y);
            assert(said[j] == y);
        }
        match x {
            ZoneIntent::Subscribe { zone, data, on } => {
                let back = ZoneIntent::Subscribe { zone, data, on: !on };
                assert(!is_change(codec, before, after, back));
                assert(!said.contains(back));
                assert(!earlier.contains(back) && !earlier.contains(x));
                let k = (zone, data);
                assert(replayed(before, earlier).contains(k) == before.contains(k));
            },
            ZoneIntent::Region { region, subscribed } => {
                let back = ZoneIntent::Region { region, subscribed: !subscribed };
                assert(!is_change(codec, before, after, back));
                assert(!said.contains(back));
                assert(!earlier.contains(back) && !earlier.contains(x));
                assert(replayed_regions(regions, earlier).contains(region) == regions.contains(
                    region,
                ));
            },
        }
    }
}

/// Two lists that flip, one after the other, flip together.
proof fn lemma_flips_join(open: Set<SubKey>, regions: Set<u64>, a: Seq<ZoneIntent>, b: Seq<ZoneIntent>)
    requires
        each_flips(open, regions, a),
        each_flips(replayed(open, a), replayed_regions(regions, a), b),
    ensures
        each_flips(open, regions, a + b),
{
    let s = a + b;
    assert forall|i: int| 0 <= i < s.len() implies #[trigger] flips(open, regions, s, i) by {
        if i < a.len() {
            assert(s.take(i) =~= a.take(i));
            assert(flips(open, regions, a, i));
        } else {
            let j = i - a.len();
            assert(s.take(i) =~= a + b.take(j));
            lemma_replay_joins(open, regions, a, b.take(j));
            assert(flips(replayed(open, a), replayed_regions(regions, a), b, j));
        }
    }
}

/// One call either says what it changes, or changes no subscription and says nothing.
proof fn lemma_step_says<C: Codec>(old: ZoneManager<C>, step: ZoneStep, new: ZoneManager<C>)
    requires
        stepped(old, step, new),
    ensures
        new.codec() == old.codec(),
        !(step is Drain) ==> old.pending().len() <= new.pending().len() && new.pending().take(
            old.pending().len() as int,
        ) == old.pending() && announces(
            old.codec(),
            new.pending().skip(old.pending().len() as int),
            old.subs().dom(),
            new.subs().dom(),
        ),
        step is Drain ==> new.subs() == old.subs() && new.pending().len() == 0,
{
    if !(step is Drain) {
        let n = old.pending().len() as int;
        if new.pending() == old.pending() && new.subs() == old.subs() {
            assert(new.pending().take(n) =~= old.pending());
            let said = new.pending().skip(n);
            assert(said =~= Seq::empty());
        }
    }
}

/// A driver that carries out, in order, everything it ever drained, and then what is still
/// to be drained, ends up with exactly the subscriptions that are open and the regions they
/// lie in, and no decision is idle: over any run of calls. Right after a drain nothing is
/// left, so that what was drained is all there is to carry out.
pub proof fn law_run_replays<C: Codec>(
    codec: C,
    states: Seq<ZoneManager<C>>,
    steps: Seq<ZoneStep>,
)
    requires
        is_zone_run(codec, states, steps),
    ensures
        states.last().codec() == codec,
        replayed(Set::empty(), drained(states, steps) + states.last().pending())
            == states.last().subs().dom(),
        replayed_regions(Set::empty(), drained(states, steps) + states.last().pending())
            == regions_in(codec, states.last().subs().dom()),
        each_flips(
            Set::empty(),
            Set::empty(),
            drained(states, steps) + states.last().pending(),
        ),
        steps.len() > 0 && steps.last() is Drain ==> states.last().pending().len() == 0 && drained(
            states,
            steps,
        ) + states.last().pending() == drained(states, steps),
    decreases steps.len(),
{
    let none = Set::<SubKey>::empty();
    let nowhere = Set::<u64>::empty();
    let last = states.last();
    if steps.len() == 0 {
        assert(last == states[0]);
        assert(drained(states, steps) + last.pending() =~= Seq::empty());
        assert(last.subs().dom() =~= none);
        assert(regions_in(codec, none) =~= nowhere);
    } else {
        let (s, t) = (states.drop_last(), steps.drop_last());
        lemma_shorter(codec, states, steps);
        law_run_replays(codec, s, t);
        let prev = s.last();
        lemma_step_says(prev, steps.last(), last);
        lemma_drained_prefix(states, s, t);
        let a = drained(s, t) + prev.pending();
        let all = drained(states, steps) + last.pending();
        if steps.last() is Drain {
            assert(all =~= a);
            assert(all =~= drained(states, steps));
        } else {
            let said = last.pending().skip(prev.pending().len() as int);
            assert(all =~= a + said) by {
                assert(last.pending() =~= prev.pending() + said);
            }
            let (k0, k1) = (prev.subs().dom(), last.subs().dom());
            law_decisions_replay(codec, said, k0, k1);
            lemma_announced_flips(codec, said, k0, k1);
            lemma_replay_joins(none, nowhere, a, said);
            lemma_flips_join(none, nowhere, a, said);
        }
    }
}

/// What was drained depends on the states up to then.
proof fn lemma_drained_prefix<C: Codec>(
    states: Seq<ZoneManager<C>>,
    s: Seq<ZoneManager<C>>,
    steps: Seq<ZoneStep>,
)
    requires
        s.len() >= steps.len(),
        states.len() >= s.len(),
        s == states.take(s.len() as int),
    ensures
        drained(states, steps) == drained(s, steps),
    decreases steps.len(),
{
    if steps.len() > 0 {
        lemma_drained_prefix(states, s, steps.drop_last());
        assert(s[steps.len() - 1] == states[steps.len() - 1]);
    }
}

/// The subscriptions after one call: what is open was open, or its tier asks for it now.
proof fn lemma_step_opens<C: Codec>(old: ZoneManager<C>, step: ZoneStep, new: ZoneManager<C>, k: SubKey)
    requires
        stepped(old, step, new),
        new.wf(),
        new.subs().dom().contains(k),
        !old.subs().dom().contains(k),
    ensures
        wants(k.1, lookup(new.tiers(), k.0)),
{
    new.lemma_wf();
    match step {
        ZoneStep::Update { zone, data, now } => {
            assert(lookup(new.subs(), k) is Some);
            assert(lookup(old.subs(), k) is None);
        },
        _ => {},
    }
}

/// Which subscriptions are open after any run of calls: the tiles of every tracked zone, the
/// cards of every Active or Hot one; and none for the cards of a zone that only ever was
/// Warm, Cold or untracked.
pub proof fn law_run_opens<C: Codec>(
    codec: C,
    states: Seq<ZoneManager<C>>,
    steps: Seq<ZoneStep>,
    zone: u64,
)
    requires
        is_zone_run(codec, states, steps),
    ensures
        lookup(states.last().tiers(), zone) is Some ==> states.last().subs().dom().contains(
            (zone, DataType::Zone),
        ),
        wants(DataType::Card, lookup(states.last().tiers(), zone))
            ==> states.last().subs().dom().contains((zone, DataType::Card)),
        (forall|i: int|
            0 <= i < states.len() ==> !wants(
                DataType::Card,
                lookup((#[trigger] states[i]).tiers(), zone),
            )) ==> !states.last().subs().dom().contains((zone, DataType::Card)),
    decreases steps.len(),
{
    let last = states.last();
    assert(states[states.len() - 1].wf());
    last.lemma_wf();
    assert(wants(DataType::Zone, lookup(last.tiers(), zone)) ==> last.subs().dom().contains(
        (zone, DataType::Zone),
    ));
    let k = (zone, DataType::Card);
    if (forall|i: int|
        0 <= i < states.len() ==> !wants(
            DataType::Card,
            lookup((#[trigger] states[i]).tiers(), zone),
        )) {
        if steps.len() > 0 {
            let (s, t) = (states.drop_last(), steps.drop_last());
            lemma_shorter(codec, states, steps);
            assert forall|i: int| 0 <= i < s.len() implies !wants(
                DataType::Card,
                lookup((#[trigger] s[i]).tiers(), zone),
            ) by {
                assert(s[i] == states[i]);
            }
            law_run_opens(codec, s, t, zone);
            if last.subs().dom().contains(k) {
                lemma_step_opens(s.last(), steps.last(), last, k);
                assert(!wants(DataType::Card, lookup(states[states.len() - 1].tiers(), zone)));
            }
        } else {
            assert(last == states[0]);
        }
    }
}

/// How often a zone is held after a run: each hold counts, as far as counts go; each release
/// takes one back, and one too many does no harm.
pub open spec fn hold_count(steps: Seq<ZoneStep>, zone: u64) -> nat
    decreases steps.len(),
{
    if steps.len() == 0 {
        0
    } else {
        let before = hold_count(steps.drop_last(), zone);
        if is_hold(steps.last(), zone) && before < u64::MAX {
            before + 1
        } else if is_release(steps.last(), zone) && before > 0 {
            (before - 1) as nat
        } else {
            before
        }
    }
}

/// The call holds the zone.
pub open spec fn is_hold(step: ZoneStep, zone: u64) -> bool {
    step matches ZoneStep::Ensure { zone: z, .. } && z == zone
}

/// The call gives up a hold on the zone.
pub open spec fn is_release(step: ZoneStep, zone: u64) -> bool {
    step matches ZoneStep::Release { zone: z, .. } && z == zone
}

/// How many calls hold the zone.
pub open spec fn holds(steps: Seq<ZoneStep>, zone: u64) -> nat
    decreases steps.len(),
{
    if steps.len() == 0 {
        0
    } else {
        holds(steps.drop_last(), zone) + if is_hold(steps.last(), zone) {
            1nat
        } else {
            0nat
        }
    }
}

/// How many calls give up a hold on the zone.
pub open spec fn releases(steps: Seq<ZoneStep>, zone: u64) -> nat
    decreases steps.len(),
{
    if steps.len() == 0 {
        0
    } else {
        releases(steps.drop_last(), zone) + if is_release(steps.last(), zone) {
            1nat
        } else {
            0nat
        }
    }
}

/// No hold on the zone comes after a release of it.
pub open spec fn held_first(steps: Seq<ZoneStep>, zone: u64) -> bool {
    forall|i: int, j: int|
        0 <= i < j < steps.len() ==> !(is_release(#[trigger] steps[i], zone) && is_hold(
            #[trigger] steps[j],
            zone,
        ))
}

/// Over any run of calls a zone is held exactly as often as the holds and releases leave it,
/// whatever anchors come and go: it is Active while it is held, and else what the anchors
/// make of it, which is nothing where none covers it.
pub proof fn law_run_counts_holds<C: Codec>(
    codec: C,
    states: Seq<ZoneManager<C>>,
    steps: Seq<ZoneStep>,
    zone: u64,
)
    requires
        is_zone_run(codec, states, steps),
    ensures
        states.last().refs().dom().contains(zone) <==> hold_count(steps, zone) > 0,
        hold_count(steps, zone) > 0 ==> states.last().refs()[zone] == hold_count(steps, zone)
            && lookup(states.last().tiers(), zone) == Some(ZoneTier::Active),
        hold_count(steps, zone) == 0 ==> lookup(states.last().tiers(), zone) == best_tier(
            codec,
            states.last().anchors(),
            zone,
        ),
    decreases steps.len(),
{
    let last = states.last();
    assert(states[states.len() - 1].wf());
    law_run_replays(codec, states, steps);
    if steps.len() == 0 {
        assert(last == states[0]);
    } else {
        let (s, t) = (states.drop_last(), steps.drop_last());
        lemma_shorter(codec, states, steps);
        law_run_counts_holds(codec, s, t, zone);
        let (old, step) = (s.last(), steps.last());
        match step {
            ZoneStep::Ensure { zone: z, now } => {
                if old.refs().dom().contains(z) {
                    assert(last.refs().dom() =~= old.refs().dom());
                }
            },
            _ => {},
        }
    }
    last.lemma_wf();
    assert(lookup(last.tiers(), zone) == tier_from(codec, last.anchors(), last.refs(), zone));
}

/// Held `n` times and then released `k` times, whatever else comes between, a zone that no
/// anchor covers is Active as long as `k < n`, and untracked from then on.
pub proof fn law_holds_outlast_releases<C: Codec>(
    codec: C,
    states: Seq<ZoneManager<C>>,
    steps: Seq<ZoneStep>,
    zone: u64,
)
    requires
        is_zone_run(codec, states, steps),
        held_first(steps, zone),
        holds(steps, zone) <= u64::MAX,
        best_tier(codec, states.last().anchors(), zone) is None,
    ensures
        lookup(states.last().tiers(), zone) == if releases(steps, zone) < holds(steps, zone) {
            Some(ZoneTier::Active)
        } else {
            None
        },
{
    lemma_hold_count(steps, zone);
    law_run_counts_holds(codec, states, steps, zone);
}

proof fn lemma_hold_count(steps: Seq<ZoneStep>, zone: u64)
    requires
        held_first(steps, zone),
        holds(steps, zone) <= u64::MAX,
    ensures
        hold_count(steps, zone) == if releases(steps, zone) < holds(steps, zone) {
            (holds(steps, zone) - releases(steps, zone)) as nat
        } else {
            0
        },
    decreases steps.len(),
{
    if steps.len() > 0 {
        let rest = steps.drop_last();
        assert forall|i: int, j: int| 0 <= i < j < rest.len() implies !(is_release(
            #[trigger] rest[i],
            zone,
        ) && is_hold(#[trigger] rest[j], zone)) by {
            assert(!(is_release(steps[i], zone) && is_hold(steps[j], zone)));
        }
        lemma_hold_count(rest, zone);
        if is_hold(steps.last(), zone) {
            assert(releases(rest, zone) == 0) by {
                lemma_no_release(rest, steps, zone);
            }
        }
    }
}

proof fn lemma_no_release(rest: Seq<ZoneStep>, steps: Seq<ZoneStep>, zone: u64)
    requires
        held_first(steps, zone),
        steps.len() > rest.len(),
        rest == steps.take(rest.len() as int),
        is_hold(steps.last(), zone),
    ensures
        releases(rest, zone) == 0,
    decreases rest.len(),
{
    if rest.len() > 0 {
        let shorter = rest.drop_last();
        assert(shorter =~= steps.take(shorter.len() as int));
        lemma_no_release(shorter, steps, zone);
        assert(steps[rest.len() - 1] == rest.last());
        assert(steps[steps.len() - 1] == steps.last());
        assert(!(is_release(steps[rest.len() - 1], zone) && is_hold(steps[steps.len() - 1], zone)));
    }
}

/// A release closes nothing while the ceiling allows what is open: the subscriptions of the
/// zone stay, as candidates, and no decision is added.
pub proof fn law_release_closes_nothing<C: Codec>(
    old: ZoneManager<C>,
    new: ZoneManager<C>,
    zone: u64,
    now: u64,
)
    requires
        old.wf(),
        new.wf(),
        stepped(old, ZoneStep::Release { zone, now }, new),
        old.subs().dom().len() <= old.sub_cap(),
    ensures
        new.subs().dom() == old.subs().dom(),
        new.pending() == old.pending(),
{
    old.lemma_wf();
    new.lemma_wf();
    let t = touched(old.subs(), new.tiers(), now);
    assert forall|k: SubKey| t.dom().contains(k) <==> old.subs().dom().contains(k) by {
        if wants(k.1, lookup(new.tiers(), k.0)) {
            assert(lookup(new.tiers(), k.0) == tier_from(
                old.codec(),
                old.anchors(),
                new.refs(),
                k.0,
            ));
            assert(lookup(old.tiers(), k.0) == tier_from(
                old.codec(),
                old.anchors(),
                old.refs(),
                k.0,
            ));
            assert(wants(k.1, lookup(old.tiers(), k.0)));
            assert(old.subs().dom().contains(k));
        }
    }
    assert(t.dom() =~= old.subs().dom());
    assert(evicted(t, new.subs(), new.sub_cap() as nat));
    let n = old.pending().len() as int;
    let said = new.pending().skip(n);
    assert(said =~= Seq::empty()) by {
        if said.len() > 0 {
            assert(said.contains(said[0]));
            assert(is_change(old.codec(), old.subs().dom(), new.subs().dom(), said[0]));
        }
    }
    assert(new.pending() =~= new.pending().take(n));
}

} // verus!
