use std::collections::BTreeSet;

use resonantdust_client::codec::FnCodec;
use resonantdust_client::links::Links;
use resonantdust_client::wire::ClientMsg;
use resonantdust_client::zones::{
    should_close, tier_rank, AnchorRadii, DataType, ZoneIntent, ZoneManager, ZoneNeed, ZoneTier,
    INVENTORY_LAYER, WORLD_LAYER,
};

type Pack = fn(u32, u8, i16, i16) -> u64;
type Region = fn(u64) -> (u64, u8);
type Local = fn(i32) -> (i16, u8);
type Tile = fn(i16, u8) -> i32;
type TestCodec = FnCodec<Pack, Region, Local, Tile>;

fn pack_macro_zone_full(owner: u32, surface: u8, q: i16, r: i16) -> u64 {
    ((owner as u64) << 40) | ((surface as u64) << 32) | ((q as u16 as u64) << 16) | r as u16 as u64
}

fn region_of_zone(zone: u64) -> (u64, u8) {
    let q = (zone >> 16) as u16 as i16;
    let r = zone as u16 as i16;
    let region = (zone >> 32 << 32)
        | ((q.div_euclid(8) as u16 as u64) << 16)
        | r.div_euclid(8) as u16 as u64;
    (region, (r.rem_euclid(8) * 8 + q.rem_euclid(8)) as u8)
}

/// Chunks of seven tiles, centred on tile 3.
fn zone_local(tile: i32) -> (i16, u8) {
    ((tile + 3).div_euclid(7) as i16, (tile + 3).rem_euclid(7) as u8)
}

fn world_tile(chunk: i16, local: u8) -> i32 {
    chunk as i32 * 7 + local as i32 - 3
}

fn manager() -> ZoneManager<TestCodec> {
    ZoneManager::new(FnCodec::new(
        pack_macro_zone_full as Pack,
        region_of_zone as Region,
        zone_local as Local,
        world_tile as Tile,
    ))
}

fn world_zone(cq: i16, cr: i16) -> u64 {
    pack_macro_zone_full(0, WORLD_LAYER, cq, cr)
}

fn soul_radii() -> AnchorRadii {
    AnchorRadii { active: 2, hot: 6, warm: 12, cold: 20 }
}

fn active_two() -> AnchorRadii {
    AnchorRadii { active: 2, ..Default::default() }
}

/// Whether the intents hold an opening or closing of this subscription.
fn has_sub(intents: &[ZoneIntent], zone: u64, dt: DataType, on: bool) -> bool {
    intents.iter().any(|i| matches!(i,
        ZoneIntent::Subscribe { zone: z, data, on: o } if *z == zone && *data == dt && *o == on))
}

#[test]
fn centered_anchor_lights_one_active_zone() {
    let mut zm = manager();
    zm.set_anchor("s", 7, 7, WORLD_LAYER, 0, active_two(), 0, 0);
    assert_eq!(zm.active_zones(), vec![world_zone(1, 1)]);
}

#[test]
fn tiers_nest_and_split_sub_types() {
    let mut zm = manager();
    zm.set_anchor("s", 7, 7, WORLD_LAYER, 0, soul_radii(), 0, 0);
    assert_eq!(zm.tier_of(world_zone(1, 1)), Some(ZoneTier::Active));
    assert_eq!(zm.tier_of(world_zone(0, 0)), Some(ZoneTier::Hot));
    assert_eq!(zm.tier_of(world_zone(3, 3)), Some(ZoneTier::Warm));
    assert_eq!(zm.tier_of(world_zone(4, 4)), Some(ZoneTier::Cold));
    let intents = zm.take_intents();
    assert!(has_sub(&intents, world_zone(1, 1), DataType::Card, true));
    assert!(has_sub(&intents, world_zone(1, 1), DataType::Zone, true));
    assert!(has_sub(&intents, world_zone(0, 0), DataType::Card, true), "hot has a card sub");
    assert!(has_sub(&intents, world_zone(3, 3), DataType::Zone, true), "warm has a zone sub");
    assert!(!has_sub(&intents, world_zone(3, 3), DataType::Card, true), "warm has no card sub");
    assert!(!has_sub(&intents, world_zone(4, 4), DataType::Card, true), "cold has no card sub");
}

#[test]
fn moving_away_makes_candidate_not_immediate_unsub() {
    let mut zm = manager();
    zm.set_anchor("s", 12, 12, WORLD_LAYER, 0, active_two(), 0, 0);
    let z = world_zone(1, 1);
    assert!(zm.open_subs().iter().any(|(zz, _)| *zz == z));
    let _ = zm.take_intents();
    zm.set_anchor("s", 200, 200, WORLD_LAYER, 0, active_two(), 0, 1000);
    let intents = zm.take_intents();
    assert!(!has_sub(&intents, z, DataType::Card, false), "no immediate unsub");
    assert!(
        zm.open_subs().iter().any(|(zz, _)| *zz == z),
        "abandoned zone still subscribed (candidate)"
    );
    assert_eq!(zm.tier_of(z), None);
}

#[test]
fn warmth_closes_a_noisy_candidate() {
    let mut zm = manager();
    zm.set_anchor("s", 12, 12, WORLD_LAYER, 0, active_two(), 0, 0);
    let z = world_zone(1, 1);
    zm.set_anchor("s", 200, 200, WORLD_LAYER, 0, active_two(), 0, 1000);
    let _ = zm.take_intents();
    for _ in 0..5 {
        zm.note_update(z, DataType::Zone, 1000);
    }
    assert!(
        zm.open_subs().iter().any(|(zz, d)| *zz == z && *d == DataType::Zone),
        "held through tolerance"
    );
    zm.note_update(z, DataType::Zone, 1000);
    assert!(
        !zm.open_subs().iter().any(|(zz, d)| *zz == z && *d == DataType::Zone),
        "closed when too warm"
    );
    assert!(has_sub(&zm.take_intents(), z, DataType::Zone, false));
}

#[test]
fn capacity_lru_evicts_oldest_silent_candidate() {
    let mut zm = manager();
    zm.max_open_subs = 2;
    zm.set_anchor("s", 7, 7, WORLD_LAYER, 0, active_two(), 0, 0);
    let z1 = world_zone(1, 1);
    assert!(zm.open_subs().iter().any(|(zz, _)| *zz == z1));
    zm.set_anchor("s", 175, 175, WORLD_LAYER, 0, active_two(), 0, 10);
    let z2 = world_zone(25, 25);
    assert!(zm.open_subs().iter().any(|(zz, _)| *zz == z2), "new zone subscribed");
    assert!(
        !zm.open_subs().iter().any(|(zz, _)| *zz == z1),
        "LRU evicted the older silent candidate"
    );
}

#[test]
fn zone_needs_track_region_bits() {
    fn need(zm: &ZoneManager<TestCodec>, z: u64) -> Option<ZoneNeed> {
        zm.zone_needs().into_iter().find(|(zz, _)| *zz == z).map(|(_, n)| n)
    }
    let mut zm = manager();
    zm.set_anchor("s", 7, 7, WORLD_LAYER, 0, active_two(), 0, 0);
    let z = world_zone(1, 1);
    let (region, bit) = region_of_zone(z);
    let mask = 1u64 << bit;
    assert_eq!(need(&zm, z), Some(ZoneNeed::Ensure));
    zm.note_region(region, mask, 0, u16::MAX);
    assert_eq!(need(&zm, z), Some(ZoneNeed::Request));
    zm.note_region(region, mask, mask, u16::MAX);
    assert_eq!(need(&zm, z), Some(ZoneNeed::Satisfied));
}

#[test]
fn memory_freezes_on_leave_and_reads_live_when_present() {
    let mut zm = manager();
    let soul = 7000u32;
    let z = world_zone(1, 1);
    zm.set_anchor("soul:7000", 12, 12, WORLD_LAYER, 0, active_two(), soul, 100);
    assert_eq!(zm.card_view_time(soul, z, 999), Some(999), "present, so live");
    assert!(zm.zone_card_pins(z).is_empty(), "present soul doesn't pin stale rows");
    zm.set_anchor("soul:7000", 999, 999, WORLD_LAYER, 0, active_two(), soul, 5000);
    assert_eq!(zm.card_view_time(soul, z, 9999), Some(100), "left, so frozen");
    assert_eq!(zm.zone_card_pins(z), vec![100], "frozen watermark pins the zone's stale rows");
}

#[test]
fn memory_lru_forgets_least_recently_present_zone() {
    let mut zm = manager();
    zm.max_memory_zones = 1;
    let soul = 7000u32;
    let z1 = world_zone(1, 1);
    zm.set_anchor("soul:7000", 7, 7, WORLD_LAYER, 0, active_two(), soul, 10);
    zm.set_anchor("soul:7000", 175, 175, WORLD_LAYER, 0, active_two(), soul, 20);
    assert_eq!(zm.card_view_time(soul, z1, 99), None, "least-recently-present zone forgotten");
    assert_eq!(
        zm.card_view_time(soul, world_zone(25, 25), 99),
        Some(99),
        "current zone kept (present)"
    );
}

#[test]
fn ensure_inventory_survives_anchor_recompute() {
    let mut zm = manager();
    let soul = 1234u32;
    zm.ensure_inventory(soul, 0);
    let inv = pack_macro_zone_full(soul, INVENTORY_LAYER, 0, 0);
    assert_eq!(zm.tier_of(inv), Some(ZoneTier::Active));
    zm.set_anchor("s", 12, 12, WORLD_LAYER, 0, soul_radii(), 0, 0);
    assert_eq!(zm.tier_of(inv), Some(ZoneTier::Active), "inventory hold survives");
    zm.release(inv, 0);
    assert_eq!(zm.tier_of(inv), None);
}

#[test]
fn regions_follow_the_tile_subscriptions() {
    let mut zm = manager();
    let z = world_zone(1, 1);
    let (region, _) = region_of_zone(z);
    zm.set_anchor("s", 7, 7, WORLD_LAYER, 0, active_two(), 0, 0);
    assert!(zm.take_intents().contains(&ZoneIntent::Region { region, subscribed: true }));
    assert!(zm.take_intents().is_empty());
    assert_eq!(zm.open_sub_count(), 2);
    assert_eq!(zm.region_of(z), region);
}

#[test]
fn presence_is_read_off_the_region() {
    let mut zm = manager();
    let z = world_zone(1, 1);
    let (region, bit) = region_of_zone(z);
    assert!(!zm.is_zone_present(z));
    zm.note_region(region, 1u64 << bit, 0, 0);
    assert!(zm.is_zone_present(z));
    zm.note_region_removed(region);
    assert!(!zm.is_zone_present(z));
}

#[test]
fn clearing_an_anchor_drops_its_zones() {
    let mut zm = manager();
    zm.set_anchor("a", 7, 7, WORLD_LAYER, 0, active_two(), 0, 0);
    zm.set_anchor("b", 175, 175, WORLD_LAYER, 0, active_two(), 0, 0);
    zm.clear_anchor("a", 10);
    assert_eq!(zm.active_zones(), vec![world_zone(25, 25)]);
    zm.clear_anchor("nobody", 10);
    assert_eq!(zm.zones_in(ZoneTier::Active), vec![world_zone(25, 25)]);
    assert!(zm.zones_in(ZoneTier::Cold).is_empty());
}

#[test]
fn two_holds_take_two_releases() {
    let mut zm = manager();
    let z = world_zone(9, 9);
    zm.ensure(z, 0);
    zm.ensure(z, 0);
    zm.release(z, 0);
    assert_eq!(zm.tier_of(z), Some(ZoneTier::Active));
    zm.release(z, 0);
    assert_eq!(zm.tier_of(z), None);
    zm.release(z, 0);
    assert_eq!(zm.tier_of(z), None);
}

#[test]
fn the_tightest_tier_wins() {
    let mut zm = manager();
    zm.set_anchor("wide", 7, 7, WORLD_LAYER, 0, AnchorRadii { active: 0, hot: 0, warm: 0, cold: 2 }, 0, 0);
    assert_eq!(zm.tier_of(world_zone(1, 1)), Some(ZoneTier::Cold));
    zm.set_anchor("tight", 7, 7, WORLD_LAYER, 0, active_two(), 0, 0);
    assert_eq!(zm.tier_of(world_zone(1, 1)), Some(ZoneTier::Active));
    assert!(tier_rank(ZoneTier::Active) > tier_rank(ZoneTier::Hot));
    assert!(tier_rank(ZoneTier::Warm) > tier_rank(ZoneTier::Cold));
}

#[test]
fn silence_never_closes_a_subscription() {
    for t in [0u64, 1000, 60_000, u64::MAX] {
        assert!(!should_close(0, t));
    }
    assert!(!should_close(5, 0));
    assert!(should_close(6, 0));
}

#[test]
fn cells_are_located_and_unfolded() {
    let zm = manager();
    assert_eq!(zm.locate(0, WORLD_LAYER, 20, 22), (world_zone(3, 3), 2, 4));
    assert_eq!(zm.world_tile(3, 2), 20);
    assert_eq!(zm.inventory(6), pack_macro_zone_full(6, INVENTORY_LAYER, 0, 0));
}

#[test]
fn a_noisy_candidate_survives_less_the_longer_it_is_gone() {
    let minute = 60_000u64;
    assert!(!should_close(5, 5 * minute - 1));
    assert!(should_close(5, 5 * minute) && !should_close(3, 5 * minute));
    assert!(should_close(3, 15 * minute) && should_close(1, 15 * minute));
}

#[test]
fn setting_the_same_anchor_again_decides_nothing() {
    let mut zm = manager();
    zm.set_anchor("s", 7, 7, WORLD_LAYER, 0, soul_radii(), 0, 50);
    let _ = zm.take_intents();
    let open = zm.open_subs();
    zm.set_anchor("s", 7, 7, WORLD_LAYER, 0, soul_radii(), 0, 50);
    assert!(zm.take_intents().is_empty());
    assert_eq!(zm.open_subs(), open);
}

#[test]
fn a_wanted_subscription_is_never_evicted() {
    let mut zm = manager();
    zm.max_open_subs = 1;
    zm.set_anchor("s", 7, 7, WORLD_LAYER, 0, active_two(), 0, 0);
    // Both are wanted, so both stay above the ceiling.
    assert_eq!(zm.open_sub_count(), 2);
}

#[test]
fn carrying_out_the_decisions_gives_the_open_subscriptions() {
    let mut zm = manager();
    let mut links = Links::new();
    let mut subs: BTreeSet<u32> = BTreeSet::new();
    let mut regions = 0i32;
    for (at, now) in [(7, 0u64), (175, 1000), (9, 2000), (400, 3000)] {
        zm.max_open_subs = 6;
        zm.set_anchor("s", at, at, WORLD_LAYER, 0, active_two(), 0, now);
        let said = zm.take_intents();
        for msg in links.carry_out_all(&said) {
            match msg {
                ClientMsg::Sub { sid, table, .. } => {
                    assert!(subs.insert(sid), "ids are used once");
                    if table == "regions" {
                        regions += 1;
                    }
                }
                ClientMsg::Unsub { sid } => assert!(subs.remove(&sid)),
                other => panic!("unexpected frame {other:?}"),
            }
        }
        let held: i32 = zm
            .open_subs()
            .iter()
            .filter(|(_, d)| *d == DataType::Zone)
            .map(|(z, _)| zm.region_of(*z))
            .collect::<BTreeSet<u64>>()
            .len() as i32;
        assert_eq!(subs.len(), zm.open_sub_count() + held as usize);
    }
    assert!(regions > 0);
}

#[test]
fn a_soul_without_an_anchor_is_frozen_where_it_was() {
    let mut zm = manager();
    zm.set_anchor("soul:7", 7, 7, WORLD_LAYER, 0, active_two(), 7, 100);
    let z = world_zone(1, 1);
    assert_eq!(zm.card_view_time(7, z, 4999), Some(4999));
    zm.clear_anchor("soul:7", 5000);
    assert_eq!(zm.tier_of(z), None);
    let open = zm.open_subs();
    assert!(open.contains(&(z, DataType::Card)) && open.contains(&(z, DataType::Zone)));
    assert_eq!(zm.card_view_time(7, z, 9999), Some(100));
    assert_eq!(zm.zone_card_pins(z), vec![100]);
    assert_eq!(zm.zone_tile_pins(z), vec![100]);
    // It stays so, whoever else comes and goes, until its own anchor is back.
    zm.set_anchor("soul:8", 7, 7, WORLD_LAYER, 0, active_two(), 8, 6000);
    assert_eq!(zm.card_view_time(7, z, 9999), Some(100));
    assert_eq!(zm.card_view_time(8, z, 9999), Some(9999));
    zm.set_anchor("soul:7", 7, 7, WORLD_LAYER, 0, active_two(), 7, 7000);
    assert_eq!(zm.card_view_time(7, z, 9999), Some(9999));
    assert!(zm.zone_card_pins(z).is_empty());
}

#[test]
fn an_anchor_that_changes_souls_freezes_the_first() {
    let mut zm = manager();
    let z = world_zone(1, 1);
    zm.set_anchor("eye", 7, 7, WORLD_LAYER, 0, active_two(), 7, 100);
    zm.set_anchor("eye", 7, 7, WORLD_LAYER, 0, active_two(), 8, 200);
    assert_eq!(zm.card_view_time(7, z, 999), Some(100));
    assert_eq!(zm.card_view_time(8, z, 999), Some(999));
    assert_eq!(zm.zone_card_pins(z), vec![100]);
}

#[test]
fn a_soul_with_two_anchors_covers_what_either_does() {
    let mut zm = manager();
    zm.set_anchor("a", 7, 7, WORLD_LAYER, 0, active_two(), 7, 100);
    zm.set_anchor("b", 70, 70, WORLD_LAYER, 0, active_two(), 7, 200);
    let (near, far) = (world_zone(1, 1), world_zone(10, 10));
    assert_eq!(zm.card_view_time(7, near, 999), Some(999));
    assert_eq!(zm.card_view_time(7, far, 999), Some(999));
    zm.clear_anchor("a", 300);
    assert_eq!(zm.card_view_time(7, near, 999), Some(200));
    assert_eq!(zm.card_view_time(7, far, 999), Some(999));
}

#[test]
fn the_memory_of_a_soul_without_an_anchor_is_bounded_too() {
    let mut zm = manager();
    zm.set_max_memory_zones(1);
    zm.set_anchor("a", 7, 7, WORLD_LAYER, 0, active_two(), 7, 100);
    zm.set_anchor("b", 70, 70, WORLD_LAYER, 0, active_two(), 7, 200);
    zm.clear_anchor("a", 300);
    zm.clear_anchor("b", 400);
    let known = [world_zone(1, 1), world_zone(10, 10)];
    let left = known.iter().filter(|z| zm.card_view_time(7, **z, 999).is_some()).count();
    assert_eq!(left, 1);
    assert_eq!(zm.card_view_time(7, known[1], 999), Some(300));
}

#[test]
fn bounds_can_be_set() {
    let mut zm = manager();
    assert_eq!((zm.max_open_subs, zm.max_memory_zones), (512, 4096));
    zm.set_max_open_subs(2);
    assert_eq!((zm.max_open_subs, zm.max_memory_zones), (2, 4096));
    zm.set_anchor("s", 7, 7, WORLD_LAYER, 0, active_two(), 0, 0);
    zm.set_anchor("s", 70, 70, WORLD_LAYER, 0, active_two(), 0, 10);
    assert_eq!(zm.open_sub_count(), 2);
    assert_eq!(zm.open_subs().len(), 2);
}

#[test]
fn decisions_come_in_order() {
    let mut zm = manager();
    let z = world_zone(1, 1);
    let (region, _) = region_of_zone(z);
    zm.set_anchor("s", 7, 7, WORLD_LAYER, 0, active_two(), 0, 0);
    assert_eq!(
        zm.take_intents(),
        vec![
            ZoneIntent::Subscribe { zone: z, data: DataType::Card, on: true },
            ZoneIntent::Subscribe { zone: z, data: DataType::Zone, on: true },
            ZoneIntent::Region { region, subscribed: true },
        ]
    );
    assert!(zm.take_intents().is_empty());
    // What is opened comes before what the ceiling takes back.
    zm.set_max_open_subs(2);
    zm.set_anchor("s", 700, 700, WORLD_LAYER, 0, active_two(), 0, 10);
    let said = zm.take_intents();
    let first_off = said.iter().position(|x| matches!(x, ZoneIntent::Subscribe { on: false, .. }));
    let last_on = said.iter().rposition(|x| matches!(x, ZoneIntent::Subscribe { on: true, .. }));
    assert!(last_on.unwrap() < first_off.unwrap());
    assert_eq!(said.last(), Some(&ZoneIntent::Region { region, subscribed: false }));
}

#[test]
fn a_run_of_drains_replays_to_what_is_open() {
    let mut zm = manager();
    zm.set_max_open_subs(6);
    let mut open: BTreeSet<(u64, bool)> = BTreeSet::new();
    let mut regions: BTreeSet<u64> = BTreeSet::new();
    let held = world_zone(3, 3);
    for step in 0..40u64 {
        match step % 5 {
            0 => zm.set_anchor("s", (step * 9) as i32, 7, WORLD_LAYER, 0, soul_radii(), 0, step),
            1 => zm.ensure(held, step),
            2 => zm.note_update(world_zone(1, 1), DataType::Zone, 900_000 + step),
            3 => zm.release(held, step),
            _ => zm.clear_anchor("s", step),
        }
        if step % 3 == 0 {
            for x in zm.take_intents() {
                match x {
                    ZoneIntent::Subscribe { zone, data, on } => {
                        let k = (zone, data == DataType::Card);
                        assert!(if on { open.insert(k) } else { open.remove(&k) }, "no idle decision");
                    }
                    ZoneIntent::Region { region, subscribed } => {
                        assert!(if subscribed { regions.insert(region) } else { regions.remove(&region) });
                    }
                }
            }
            let now: BTreeSet<(u64, bool)> =
                zm.open_subs().iter().map(|(z, d)| (*z, *d == DataType::Card)).collect();
            assert_eq!(open, now);
            let lie: BTreeSet<u64> =
                now.iter().filter(|k| !k.1).map(|k| region_of_zone(k.0).0).collect();
            assert_eq!(regions, lie);
        }
    }
}

#[test]
fn holds_outlast_fewer_releases() {
    let mut zm = manager();
    let z = world_zone(50, 50);
    for t in 0..3 {
        zm.ensure(z, t);
        zm.set_anchor("s", t as i32 * 30, 0, WORLD_LAYER, 0, active_two(), 0, t);
    }
    let open = zm.open_subs();
    for k in 1..5u64 {
        zm.release(z, 10 + k);
        assert_eq!(zm.tier_of(z), if k < 3 { Some(ZoneTier::Active) } else { None });
        assert_eq!(zm.open_subs(), open);
    }
}

#[test]
fn warm_zones_never_stream_cards() {
    let mut zm = manager();
    let radii = AnchorRadii { warm: 2, ..Default::default() };
    let z = world_zone(1, 1);
    zm.set_anchor("s", 7, 7, WORLD_LAYER, 0, radii, 0, 0);
    zm.set_anchor("s", 70, 70, WORLD_LAYER, 0, radii, 0, 1);
    let open = zm.open_subs();
    assert!(open.contains(&(z, DataType::Zone)));
    assert!(open.iter().all(|k| k.1 == DataType::Zone));
}
