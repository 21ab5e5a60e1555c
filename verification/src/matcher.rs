//! The recipe matcher: which recipes apply to a root, with which bindings.
//!
//! Whether a recipe's input lines hold of a candidate is asked of a `judge`, and
//! whether a card shows an aspect of a `shows` function; everything around those
//! two questions is decided here.
use vstd::prelude::*;

use crate::actions::{copy_bindings, copy_ids, same_bindings};
use crate::codec::Codec;
use crate::content::{is_empty_text, Content, RecipeIter, RecipeMeta};
use crate::rows::{CardRow, Micro};
use crate::text::{parse_u64, spells, split_text};
use crate::world::{CardView, TileView, World};
use crate::zones::{ZoneManager, WORLD_LAYER};

verus! {

use crate::actions::deep;
use crate::content::texts;
use crate::text::{number, runs, segments};
use crate::world::{is_members, stacked_on, view_of, Cards};

/// A recipe that applies, with the bindings that satisfy it.
#[derive(Debug)]
pub struct RecipeMatch {
    pub recipe: String,
    /// The root to propose: zero when it was folded into a branch.
    pub root: u32,
    pub bindings: Vec<Vec<u32>>,
    /// Matched against live data rather than a memory.
    pub live: bool,
    /// How many input lines the recipe has.
    pub input_count: usize,
}

/// The ids among the bindings that stand for cards.
pub open spec fn bound_count(bindings: Seq<Seq<u32>>) -> nat
    decreases bindings.len(),
{
    if bindings.len() == 0 {
        0
    } else {
        bound_count(bindings.drop_last()) + nonzero_count(bindings.last())
    }
}

/// The ids that are not zero.
pub open spec fn nonzero_count(ids: Seq<u32>) -> nat
    decreases ids.len(),
{
    if ids.len() == 0 {
        0
    } else {
        nonzero_count(ids.drop_last()) + if ids.last() != 0 {
            1nat
        } else {
            0nat
        }
    }
}

/// A count as far as it can be told.
pub open spec fn capped(n: nat) -> usize {
    if n <= usize::MAX {
        n as usize
    } else {
        usize::MAX
    }
}

impl RecipeMatch {
    /// How specific the match is: input lines first, then bound cards.
    pub open spec fn rank(&self) -> (usize, usize) {
        (self.input_count, capped(bound_count(deep(self.bindings@))))
    }

    pub fn priority(&self) -> (p: (usize, usize))
        ensures
            p == self.rank(),
    {
        let n: usize = self.bindings.len();
        let ghost all = deep(self.bindings@);
        let mut bound: usize = 0;
        let mut i: usize = 0;
        assert(all.take(0) =~= Seq::empty());
        while i < n
            invariant
                n == self.bindings@.len(),
                i <= n,
                all == deep(self.bindings@),
                bound == capped(bound_count(all.take(i as int))),
            decreases n - i,
        {
            let ids = &self.bindings[i];
            let ghost before = bound_count(all.take(i as int));
            proof {
                assert(all.take(i + 1).drop_last() =~= all.take(i as int));
                assert(all.take(i + 1).last() == ids@);
                assert(ids@.take(0) =~= Seq::empty());
            }
            let m: usize = ids.len();
            let mut j: usize = 0;
            while j < m
                invariant
                    m == ids@.len(),
                    j <= m,
                    bound == capped(before + nonzero_count(ids@.take(j as int))),
                decreases m - j,
            {
                proof {
                    assert(ids@.take(j + 1).drop_last() =~= ids@.take(j as int));
                    assert(ids@.take(j + 1).last() == ids@[j as int]);
                }
                if ids[j] != 0 {
                    bound = bound.saturating_add(1);
                }
                j = j + 1;
            }
            assert(ids@.take(m as int) =~= ids@);
            i = i + 1;
        }
        assert(all.take(n as int) =~= all);
        (self.input_count, bound)
    }
}

/// The first rank is at least the second.
pub open spec fn rank_ge(a: (usize, usize), b: (usize, usize)) -> bool {
    a.0 > b.0 || (a.0 == b.0 && a.1 >= b.1)
}

/// The card's place in its stack, with the id to tell equal indices apart.
pub open spec fn stack_key(row: CardRow) -> int {
    match row.micro {
        Micro::Stacked { index, .. } => index as int * 0x1_0000_0000 + row.card_id as int,
        Micro::Loose { .. } => row.card_id as int,
    }
}

/// The card may not be bound at `now`: it is dead, or claimed.
pub open spec fn is_held(cards: Cards, id: u32, now: u64) -> bool {
    cards.at(id, now) matches Some(row) && row.blocked()
}

/// `id` is a member of the branch, as of `t`, and free as of `skip` if that is asked.
pub open spec fn in_branch(
    cards: Cards,
    root: u32,
    branch: u8,
    t: u64,
    skip: Option<u64>,
    id: u32,
) -> bool {
    &&& cards.at(id, t) matches Some(row) && (row.micro matches Micro::Stacked {
        root: at,
        branch: b,
        ..
    } && at == root && b == branch)
    &&& skip matches Some(now) ==> !is_held(cards, id, now)
}

/// `ids` lists the members of the branch in stack order.
pub open spec fn is_chain(
    cards: Cards,
    root: u32,
    branch: u8,
    t: u64,
    skip: Option<u64>,
    ids: Seq<u32>,
) -> bool {
    &&& forall|id: u32| #[trigger]
        ids.contains(id) <==> in_branch(cards, root, branch, t, skip, id)
    &&& forall|a: int, b: int|
        0 <= a < b < ids.len() ==> stack_key(cards.at(#[trigger] ids[a], t)->0) < stack_key(
            cards.at(#[trigger] ids[b], t)->0,
        )
}

/// The members of the branch in stack order.
pub open spec fn chain_of(
    cards: Cards,
    root: u32,
    branch: u8,
    t: u64,
    skip: Option<u64>,
) -> Seq<u32> {
    choose|ids: Seq<u32>| is_chain(cards, root, branch, t, skip, ids)
}

/// There is only one way to list a branch in stack order.
proof fn lemma_chain_unique(
    cards: Cards,
    t: u64,
    a: Seq<u32>,
    b: Seq<u32>,
)
    requires
        forall|id: u32| #[trigger] a.contains(id) <==> b.contains(id),
        forall|x: int, y: int|
            0 <= x < y < a.len() ==> stack_key(cards.at(#[trigger] a[x], t)->0) < stack_key(
                cards.at(#[trigger] a[y], t)->0,
            ),
        forall|x: int, y: int|
            0 <= x < y < b.len() ==> stack_key(cards.at(#[trigger] b[x], t)->0) < stack_key(
                cards.at(#[trigger] b[y], t)->0,
            ),
    ensures
        a == b,
    decreases a.len(),
{
    if a.len() == 0 {
        if b.len() > 0 {
            assert(b.contains(b[0]));
            assert(a.contains(b[0]));
        }
        assert(a =~= b);
    } else {
        let la = a.last();
        assert(a.contains(la)) by {
            assert(a[a.len() - 1] == la);
        }
        let j = b.index_of(la);
        assert(b[j] == la);
        let lb = b.last();
        assert(b.contains(lb)) by {
            assert(b[b.len() - 1] == lb);
        }
        assert(a.contains(lb));
        let i = a.index_of(lb);
        assert(a[i] == lb);
        if j < b.len() - 1 {
            assert(stack_key(cards.at(b[j], t)->0) < stack_key(cards.at(b[b.len() - 1], t)->0));
            if i < a.len() - 1 {
                assert(stack_key(cards.at(a[i], t)->0) < stack_key(cards.at(a[a.len() - 1], t)->0));
            }
        }
        assert(la == lb);
        let ra = a.drop_last();
        let rb = b.drop_last();
        assert forall|id: u32| #[trigger] ra.contains(id) <==> rb.contains(id) by {
            if ra.contains(id) {
                let x = ra.index_of(id);
                assert(a[x] == id);
                assert(stack_key(cards.at(a[x], t)->0) < stack_key(
                    cards.at(a[a.len() - 1], t)->0,
                ));
                assert(a.contains(id));
                let y = b.index_of(id);
                assert(b[y] == id);
                assert(rb[y] == id);
            }
            if rb.contains(id) {
                let x = rb.index_of(id);
                assert(b[x] == id);
                assert(stack_key(cards.at(b[x], t)->0) < stack_key(
                    cards.at(b[b.len() - 1], t)->0,
                ));
                assert(b.contains(id));
                assert(a.contains(id));
                let y = a.index_of(id);
                assert(a[y] == id);
                assert(ra[y] == id);
            }
        }
        assert forall|x: int, y: int| 0 <= x < y < ra.len() implies stack_key(
            cards.at(#[trigger] ra[x], t)->0,
        ) < stack_key(cards.at(#[trigger] ra[y], t)->0) by {
            assert(stack_key(cards.at(a[x], t)->0) < stack_key(cards.at(a[y], t)->0));
        }
        assert forall|x: int, y: int| 0 <= x < y < rb.len() implies stack_key(
            cards.at(#[trigger] rb[x], t)->0,
        ) < stack_key(cards.at(#[trigger] rb[y], t)->0) by {
            assert(stack_key(cards.at(b[x], t)->0) < stack_key(cards.at(b[y], t)->0));
        }
        lemma_chain_unique(cards, t, ra, rb);
        assert(a =~= ra.push(la));
        assert(b =~= rb.push(lb));
    }
}

/// Whether a card may not be bound at `now`.
pub fn held(world: &World, id: u32, now: u64) -> (b: bool)
    requires
        world.wf(),
    ensures
        b == is_held(world.cards, id, now),
{
    match world.cards.current(id, now) {
        Some(row) => row.bind_blocked(),
        None => false,
    }
}

/// The members of one branch in stack order, without those held at `skip`.
#[verifier::spinoff_prover]
#[verifier::rlimit(60)]
pub fn chain(world: &World, root: u32, branch: u8, t: u64, skip: Option<u64>) -> (ids: Vec<u32>)
    requires
        world.wf(),
    ensures
        is_chain(world.cards, root, branch, t, skip, ids@),
        ids@ == chain_of(world.cards, root, branch, t, skip),
{
    let members = world.members_of(root, t);
    let ghost cards = world.cards;
    let n: usize = members.len();
    let mut ids: Vec<u32> = Vec::new();
    // The stack indices of `ids`.
    let mut slots: Vec<u8> = Vec::new();
    let mut i: usize = 0;
    while i < n
        invariant
            world.wf(),
            cards == world.cards,
            n == members@.len(),
            i <= n,
            is_members(cards, root, t, members@),
            ids@.len() == slots@.len(),
            forall|a: int|
                0 <= a < ids@.len() ==> in_branch(cards, root, branch, t, skip, #[trigger] ids@[a])
                    && (cards.at(ids@[a], t)->0.micro matches Micro::Stacked { index, .. } && index
                    == slots@[a]) && cards.at(ids@[a], t)->0.card_id == ids@[a] && exists|m: int|
                    0 <= m < i && (#[trigger] members@[m]).card_id == ids@[a],
            forall|a: int, b: int|
                0 <= a < b < ids@.len() ==> stack_key(cards.at(#[trigger] ids@[a], t)->0)
                    < stack_key(cards.at(#[trigger] ids@[b], t)->0),
            forall|m: int|
                0 <= m < i && in_branch(
                    cards,
                    root,
                    branch,
                    t,
                    skip,
                    (#[trigger] members@[m]).card_id,
                ) ==> ids@.contains(members@[m].card_id),
        decreases n - i,
    {
        let v: CardView = members[i];
        assert(crate::world::is_member(cards, root, t, members@[i as int]));
        let ghost ids0 = ids@;
        let ghost slots0 = slots@;
        let mine: Option<u8> = match v.micro {
            Micro::Stacked { branch: b, index, .. } => if b == branch {
                Some(index)
            } else {
                None
            },
            Micro::Loose { .. } => None,
        };
        let free: bool = match skip {
            Some(now) => !held(world, v.card_id, now),
            None => true,
        };
        if let Some(slot) = mine {
            if free {
                // Behind every member whose index is no greater.
                let mut p: usize = ids.len();
                while p > 0 && slots[p - 1] > slot
                    invariant
                        p <= ids@.len(),
                        ids@ == ids0,
                        slots@ == slots0,
                        ids@.len() == slots@.len(),
                        forall|a: int| p <= a < slots@.len() ==> #[trigger] slots@[a] > slot,
                    decreases p,
                {
                    p = p - 1;
                }
                ids.insert(p, v.card_id);
                slots.insert(p, slot);
                proof {
                    let key = stack_key(cards.at(v.card_id, t)->0);
                    assert(in_branch(cards, root, branch, t, skip, v.card_id));
                    assert(cards.at(v.card_id, t)->0.card_id == v.card_id);
                    // Members come by ascending id, so earlier ones have smaller ids.
                    assert forall|a: int| 0 <= a < ids0.len() implies (#[trigger] ids0[a])
                        < v.card_id by {
                        let m = choose|m: int| 0 <= m < i && (#[trigger] members@[m]).card_id
                            == ids0[a];
                        assert(members@[m].card_id < members@[i as int].card_id);
                    }
                    assert forall|a: int, b: int| 0 <= a <= b < ids0.len() implies slots0[a]
                        <= slots0[b] by {
                        if a < b {
                            assert(stack_key(cards.at(ids0[a], t)->0) < stack_key(
                                cards.at(ids0[b], t)->0,
                            ));
                        }
                    }
                    assert forall|a: int| 0 <= a < p implies stack_key(
                        cards.at(#[trigger] ids0[a], t)->0,
                    ) < key by {
                        assert(slots0[a] <= slots0[p - 1]);
                        assert(slots0[p - 1] <= slot);
                    }
                    assert forall|a: int| p <= a < ids0.len() implies key < stack_key(
                        cards.at(#[trigger] ids0[a], t)->0,
                    ) by {
                        assert(slots0[a] > slot);
                    }
                    assert forall|a: int| 0 <= a < ids@.len() implies #[trigger] ids@[a] == (if a
                        < p {
                        ids0[a]
                    } else if a == p {
                        v.card_id
                    } else {
                        ids0[a - 1]
                    }) by {}
                    assert forall|a: int, b: int| 0 <= a < b < ids@.len() implies stack_key(
                        cards.at(#[trigger] ids@[a], t)->0,
                    ) < stack_key(cards.at(#[trigger] ids@[b], t)->0) by {
                        let x = if a < p {
                            a
                        } else {
                            a - 1
                        };
                        let y = if b < p {
                            b
                        } else {
                            b - 1
                        };
                        if a != p && b != p {
                            assert(stack_key(cards.at(ids0[x], t)->0) < stack_key(
                                cards.at(ids0[y], t)->0,
                            ));
                        }
                    }
                    assert forall|a: int| 0 <= a < ids@.len() implies in_branch(
                        cards,
                        root,
                        branch,
                        t,
                        skip,
                        #[trigger] ids@[a],
                    ) && (cards.at(ids@[a], t)->0.micro matches Micro::Stacked { index, .. }
                        && index == slots@[a]) && cards.at(ids@[a], t)->0.card_id == ids@[a]
                        && exists|m: int| 0 <= m < i + 1 && (#[trigger] members@[m]).card_id
                        == ids@[a] by {
                        if a == p {
                            assert(members@[i as int].card_id == ids@[a]);
                        } else {
                            let x = if a < p {
                                a
                            } else {
                                a - 1
                            };
                            assert(ids@[a] == ids0[x]);
                            let m = choose|m: int| 0 <= m < i && (#[trigger] members@[m]).card_id
                                == ids0[x];
                            assert(members@[m].card_id == ids@[a]);
                        }
                    }
                    assert(ids@[p as int] == v.card_id);
                }
            }
        }
        proof {
            assert forall|m: int| 0 <= m < i + 1 && in_branch(
                cards,
                root,
                branch,
                t,
                skip,
                (#[trigger] members@[m]).card_id,
            ) implies ids@.contains(members@[m].card_id) by {
                if m < i {
                    let x = ids0.index_of(members@[m].card_id);
                    assert(ids0[x] == members@[m].card_id);
                    if ids@ != ids0 {
                        let p = choose|p: int|
                            0 <= p <= ids0.len() && ids@ == #[trigger] ids0.insert(p, v.card_id);
                        let y = if x < p {
                            x
                        } else {
                            x + 1
                        };
                        assert(ids@[y] == ids0[x]);
                    }
                }
            }
        }
        i = i + 1;
    }
    proof {
        assert forall|id: u32| #[trigger] ids@.contains(id) <==> in_branch(
            cards,
            root,
            branch,
            t,
            skip,
            id,
        ) by {
            if ids@.contains(id) {
                let a = ids@.index_of(id);
                assert(ids@[a] == id);
            }
            if in_branch(cards, root, branch, t, skip, id) {
                assert(stacked_on(cards.at(id, t)->0, root));
                let m = choose|m: int| 0 <= m < members@.len() && (#[trigger] members@[m]).card_id
                    == id;
                assert(members@[m].card_id == id);
            }
        }
        let c = chain_of(cards, root, branch, t, skip);
        assert(is_chain(cards, root, branch, t, skip, ids@));
        assert(is_chain(cards, root, branch, t, skip, c));
        lemma_chain_unique(cards, t, ids@, c);
    }
    ids
}

/// The three branches of a stack: hex, up and down.
pub open spec fn lists(branches: Seq<Vec<u32>>) -> Seq<Seq<u32>> {
    branches.map_values(|b: Vec<u32>| b@)
}

/// The branches with the root as first member of one of them.
pub open spec fn promoted(base: Seq<Seq<u32>>, root: u32, branch: int) -> Seq<Seq<u32>> {
    base.update(branch, seq![root] + base[branch])
}

fn prepend(root: u32, rest: &Vec<u32>) -> (v: Vec<u32>)
    ensures
        v@ == seq![root] + rest@,
{
    let mut v: Vec<u32> = Vec::new();
    v.push(root);
    let mut tail = copy_ids(rest);
    v.append(&mut tail);
    assert(v@ =~= seq![root] + rest@);
    v
}

/// Fold a loose root into a branch as the chain's first member.
pub fn promote_root(root: u32, base: &[Vec<u32>; 3], branch: usize) -> (b: [Vec<u32>; 3])
    requires
        branch < 3,
    ensures
        lists(b@) == promoted(lists(base@), root, branch as int),
{
    let b = if branch == 0 {
        [prepend(root, &base[0]), copy_ids(&base[1]), copy_ids(&base[2])]
    } else if branch == 1 {
        [copy_ids(&base[0]), prepend(root, &base[1]), copy_ids(&base[2])]
    } else {
        [copy_ids(&base[0]), copy_ids(&base[1]), prepend(root, &base[2])]
    };
    assert(lists(b@) =~= promoted(lists(base@), root, branch as int));
    b
}

/// The branches that hold something, as a bit mask. A tile stands for the hex
/// branch.
pub open spec fn have_mask(branches: Seq<Seq<u32>>, tile: bool) -> u32 {
    (if branches[0].len() > 0 || tile {
        1u32
    } else {
        0u32
    }) | (if branches[1].len() > 0 {
        2u32
    } else {
        0u32
    }) | (if branches[2].len() > 0 {
        4u32
    } else {
        0u32
    })
}

/// A recipe's anchors are present: its root if it uses one, and every top-level
/// branch it references.
pub open spec fn fits(
    uses_root: bool,
    want_branches: u32,
    pass_root: u32,
    branches: Seq<Seq<u32>>,
    tile: bool,
) -> bool {
    (uses_root ==> pass_root != 0) && want_branches & !have_mask(branches, tile) == 0
}

pub fn anchors_fit(
    uses_root: bool,
    want_branches: u32,
    pass_root: u32,
    branches: &[Vec<u32>; 3],
    has_synthetic: bool,
) -> (b: bool)
    ensures
        b == fits(uses_root, want_branches, pass_root, lists(branches@), has_synthetic),
{
    if uses_root && pass_root == 0 {
        return false;
    }
    let hex: u32 = if branches[0].len() > 0 || has_synthetic {
        1
    } else {
        0
    };
    let up: u32 = if branches[1].len() > 0 {
        2
    } else {
        0
    };
    let down: u32 = if branches[2].len() > 0 {
        4
    } else {
        0
    };
    proof {
        assert(lists(branches@)[0] == branches@[0]@);
        assert(lists(branches@)[1] == branches@[1]@);
        assert(lists(branches@)[2] == branches@[2]@);
    }
    let have: u32 = hex | up | down;
    want_branches & !have == 0
}

/// A recipe that fits finds something in every branch it references.
pub proof fn law_fit_means_present(
    want_branches: u32,
    pass_root: u32,
    branches: Seq<Seq<u32>>,
    tile: bool,
    b: u8,
)
    requires
        fits(false, want_branches, pass_root, branches, tile),
        b < 32,
        want_branches & (1u32 << b) != 0,
    ensures
        b < 3,
        branches[b as int].len() > 0 || (b == 0 && tile),
{
    let hex: u32 = if branches[0].len() > 0 || tile {
        1
    } else {
        0
    };
    let up: u32 = if branches[1].len() > 0 {
        2
    } else {
        0
    };
    let down: u32 = if branches[2].len() > 0 {
        4
    } else {
        0
    };
    let have: u32 = hex | up | down;
    assert(have == have_mask(branches, tile));
    assert((b == 0 && hex == 1) || (b == 1 && up == 2) || (b == 2 && down == 4)) by (bit_vector)
        requires
            b < 32,
            want_branches & (1u32 << b) != 0,
            want_branches & !have == 0,
            have == hex | up | down,
            hex == 0 || hex == 1,
            up == 0 || up == 2,
            down == 0 || down == 4,
    ;
}

/// Where a parent path leads from segment `i` on, standing on `card`: a slot picks
/// a card of a branch, `owner` and `parent` step to a related card. Zero if it
/// leads nowhere.
pub open spec fn walk(
    cards: Cards,
    branches: Seq<Seq<u32>>,
    segs: Seq<Seq<char>>,
    i: int,
    card: u32,
    now: u64,
) -> u32
    decreases segs.len() - i,
{
    if i < 0 || i >= segs.len() {
        card
    } else if segs[i] == "slot"@ && i + 2 < segs.len() {
        let picked = match (number(segs[i + 1]), number(segs[i + 2])) {
            (Some(b), Some(o)) => if b < 3 && o < branches[b as int].len() {
                branches[b as int][o as int]
            } else {
                0
            },
            _ => 0,
        };
        if picked == 0 {
            0
        } else {
            walk(cards, branches, segs, i + 3, picked, now)
        }
    } else if segs[i] == "owner"@ {
        match cards.at(card, now) {
            Some(c) => if c.owner_id == 0 {
                0
            } else {
                walk(cards, branches, segs, i + 1, c.owner_id, now)
            },
            None => 0,
        }
    } else if segs[i] == "parent"@ {
        match cards.at(card, now) {
            Some(c) => if c.micro_location == 0 {
                0
            } else {
                walk(cards, branches, segs, i + 1, c.micro_location, now)
            },
            None => 0,
        }
    } else {
        walk(cards, branches, segs, i + 1, card, now)
    }
}

/// The card a nested iterator's parent path leads to; zero on any miss.
pub fn nested_parent(world: &World, parent: &String, branches: &[Vec<u32>; 3], now: u64) -> (id: u32)
    requires
        world.wf(),
    ensures
        id == walk(world.cards, lists(branches@), segments(parent@, '.'), 0, 0, now),
{
    let segs = split_text(parent.as_str(), '.');
    let ghost views = segments(parent@, '.');
    let ghost lists_ = lists(branches@);
    proof {
        assert(runs(segs@).len() == segs@.len());
        assert forall|j: int| 0 <= j < segs@.len() implies #[trigger] views[j] == segs@[j]@ by {
            assert(runs(segs@)[j] == segs@[j]@);
        }
        assert(lists_[0] == branches@[0]@);
        assert(lists_[1] == branches@[1]@);
        assert(lists_[2] == branches@[2]@);
    }
    let n: usize = segs.len();
    let mut card: u32 = 0;
    let mut i: usize = 0;
    while i < n
        invariant
            world.wf(),
            n == segs@.len(),
            n == views.len(),
            views == segments(parent@, '.'),
            i <= n,
            lists_ == lists(branches@),
            lists_[0] == branches@[0]@,
            lists_[1] == branches@[1]@,
            lists_[2] == branches@[2]@,
            forall|j: int| 0 <= j < n ==> #[trigger] views[j] == segs@[j]@,
            walk(world.cards, lists_, views, i as int, card, now) == walk(
                world.cards,
                lists_,
                views,
                0,
                0,
                now,
            ),
        decreases n - i,
    {
        assert(views[i as int] == segs@[i as int]@);
        if spells(&segs[i], "slot") && n - i > 2 {
            assert(views[i + 1] == segs@[i + 1]@ && views[i + 2] == segs@[i + 2]@);
            let (hex, up, down): (u64, u64, u64) = (
                branches[0].len() as u64,
                branches[1].len() as u64,
                branches[2].len() as u64,
            );
            let picked: u32 = match (parse_u64(&segs[i + 1]), parse_u64(&segs[i + 2])) {
                (Some(b), Some(o)) => if b == 0 && o < hex {
                    branches[0][o as usize]
                } else if b == 1 && o < up {
                    branches[1][o as usize]
                } else if b == 2 && o < down {
                    branches[2][o as usize]
                } else {
                    0
                },
                _ => 0,
            };
            if picked == 0 {
                return 0;
            }
            card = picked;
            i = i + 3;
        } else if spells(&segs[i], "owner") {
            match world.cards.current(card, now) {
                Some(c) => {
                    if c.owner_id == 0 {
                        return 0;
                    }
                    card = c.owner_id;
                },
                None => {
                    return 0;
                },
            }
            i = i + 1;
        } else if spells(&segs[i], "parent") {
            match world.cards.current(card, now) {
                Some(c) => {
                    if c.micro_location == 0 {
                        return 0;
                    }
                    card = c.micro_location;
                },
                None => {
                    return 0;
                },
            }
            i = i + 1;
        } else {
            i = i + 1;
        }
    }
    card
}

/// The cards one iterator is bound to: a top-level branch, or the chain of the
/// card its parent path leads to. An empty hex branch over a tile is bound to the
/// tile, written as zero.
pub open spec fn binding_of(
    cards: Cards,
    it: RecipeIter,
    branches: Seq<Seq<u32>>,
    tile: bool,
    now: u64,
) -> Seq<u32> {
    if it.parent@.len() > 0 {
        let p = walk(cards, branches, segments(it.parent@, '.'), 0, 0, now);
        if p == 0 {
            Seq::empty()
        } else {
            chain_of(cards, p, it.branch, now, None)
        }
    } else if it.branch < 3 && branches[it.branch as int].len() > 0 {
        branches[it.branch as int]
    } else if it.branch == 0 && tile {
        seq![0u32]
    } else {
        Seq::empty()
    }
}

/// The bindings of all iterators.
pub open spec fn bindings_of(
    cards: Cards,
    iters: Seq<RecipeIter>,
    branches: Seq<Seq<u32>>,
    tile: bool,
    now: u64,
) -> Seq<Seq<u32>> {
    iters.map_values(|it: RecipeIter| binding_of(cards, it, branches, tile, now))
}

/// Card ids per iterator for a candidate.
pub fn build_bindings(
    world: &World,
    iters: &Vec<RecipeIter>,
    branches: &[Vec<u32>; 3],
    has_synthetic: bool,
    now: u64,
) -> (b: Vec<Vec<u32>>)
    requires
        world.wf(),
    ensures
        deep(b@) == bindings_of(world.cards, iters@, lists(branches@), has_synthetic, now),
{
    let ghost lists_ = lists(branches@);
    proof {
        assert(lists_[0] == branches@[0]@);
        assert(lists_[1] == branches@[1]@);
        assert(lists_[2] == branches@[2]@);
    }
    let n: usize = iters.len();
    let mut b: Vec<Vec<u32>> = Vec::new();
    let mut i: usize = 0;
    while i < n
        invariant
            world.wf(),
            n == iters@.len(),
            i <= n,
            b@.len() == i,
            lists_ == lists(branches@),
            lists_[0] == branches@[0]@,
            lists_[1] == branches@[1]@,
            lists_[2] == branches@[2]@,
            forall|j: int|
                0 <= j < i ==> (#[trigger] b@[j])@ == binding_of(
                    world.cards,
                    iters@[j],
                    lists_,
                    has_synthetic,
                    now,
                ),
        decreases n - i,
    {
        let it = &iters[i];
        let ids: Vec<u32> = if !is_empty_text(&it.parent) {
            let p: u32 = nested_parent(world, &it.parent, branches, now);
            if p == 0 {
                Vec::new()
            } else {
                chain(world, p, it.branch, now, None)
            }
        } else if it.branch == 0 && branches[0].len() > 0 {
            copy_ids(&branches[0])
        } else if it.branch == 1 && branches[1].len() > 0 {
            copy_ids(&branches[1])
        } else if it.branch == 2 && branches[2].len() > 0 {
            copy_ids(&branches[2])
        } else if it.branch == 0 && has_synthetic {
            let mut v: Vec<u32> = Vec::new();
            v.push(0);
            v
        } else {
            Vec::new()
        };
        assert(ids@ =~= binding_of(world.cards, *it, lists_, has_synthetic, now));
        b.push(ids);
        i = i + 1;
    }
    assert(deep(b@) =~= bindings_of(world.cards, iters@, lists_, has_synthetic, now));
    b
}

/// Something that may show an aspect.
#[derive(Debug, Clone, Copy, PartialEq, Eq, Structural)]
pub enum Subject {
    Card(CardView),
    Tile(TileView),
}

/// A candidate put before the judge: a recipe, its bindings, and the cards and the
/// tile they stand for.
#[derive(Debug)]
pub struct Frame {
    pub recipe: String,
    pub root: u32,
    pub bindings: Vec<Vec<u32>>,
    pub cards: Vec<(u32, CardView)>,
    pub tile: Option<TileView>,
}

/// What a frame holds.
pub ghost struct FrameView {
    pub recipe: Seq<char>,
    pub root: u32,
    pub bindings: Seq<Seq<u32>>,
    pub cards: Seq<(u32, CardView)>,
    pub tile: Option<TileView>,
}

impl View for Frame {
    type V = FrameView;

    open spec fn view(&self) -> FrameView {
        FrameView {
            recipe: self.recipe@,
            root: self.root,
            bindings: deep(self.bindings@),
            cards: self.cards@,
            tile: self.tile,
        }
    }
}

/// The judge can be asked anything, and answers by what a frame holds.
pub open spec fn judges<J: Fn(&Frame) -> bool>(judge: J) -> bool {
    &&& forall|f: Frame| #[trigger] call_requires(judge, (&f,))
    &&& forall|f: Frame, g: Frame, a: bool, b: bool|
        f@ == g@ && #[trigger] call_ensures(judge, (&f,), a) && #[trigger] call_ensures(
            judge,
            (&g,),
            b,
        ) ==> a == b
}

/// The judge finds that the recipe's input lines hold.
pub open spec fn upheld<J: Fn(&Frame) -> bool>(judge: J, f: FrameView) -> bool {
    exists|x: Frame| x@ == f && #[trigger] call_ensures(judge, (&x,), true)
}

/// The witness can be asked anything, and answers by the aspect's name and the
/// subject.
pub open spec fn witnesses<S: Fn(&String, &Subject) -> bool>(shows: S) -> bool {
    &&& forall|a: String, s: Subject| #[trigger] call_requires(shows, (&a, &s))
    &&& forall|a: String, b: String, s: Subject, x: bool, y: bool|
        a@ == b@ && #[trigger] call_ensures(shows, (&a, &s), x) && #[trigger] call_ensures(
            shows,
            (&b, &s),
            y,
        ) ==> x == y
}

/// The subject shows the aspect.
pub open spec fn shown<S: Fn(&String, &Subject) -> bool>(
    shows: S,
    aspect: Seq<char>,
    s: Subject,
) -> bool {
    exists|a: String| a@ == aspect && #[trigger] call_ensures(shows, (&a, &s), true)
}

/// A match, as values.
pub ghost struct MatchView {
    pub recipe: Seq<char>,
    pub root: u32,
    pub bindings: Seq<Seq<u32>>,
    pub live: bool,
    pub input_count: usize,
}

impl View for RecipeMatch {
    type V = MatchView;

    open spec fn view(&self) -> MatchView {
        MatchView {
            recipe: self.recipe@,
            root: self.root,
            bindings: deep(self.bindings@),
            live: self.live,
            input_count: self.input_count,
        }
    }
}

/// The matches of a list, as values.
pub open spec fn match_views(v: Seq<RecipeMatch>) -> Seq<MatchView> {
    v.map_values(|m: RecipeMatch| m@)
}

/// Every list is empty.
pub open spec fn all_empty(b: Seq<Seq<u32>>) -> bool {
    forall|i: int| 0 <= i < b.len() ==> (#[trigger] b[i]).len() == 0
}

/// The ids of several lists, one list after the other.
pub open spec fn flat(b: Seq<Seq<u32>>) -> Seq<u32>
    decreases b.len(),
{
    if b.len() == 0 {
        Seq::empty()
    } else {
        flat(b.drop_last()) + b.last()
    }
}

/// What a match is made against: the world as one soul knows it.
pub struct Scene<'a, C: Codec> {
    pub world: &'a World,
    pub zones: &'a ZoneManager<C>,
    pub content: &'a Content,
    pub soul: u32,
    pub now: u64,
}

/// The branches, the tile and the freshness of a candidate root.
pub struct Stage {
    pub root: u32,
    pub live: bool,
    pub base: [Vec<u32>; 3],
    pub tile: Option<TileView>,
}

impl<'a, C: Codec> Scene<'a, C> {
    pub open spec fn wf(&self) -> bool {
        self.world.wf() && self.zones.wf() && self.content.wf()
    }

    /// The moment at which the soul knows a card: now where it is present, or where
    /// the zone means nothing to it; its frozen memory elsewhere.
    pub open spec fn moment(&self, id: u32) -> u64 {
        match self.world.cards.latest_zone(id) {
            Some(zone) => match self.zones.card_view(self.soul, zone, self.now) {
                Some(t) => t,
                None => self.now,
            },
            None => self.now,
        }
    }

    pub fn view_time(&self, id: u32) -> (t: u64)
        requires
            self.wf(),
        ensures
            t == self.moment(id),
    {
        match self.world.cards.zone_of(id) {
            Some(zone) => match self.zones.card_view_time(self.soul, zone, self.now) {
                Some(t) => t,
                None => self.now,
            },
            None => self.now,
        }
    }

    /// A card as the soul knows it, if its definition is known.
    pub open spec fn known(&self, id: u32) -> Option<CardView> {
        match self.world.cards.at(id, self.moment(id)) {
            Some(row) => if crate::content::def_in(
                self.content.cards(),
                row.packed_definition,
            ) is Some {
                Some(view_of(row))
            } else {
                None
            },
            None => None,
        }
    }

    pub fn lookup(&self, id: u32) -> (v: Option<CardView>)
        requires
            self.wf(),
        ensures
            v == self.known(id),
    {
        let t: u64 = self.view_time(id);
        match self.world.card_at(id, t) {
            Some(v) => match self.content.def_for(v.packed_definition) {
                Some(_) => Some(v),
                None => None,
            },
            None => None,
        }
    }

    /// The tile under a loose root on a world surface, unless a card lies on its hex
    /// branch.
    pub open spec fn tile_under(&self, root: u32, hex: Seq<u32>, t: u64) -> Option<TileView> {
        if hex.len() > 0 {
            None
        } else {
            match self.world.cards.at(root, t) {
                Some(row) => if row.surface < WORLD_LAYER {
                    None
                } else {
                    match row.micro {
                        Micro::Loose { local_q, local_r } => match self.world.tile_spec(
                            row.macro_zone,
                            local_q,
                            local_r,
                            t,
                        ) {
                            Some(tile) => if crate::content::def_in(
                                self.content.cards(),
                                tile.packed_definition,
                            ) is Some {
                                Some(tile)
                            } else {
                                None
                            },
                            None => None,
                        },
                        Micro::Stacked { .. } => None,
                    }
                },
                None => None,
            }
        }
    }

    pub fn synthetic_tile(&self, root: u32, hex_branch: &Vec<u32>, t: u64) -> (tile: Option<
        TileView,
    >)
        requires
            self.wf(),
        ensures
            tile == self.tile_under(root, hex_branch@, t),
    {
        if hex_branch.len() > 0 {
            return None;
        }
        match self.world.cards.current(root, t) {
            Some(row) => {
                if row.surface < WORLD_LAYER {
                    return None;
                }
                match row.micro {
                    Micro::Loose { local_q, local_r } => match self.world.tile_at(
                        row.macro_zone,
                        local_q,
                        local_r,
                        t,
                    ) {
                        Some(tile) => match self.content.def_for(tile.packed_definition) {
                            Some(_) => Some(tile),
                            None => None,
                        },
                        None => None,
                    },
                    Micro::Stacked { .. } => None,
                }
            },
            None => None,
        }
    }

    /// The branches of a root as the soul knows them, without members that are held.
    pub open spec fn base_of(&self, root: u32) -> Seq<Seq<u32>> {
        let t = self.moment(root);
        seq![
            chain_of(self.world.cards, root, 0, t, Some(self.now)),
            chain_of(self.world.cards, root, 1, t, Some(self.now)),
            chain_of(self.world.cards, root, 2, t, Some(self.now)),
        ]
    }

    /// The tile of a candidate root.
    pub open spec fn tile_of(&self, root: u32) -> Option<TileView> {
        if root == 0 {
            None
        } else {
            self.tile_under(root, self.base_of(root)[0], self.moment(root))
        }
    }

    /// Set the stage for a root.
    pub fn stage(&self, root: u32) -> (s: Stage)
        requires
            self.wf(),
        ensures
            s.root == root,
            s.live == (self.moment(root) == self.now),
            lists(s.base@) == self.base_of(root),
            s.tile == self.tile_of(root),
    {
        let t: u64 = self.view_time(root);
        let base: [Vec<u32>; 3] = [
            chain(self.world, root, 0, t, Some(self.now)),
            chain(self.world, root, 1, t, Some(self.now)),
            chain(self.world, root, 2, t, Some(self.now)),
        ];
        assert(lists(base@) =~= self.base_of(root));
        assert(lists(base@)[0] == base@[0]@);
        let tile: Option<TileView> = if root != 0 {
            self.synthetic_tile(root, &base[0], t)
        } else {
            None
        };
        Stage { root, live: t == self.now, base, tile }
    }

    /// The cards a candidate could bind at the top level: its branches and its root.
    pub open spec fn subject_of(&self, root: u32, s: Subject) -> bool {
        match s {
            Subject::Card(v) => exists|id: u32|
                (flat(self.base_of(root)).contains(id) || (root != 0 && id == root))
                    && #[trigger] self.known(id) == Some(v),
            Subject::Tile(t) => self.tile_of(root) == Some(t),
        }
    }

    /// Some subject of the candidate shows the aspect.
    pub open spec fn available<S: Fn(&String, &Subject) -> bool>(
        &self,
        shows: S,
        root: u32,
        aspect: Seq<char>,
    ) -> bool {
        exists|s: Subject| #[trigger] self.subject_of(root, s) && shown(shows, aspect, s)
    }

    /// The subjects of a candidate.
    fn subjects(&self, stage: &Stage) -> (out: Vec<Subject>)
        requires
            self.wf(),
            lists(stage.base@) == self.base_of(stage.root),
            stage.tile == self.tile_of(stage.root),
        ensures
            forall|s: Subject| #[trigger] out@.contains(s) <==> self.subject_of(stage.root, s),
    {
        let ghost base = self.base_of(stage.root);
        proof {
            assert(lists(stage.base@)[0] == stage.base@[0]@);
            assert(lists(stage.base@)[1] == stage.base@[1]@);
            assert(lists(stage.base@)[2] == stage.base@[2]@);
        }
        let mut ids = copy_ids(&stage.base[0]);
        let mut up = copy_ids(&stage.base[1]);
        let mut down = copy_ids(&stage.base[2]);
        ids.append(&mut up);
        ids.append(&mut down);
        proof {
            lemma_flat3(base);
            assert(ids@ =~= flat(base));
        }
        if stage.root != 0 {
            ids.push(stage.root);
        }
        proof {
            assert forall|id: u32| #[trigger] ids@.contains(id) <==> (flat(base).contains(id) || (
            stage.root != 0 && id == stage.root)) by {
                if flat(base).contains(id) {
                    let j = flat(base).index_of(id);
                    assert(ids@[j] == id);
                }
                if stage.root != 0 {
                    assert(ids@[flat(base).len() as int] == stage.root);
                }
                if ids@.contains(id) {
                    let j = ids@.index_of(id);
                    if j < flat(base).len() {
                        assert(flat(base)[j] == id);
                    }
                }
            }
        }
        let n: usize = ids.len();
        let mut out: Vec<Subject> = Vec::new();
        let mut i: usize = 0;
        while i < n
            invariant
                self.wf(),
                n == ids@.len(),
                i <= n,
                forall|s: Subject| #[trigger]
                    out@.contains(s) <==> (s matches Subject::Card(v) && exists|j: int|
                        0 <= j < i && self.known(#[trigger] ids@[j]) == Some(v)),
            decreases n - i,
        {
            let ghost before = out@;
            let found = self.lookup(ids[i]);
            if let Some(v) = found {
                out.push(Subject::Card(v));
            }
            proof {
                assert forall|s: Subject| #[trigger] out@.contains(s) <==> (before.contains(s) || (
                found matches Some(v) && s == Subject::Card(v))) by {
                    if before.contains(s) {
                        let j = before.index_of(s);
                        assert(out@[j] == s);
                    }
                    if found is Some {
                        assert(out@[before.len() as int] == Subject::Card(found->0));
                    }
                    if out@.contains(s) {
                        let j = out@.index_of(s);
                        if j < before.len() {
                            assert(before[j] == s);
                        }
                    }
                }
                assert forall|s: Subject| #[trigger] out@.contains(s) <==> (
                s matches Subject::Card(v) && exists|j: int|
                    0 <= j < i + 1 && self.known(#[trigger] ids@[j]) == Some(v)) by {
                    if before.contains(s) {
                        let v = s->Card_0;
                        let j = choose|j: int|
                            0 <= j < i && self.known(#[trigger] ids@[j]) == Some(v);
                        assert(self.known(ids@[j]) == Some(v));
                    }
                    if s is Card && exists|j: int|
                        0 <= j < i + 1 && self.known(#[trigger] ids@[j]) == Some(s->Card_0) {
                        let j = choose|j: int|
                            0 <= j < i + 1 && self.known(#[trigger] ids@[j]) == Some(s->Card_0);
                        if j < i {
                            assert(before.contains(s));
                        }
                    }
                }
            }
            i = i + 1;
        }
        let ghost cards = out@;
        if let Some(t) = stage.tile {
            out.push(Subject::Tile(t));
        }
        proof {
            assert forall|s: Subject| #[trigger] out@.contains(s) <==> self.subject_of(
                stage.root,
                s,
            ) by {
                if cards.contains(s) {
                    let j = cards.index_of(s);
                    assert(out@[j] == s);
                }
                if stage.tile is Some {
                    assert(out@[cards.len() as int] == Subject::Tile(stage.tile->0));
                }
                if out@.contains(s) {
                    let j = out@.index_of(s);
                    if j < cards.len() {
                        assert(cards[j] == s);
                    }
                }
                match s {
                    Subject::Card(v) => {
                        if cards.contains(s) {
                            let j = choose|j: int|
                                0 <= j < n && self.known(#[trigger] ids@[j]) == Some(v);
                            assert(ids@.contains(ids@[j]));
                            assert(self.known(ids@[j]) == Some(v));
                        }
                        if self.subject_of(stage.root, s) {
                            let id = choose|id: u32|
                                (flat(base).contains(id) || (stage.root != 0 && id == stage.root))
                                    && #[trigger] self.known(id) == Some(v);
                            assert(ids@.contains(id));
                            let j = ids@.index_of(id);
                            assert(self.known(ids@[j]) == Some(v));
                            assert(cards.contains(s));
                        }
                    },
                    Subject::Tile(_) => {},
                }
            }
        }
        out
    }
}

proof fn lemma_flat3(b: Seq<Seq<u32>>)
    requires
        b.len() == 3,
    ensures
        flat(b) == b[0] + b[1] + b[2],
{
    let two = b.drop_last();
    let one = two.drop_last();
    assert(one.drop_last() =~= Seq::empty());
    assert(flat(one.drop_last()) =~= Seq::empty());
    assert(flat(one) =~= b[0]);
    assert(flat(two) =~= b[0] + b[1]);
    assert(flat(b) =~= b[0] + b[1] + b[2]);
}

impl<'a, C: Codec> Scene<'a, C> {
    /// The known cards among ids that stand for cards.
    pub open spec fn gathered(&self, ids: Seq<u32>) -> Seq<(u32, CardView)>
        decreases ids.len(),
    {
        if ids.len() == 0 {
            Seq::empty()
        } else {
            let before = self.gathered(ids.drop_last());
            let id = ids.last();
            if id != 0 {
                match self.known(id) {
                    Some(v) => before.push((id, v)),
                    None => before,
                }
            } else {
                before
            }
        }
    }

    fn gather(&self, bindings: &Vec<Vec<u32>>, root: u32) -> (out: Vec<(u32, CardView)>)
        requires
            self.wf(),
        ensures
            out@ == self.gathered(flat(deep(bindings@)).push(root)),
    {
        let ghost all = deep(bindings@);
        let n: usize = bindings.len();
        let mut ids: Vec<u32> = Vec::new();
        let mut i: usize = 0;
        assert(all.take(0) =~= Seq::empty());
        assert(flat(all.take(0)) =~= ids@);
        while i < n
            invariant
                n == bindings@.len(),
                i <= n,
                all == deep(bindings@),
                ids@ == flat(all.take(i as int)),
            decreases n - i,
        {
            proof {
                assert(all.take(i + 1).drop_last() =~= all.take(i as int));
                assert(all.take(i + 1).last() == bindings@[i as int]@);
            }
            let mut more = copy_ids(&bindings[i]);
            ids.append(&mut more);
            assert(ids@ =~= flat(all.take(i + 1)));
            i = i + 1;
        }
        assert(all.take(n as int) =~= all);
        ids.push(root);
        assert(ids@ =~= flat(all).push(root));
        let m: usize = ids.len();
        let mut out: Vec<(u32, CardView)> = Vec::new();
        let mut j: usize = 0;
        assert(ids@.take(0) =~= Seq::empty());
        assert(self.gathered(ids@.take(0)) =~= out@);
        while j < m
            invariant
                self.wf(),
                m == ids@.len(),
                j <= m,
                out@ == self.gathered(ids@.take(j as int)),
            decreases m - j,
        {
            let id: u32 = ids[j];
            proof {
                assert(ids@.take(j + 1).drop_last() =~= ids@.take(j as int));
                assert(ids@.take(j + 1).last() == id);
            }
            if id != 0 {
                if let Some(v) = self.lookup(id) {
                    out.push((id, v));
                }
            }
            j = j + 1;
        }
        assert(ids@.take(m as int) =~= ids@);
        out
    }

    /// What the judge is shown of a recipe tried with these branches.
    pub open spec fn frame_of(
        &self,
        m: RecipeMeta,
        pass_root: u32,
        branches: Seq<Seq<u32>>,
        tile: Option<TileView>,
    ) -> FrameView {
        let bindings = bindings_of(
            self.world.cards,
            m.iters@,
            branches,
            tile is Some,
            self.now,
        );
        FrameView {
            recipe: m.name@,
            root: pass_root,
            bindings,
            cards: self.gathered(flat(bindings).push(pass_root)),
            tile,
        }
    }

    /// The recipe tried with these branches: a match if its anchors are present, its
    /// iterators bind something, and the judge upholds it.
    pub open spec fn pass_match<J: Fn(&Frame) -> bool>(
        &self,
        judge: J,
        m: RecipeMeta,
        pass_root: u32,
        branches: Seq<Seq<u32>>,
        tile: Option<TileView>,
        live: bool,
    ) -> Option<MatchView> {
        let frame = self.frame_of(m, pass_root, branches, tile);
        if fits(m.uses_root, m.want_branches, pass_root, branches, tile is Some) && !(m.iters@.len()
            > 0 && all_empty(frame.bindings)) && upheld(judge, frame) {
            Some(
                MatchView {
                    recipe: m.name@,
                    root: pass_root,
                    bindings: frame.bindings,
                    live,
                    input_count: m.input_count,
                },
            )
        } else {
            None
        }
    }

    fn try_pass<J: Fn(&Frame) -> bool>(
        &self,
        judge: &J,
        m: &RecipeMeta,
        pass_root: u32,
        branches: &[Vec<u32>; 3],
        tile: Option<TileView>,
        live: bool,
    ) -> (r: Option<RecipeMatch>)
        requires
            self.wf(),
            judges(*judge),
        ensures
            r is Some <==> self.pass_match(
                *judge,
                *m,
                pass_root,
                lists(branches@),
                tile,
                live,
            ) is Some,
            r matches Some(x) ==> Some(x@) == self.pass_match(
                *judge,
                *m,
                pass_root,
                lists(branches@),
                tile,
                live,
            ),
    {
        if !anchors_fit(m.uses_root, m.want_branches, pass_root, branches, tile.is_some()) {
            return None;
        }
        let bindings = build_bindings(self.world, &m.iters, branches, tile.is_some(), self.now);
        let ghost view = deep(bindings@);
        if m.iters.len() > 0 && none_bound(&bindings) {
            return None;
        }
        let cards = self.gather(&bindings, pass_root);
        let frame = Frame {
            recipe: m.name.clone(),
            root: pass_root,
            bindings: copy_bindings(&bindings),
            cards,
            tile,
        };
        let ghost target = self.frame_of(*m, pass_root, lists(branches@), tile);
        assert(frame@ == target);
        let yes: bool = judge(&frame);
        proof {
            if !yes && upheld(*judge, target) {
                let x = choose|x: Frame|
                    x@ == target && #[trigger] call_ensures(*judge, (&x,), true);
                assert(x@ == frame@);
            }
            assert(yes == upheld(*judge, target));
        }
        if yes {
            Some(
                RecipeMatch {
                    recipe: m.name.clone(),
                    root: pass_root,
                    bindings,
                    live,
                    input_count: m.input_count,
                },
            )
        } else {
            None
        }
    }

    /// How a recipe matches a root. One that uses its root is tried with the root
    /// in place; any other with the root folded into the up branch, then the down
    /// branch, and the first that holds wins.
    pub open spec fn recipe_match<J: Fn(&Frame) -> bool>(
        &self,
        judge: J,
        m: RecipeMeta,
        root: u32,
    ) -> Option<MatchView> {
        let base = self.base_of(root);
        let tile = self.tile_of(root);
        let live = self.moment(root) == self.now;
        if m.uses_root {
            if root == 0 {
                None
            } else {
                self.pass_match(judge, m, root, base, tile, live)
            }
        } else if root == 0 {
            self.pass_match(judge, m, 0, base, tile, live)
        } else {
            match self.pass_match(judge, m, 0, promoted(base, root, 1), tile, live) {
                Some(x) => Some(x),
                None => self.pass_match(judge, m, 0, promoted(base, root, 2), tile, live),
            }
        }
    }

    /// The recipe is not ruled out by an aspect that nothing in reach shows.
    pub open spec fn passes_filter<S: Fn(&String, &Subject) -> bool>(
        &self,
        shows: S,
        m: RecipeMeta,
        root: u32,
    ) -> bool {
        forall|a: Seq<char>| #[trigger]
            texts(m.req_aspects@).contains(a) ==> self.available(shows, root, a)
    }

    /// The matches among recipes, in order.
    pub open spec fn match_list<J: Fn(&Frame) -> bool, S: Fn(&String, &Subject) -> bool>(
        &self,
        judge: J,
        shows: S,
        index: Seq<RecipeMeta>,
        root: u32,
        use_filter: bool,
    ) -> Seq<MatchView>
        decreases index.len(),
    {
        if index.len() == 0 {
            Seq::empty()
        } else {
            let before = self.match_list(judge, shows, index.drop_last(), root, use_filter);
            let m = index.last();
            if use_filter && !self.passes_filter(shows, m, root) {
                before
            } else {
                match self.recipe_match(judge, m, root) {
                    Some(x) => before.push(x),
                    None => before,
                }
            }
        }
    }

    /// The recipes that apply to a root; none while the root itself is held.
    pub open spec fn matches<J: Fn(&Frame) -> bool, S: Fn(&String, &Subject) -> bool>(
        &self,
        judge: J,
        shows: S,
        root: u32,
        use_filter: bool,
    ) -> Seq<MatchView> {
        if root != 0 && is_held(self.world.cards, root, self.now) {
            Seq::empty()
        } else {
            self.match_list(judge, shows, self.content.index(), root, use_filter)
        }
    }

    /// The indexed aspects that some subject shows.
    fn aspects_in_reach<S: Fn(&String, &Subject) -> bool>(&self, shows: &S, stage: &Stage) -> (out:
        Vec<String>)
        requires
            self.wf(),
            witnesses(*shows),
            lists(stage.base@) == self.base_of(stage.root),
            stage.tile == self.tile_of(stage.root),
        ensures
            forall|a: Seq<char>| #[trigger]
                texts(out@).contains(a) <==> self.content.aspects().contains(a) && self.available(
                    *shows,
                    stage.root,
                    a,
                ),
    {
        let subjects = self.subjects(stage);
        let names = self.content.indexed_names();
        let ghost all = texts(names@);
        let n: usize = names.len();
        let k: usize = subjects.len();
        let mut out: Vec<String> = Vec::new();
        let mut i: usize = 0;
        assert(texts(out@) =~= Seq::empty());
        assert(all.take(0) =~= Seq::empty());
        while i < n
            invariant
                self.wf(),
                witnesses(*shows),
                n == names@.len(),
                k == subjects@.len(),
                all == texts(names@),
                i <= n,
                forall|s: Subject| #[trigger]
                    subjects@.contains(s) <==> self.subject_of(stage.root, s),
                forall|a: Seq<char>| #[trigger]
                    texts(out@).contains(a) <==> all.take(i as int).contains(a) && self.available(
                        *shows,
                        stage.root,
                        a,
                    ),
            decreases n - i,
        {
            let ghost name = names@[i as int]@;
            assert(all[i as int] == name);
            let mut found: bool = false;
            let mut j: usize = 0;
            while j < k
                invariant
                    witnesses(*shows),
                    i < n,
                    n == names@.len(),
                    k == subjects@.len(),
                    j <= k,
                    name == names@[i as int]@,
                    found <==> exists|x: int|
                        0 <= x < j && shown(*shows, name, #[trigger] subjects@[x]),
                decreases k - j,
            {
                let ghost was = found;
                let yes: bool = shows(&names[i], &subjects[j]);
                proof {
                    let s = subjects@[j as int];
                    if !yes && shown(*shows, name, s) {
                        let a = choose|a: String|
                            a@ == name && #[trigger] call_ensures(*shows, (&a, &s), true);
                        assert(a@ == names@[i as int]@);
                        assert(call_ensures(*shows, (&names@[i as int], &s), yes));
                    }
                    assert(yes ==> shown(*shows, name, s)) by {
                        if yes {
                            assert(call_ensures(*shows, (&names@[i as int], &s), true));
                        }
                    }
                    if was {
                        let x = choose|x: int|
                            0 <= x < j && shown(*shows, name, #[trigger] subjects@[x]);
                        assert(shown(*shows, name, subjects@[x]));
                    }
                }
                if yes {
                    found = true;
                }
                j = j + 1;
            }
            let ghost before = texts(out@);
            proof {
                assert(found <==> self.available(*shows, stage.root, name)) by {
                    if found {
                        let x = choose|x: int|
                            0 <= x < k && shown(*shows, name, #[trigger] subjects@[x]);
                        assert(subjects@.contains(subjects@[x]));
                        assert(self.subject_of(stage.root, subjects@[x]));
                    }
                    if self.available(*shows, stage.root, name) {
                        let s = choose|s: Subject| #[trigger]
                            self.subject_of(stage.root, s) && shown(*shows, name, s);
                        assert(subjects@.contains(s));
                        let x = subjects@.index_of(s);
                        assert(subjects@[x] == s);
                    }
                }
            }
            if found {
                out.push(names[i].clone());
            }
            proof {
                if found {
                    assert(texts(out@) =~= before.push(name));
                }
                assert forall|a: Seq<char>| all.take(i + 1).contains(a) <==> (all.take(
                    i as int,
                ).contains(a) || a == name) by {
                    if all.take(i as int).contains(a) {
                        let x = all.take(i as int).index_of(a);
                        assert(all.take(i + 1)[x] == a);
                    }
                    assert(all.take(i + 1)[i as int] == name);
                    if all.take(i + 1).contains(a) && a != name {
                        let x = all.take(i + 1).index_of(a);
                        assert(all.take(i as int)[x] == a);
                    }
                }
                assert forall|a: Seq<char>| #[trigger] texts(out@).contains(a) <==> all.take(
                    i + 1,
                ).contains(a) && self.available(*shows, stage.root, a) by {
                    if before.contains(a) {
                        let x = before.index_of(a);
                        assert(texts(out@)[x] == a);
                    }
                    if found {
                        assert(texts(out@)[before.len() as int] == name);
                    }
                    if texts(out@).contains(a) {
                        let x = texts(out@).index_of(a);
                        if x < before.len() {
                            assert(before[x] == a);
                        }
                    }
                }
            }
            i = i + 1;
        }
        assert(all.take(n as int) =~= all);
        out
    }

    /// The recipes that apply to `root`, with the bindings that satisfy them. The
    /// filter skips a recipe that requires an aspect nothing in reach shows.
    pub fn match_recipes<J: Fn(&Frame) -> bool, S: Fn(&String, &Subject) -> bool>(
        &self,
        judge: &J,
        shows: &S,
        root: u32,
        use_filter: bool,
    ) -> (out: Vec<RecipeMatch>)
        requires
            self.wf(),
            judges(*judge),
            witnesses(*shows),
        ensures
            match_views(out@) == self.matches(*judge, *shows, root, use_filter),
    {
        let mut out: Vec<RecipeMatch> = Vec::new();
        if root != 0 && held(self.world, root, self.now) {
            assert(match_views(out@) =~= Seq::empty());
            return out;
        }
        let stage = self.stage(root);
        let reach: Vec<String> = if use_filter {
            self.aspects_in_reach(shows, &stage)
        } else {
            Vec::new()
        };
        let up = promote_root(root, &stage.base, 1);
        let down = promote_root(root, &stage.base, 2);
        let index = self.content.recipe_meta();
        let n: usize = index.len();
        let mut i: usize = 0;
        assert(match_views(out@) =~= Seq::empty());
        assert(index@.take(0) =~= Seq::empty());
        while i < n
            invariant
                self.wf(),
                judges(*judge),
                n == index@.len(),
                i <= n,
                index@ == self.content.index(),
                stage.root == root,
                stage.live == (self.moment(root) == self.now),
                lists(stage.base@) == self.base_of(root),
                stage.tile == self.tile_of(root),
                lists(up@) == promoted(self.base_of(root), root, 1),
                lists(down@) == promoted(self.base_of(root), root, 2),
                use_filter ==> forall|a: Seq<char>| #[trigger]
                    texts(reach@).contains(a) <==> self.content.aspects().contains(a)
                        && self.available(*shows, root, a),
                match_views(out@) == self.match_list(
                    *judge,
                    *shows,
                    index@.take(i as int),
                    root,
                    use_filter,
                ),
            decreases n - i,
        {
            let m = &index[i];
            let ghost before = out@;
            proof {
                assert(index@.take(i + 1).drop_last() =~= index@.take(i as int));
                assert(index@.take(i + 1).last() == *m);
            }
            let open: bool = !use_filter || all_in(&m.req_aspects, &reach);
            proof {
                if use_filter {
                    self.content.lemma_wf();
                    assert forall|a: Seq<char>| #[trigger] texts(m.req_aspects@).contains(
                        a,
                    ) implies self.content.aspects().contains(a) by {
                        assert(crate::content::some_requires(self.content.index(), a)) by {
                            assert(texts(index@[i as int].req_aspects@).contains(a));
                        }
                    }
                    assert(open == self.passes_filter(*shows, *m, root)) by {
                        if open {
                            assert forall|a: Seq<char>| #[trigger] texts(
                                m.req_aspects@,
                            ).contains(a) implies self.available(*shows, root, a) by {
                                assert(texts(reach@).contains(a));
                            }
                        }
                        if self.passes_filter(*shows, *m, root) {
                            assert forall|a: Seq<char>| #[trigger] texts(
                                m.req_aspects@,
                            ).contains(a) implies texts(reach@).contains(a) by {}
                        }
                    }
                }
            }
            if open {
                let found: Option<RecipeMatch> = if m.uses_root {
                    if root == 0 {
                        None
                    } else {
                        self.try_pass(judge, m, root, &stage.base, stage.tile, stage.live)
                    }
                } else if root == 0 {
                    self.try_pass(judge, m, 0, &stage.base, stage.tile, stage.live)
                } else {
                    match self.try_pass(judge, m, 0, &up, stage.tile, stage.live) {
                        Some(x) => Some(x),
                        None => self.try_pass(judge, m, 0, &down, stage.tile, stage.live),
                    }
                };
                if let Some(x) = found {
                    let ghost v = x@;
                    out.push(x);
                    assert(match_views(out@) =~= match_views(before).push(v));
                }
            }
            i = i + 1;
        }
        assert(index@.take(n as int) =~= index@);
        out
    }
}

/// Whether every list is empty.
fn none_bound(b: &Vec<Vec<u32>>) -> (r: bool)
    ensures
        r == all_empty(deep(b@)),
{
    let n: usize = b.len();
    let mut i: usize = 0;
    while i < n
        invariant
            n == b@.len(),
            i <= n,
            forall|j: int| 0 <= j < i ==> (#[trigger] deep(b@)[j]).len() == 0,
        decreases n - i,
    {
        assert(deep(b@)[i as int] == b@[i as int]@);
        if b[i].len() > 0 {
            return false;
        }
        i = i + 1;
    }
    true
}

/// Whether every text of one list is in the other.
fn all_in(a: &Vec<String>, b: &Vec<String>) -> (r: bool)
    ensures
        r == forall|t: Seq<char>| #[trigger] texts(a@).contains(t) ==> texts(b@).contains(t),
{
    let n: usize = a.len();
    let mut i: usize = 0;
    while i < n
        invariant
            n == a@.len(),
            i <= n,
            forall|j: int| 0 <= j < i ==> texts(b@).contains(#[trigger] texts(a@)[j]),
        decreases n - i,
    {
        assert(texts(a@)[i as int] == a@[i as int]@);
        if !crate::content::has_text(b, &a[i]) {
            assert(texts(a@).contains(texts(a@)[i as int]));
            return false;
        }
        i = i + 1;
    }
    proof {
        assert forall|t: Seq<char>| #[trigger] texts(a@).contains(t) implies texts(b@).contains(
            t,
        ) by {
            let j = texts(a@).index_of(t);
            assert(texts(a@)[j] == t);
        }
    }
    true
}

/// Whether two lists of matches are the same.
pub fn same_matches(a: &Vec<RecipeMatch>, b: &Vec<RecipeMatch>) -> (same: bool)
    ensures
        same == (match_views(a@) == match_views(b@)),
{
    if a.len() != b.len() {
        assert(match_views(a@).len() != match_views(b@).len());
        return false;
    }
    let n: usize = a.len();
    let mut i: usize = 0;
    while i < n
        invariant
            n == a@.len(),
            n == b@.len(),
            i <= n,
            forall|k: int| 0 <= k < i ==> (#[trigger] a@[k])@ == b@[k]@,
        decreases n - i,
    {
        let (x, y) = (&a[i], &b[i]);
        if !(x.recipe == y.recipe && x.root == y.root && same_bindings(&x.bindings, &y.bindings)
            && x.live == y.live && x.input_count == y.input_count) {
            assert(a@[i as int]@ != b@[i as int]@);
            assert(match_views(a@)[i as int] != match_views(b@)[i as int]);
            return false;
        }
        i = i + 1;
    }
    assert(match_views(a@) =~= match_views(b@));
    true
}

/// If the judge never upholds a recipe whose required aspects are out of reach, the
/// filter drops no match.
pub proof fn law_filter_is_sound<
    'a,
    C: Codec,
    J: Fn(&Frame) -> bool,
    S: Fn(&String, &Subject) -> bool,
>(scene: Scene<'a, C>, judge: J, shows: S, index: Seq<RecipeMeta>, root: u32)
    requires
        forall|i: int|
            0 <= i < index.len() && scene.recipe_match(judge, #[trigger] index[i], root) is Some
                ==> scene.passes_filter(shows, index[i], root),
    ensures
        scene.match_list(judge, shows, index, root, true) == scene.match_list(
            judge,
            shows,
            index,
            root,
            false,
        ),
    decreases index.len(),
{
    if index.len() > 0 {
        let rest = index.drop_last();
        assert forall|i: int| 0 <= i < rest.len() && scene.recipe_match(
            judge,
            #[trigger] rest[i],
            root,
        ) is Some implies scene.passes_filter(shows, rest[i], root) by {
            assert(rest[i] == index[i]);
        }
        law_filter_is_sound(scene, judge, shows, rest, root);
        assert(index[index.len() - 1] == index.last());
    }
}

/// A held root matches nothing.
pub proof fn law_held_root_matches_nothing<
    'a,
    C: Codec,
    J: Fn(&Frame) -> bool,
    S: Fn(&String, &Subject) -> bool,
>(scene: Scene<'a, C>, judge: J, shows: S, root: u32, use_filter: bool)
    requires
        root != 0,
        is_held(scene.world.cards, root, scene.now),
    ensures
        scene.matches(judge, shows, root, use_filter).len() == 0,
{
}

/// Each recipe matches a root at most once, as far as recipes have names of their own.
pub proof fn law_recipe_matches_once<
    'a,
    C: Codec,
    J: Fn(&Frame) -> bool,
    S: Fn(&String, &Subject) -> bool,
>(scene: Scene<'a, C>, judge: J, shows: S, index: Seq<RecipeMeta>, root: u32, use_filter: bool)
    requires
        forall|a: int, b: int|
            0 <= a < b < index.len() ==> (#[trigger] index[a]).name@ != (#[trigger] index[b]).name@,
    ensures
        forall|i: int|
            0 <= i < scene.match_list(judge, shows, index, root, use_filter).len() ==> exists|j: int|
                0 <= j < index.len() && (#[trigger] index[j]).name@ == (
                #[trigger] scene.match_list(judge, shows, index, root, use_filter)[i]).recipe,
        forall|a: int, b: int|
            0 <= a < b < scene.match_list(judge, shows, index, root, use_filter).len() ==> (
            #[trigger] scene.match_list(judge, shows, index, root, use_filter)[a]).recipe != (
            #[trigger] scene.match_list(judge, shows, index, root, use_filter)[b]).recipe,
    decreases index.len(),
{
    if index.len() > 0 {
        let rest = index.drop_last();
        assert forall|a: int, b: int| 0 <= a < b < rest.len() implies (#[trigger] rest[a]).name@ != (
        #[trigger] rest[b]).name@ by {
            assert(index[a].name@ != index[b].name@);
        }
        law_recipe_matches_once(scene, judge, shows, rest, root, use_filter);
        let before = scene.match_list(judge, shows, rest, root, use_filter);
        let all = scene.match_list(judge, shows, index, root, use_filter);
        assert(index[index.len() - 1] == index.last());
        assert forall|i: int| 0 <= i < all.len() implies exists|j: int|
            0 <= j < index.len() && (#[trigger] index[j]).name@ == (#[trigger] all[i]).recipe by {
            if i < before.len() {
                assert(all[i] == before[i]);
                let j = choose|j: int|
                    0 <= j < rest.len() && (#[trigger] rest[j]).name@ == before[i].recipe;
                assert(index[j].name@ == all[i].recipe);
            } else {
                assert(index[index.len() - 1].name@ == all[i].recipe);
            }
        }
        assert forall|a: int, b: int| 0 <= a < b < all.len() implies (#[trigger] all[a]).recipe != (
        #[trigger] all[b]).recipe by {
            assert(all[a] == before[a]);
            if b < before.len() {
                assert(all[b] == before[b]);
            } else {
                let j = choose|j: int|
                    0 <= j < rest.len() && (#[trigger] rest[j]).name@ == before[a].recipe;
                assert(index[j].name@ != index[index.len() - 1].name@);
            }
        }
    }
}

/// No held card is ever bound at the top level of a candidate.
pub proof fn law_held_members_are_skipped(
    cards: Cards,
    root: u32,
    branch: u8,
    t: u64,
    now: u64,
    ids: Seq<u32>,
    i: int,
)
    requires
        is_chain(cards, root, branch, t, Some(now), ids),
        0 <= i < ids.len(),
    ensures
        !is_held(cards, ids[i], now),
{
    assert(ids.contains(ids[i]));
}

} // verus!
