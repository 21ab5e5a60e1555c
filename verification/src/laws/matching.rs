//! Which recipes apply to a root, and with which cards.
use vstd::prelude::*;

use crate::codec::Codec;
use crate::content::{RecipeIter, RecipeMeta};
use crate::matcher::{Frame, MatchView, Scene, Subject};
use crate::rows::Micro;
use crate::world::{CardView, TileView};

verus! {

use crate::actions::deep;
use crate::content::texts;
use crate::matcher::{
    all_empty, binding_of, bindings_of, chain_of, fits, flat, have_mask, in_branch, is_chain,
    promoted, shown, upheld, walk,
};
use crate::world::Cards;

/// The card is dead or claimed at `now`.
pub open spec fn is_taken(cards: Cards, id: u32, now: u64) -> bool {
    cards.at(id, now) matches Some(row) && (row.dead || row.stock.claimed)
}

/// A branch is there: a card lies on it, or a tile stands for the hex branch.
pub open spec fn is_there(branches: Seq<Seq<u32>>, tile: bool, b: u32) -> bool {
    b < 3 && (branches[b as int].len() > 0 || (b == 0 && tile))
}

/// Every branch that a recipe wants is there, bit by bit.
pub open spec fn wants_are_there(want: u32, branches: Seq<Seq<u32>>, tile: bool) -> bool {
    forall|b: u32| b < 32 && want & #[trigger] (1u32 << b) != 0 ==> is_there(branches, tile, b)
}

/// A recipe's anchors fit exactly where every branch it wants is there, and its root if it
/// uses one.
pub proof fn law_anchors_fit(
    uses_root: bool,
    want: u32,
    pass_root: u32,
    branches: Seq<Seq<u32>>,
    tile: bool,
)
    requires
        branches.len() == 3,
    ensures
        fits(uses_root, want, pass_root, branches, tile) <==> (uses_root ==> pass_root != 0)
            && wants_are_there(want, branches, tile),
{
    let h0 = branches[0].len() > 0 || tile;
    let h1 = branches[1].len() > 0;
    let h2 = branches[2].len() > 0;
    let have = have_mask(branches, tile);
    let a: u32 = if h0 {
        1
    } else {
        0
    };
    let b: u32 = if h1 {
        2
    } else {
        0
    };
    let c: u32 = if h2 {
        4
    } else {
        0
    };
    assert(have == a | b | c);
    assert forall|i: u32| i < 32 implies (#[trigger] (1u32 << i) & have != 0 <==> is_there(
        branches,
        tile,
        i,
    )) by {
        assert(((1u32 << i) & (a | b | c) != 0) == ((i == 0 && a == 1) || (i == 1 && b == 2) || (i
            == 2 && c == 4))) by (bit_vector)
            requires
                i < 32,
                a == 0 || a == 1,
                b == 0 || b == 2,
                c == 0 || c == 4,
        ;
    }
    if want & !have == 0 {
        assert forall|i: u32| i < 32 && want & #[trigger] (1u32 << i) != 0 implies is_there(
            branches,
            tile,
            i,
        ) by {
            assert((1u32 << i) & have != 0) by (bit_vector)
                requires
                    i < 32,
                    want & !have == 0,
                    want & (1u32 << i) != 0,
            ;
        }
    } else {
        let rest = want & !have;
        let i = lemma_some_bit(rest);
        assert(want & (1u32 << i) != 0 && (1u32 << i) & have == 0) by (bit_vector)
            requires
                i < 32,
                rest == want & !have,
                rest & (1u32 << i) != 0,
        ;
    }
}

proof fn lemma_some_bit(x: u32) -> (i: u32)
    requires
        x != 0,
    ensures
        i < 32,
        x & (1u32 << i) != 0,
{
    if forall|i: u32| i < 32 ==> x & #[trigger] (1u32 << i) == 0 {
        lemma_no_bit(x, 32);
        assert(x == 0) by (bit_vector)
            requires
                x & 0xFFFF_FFFFu32 == 0,
        ;
    }
    choose|i: u32| i < 32 && x & #[trigger] (1u32 << i) != 0
}

proof fn lemma_no_bit(x: u32, n: u32)
    requires
        n <= 32,
        forall|i: u32| i < 32 ==> x & #[trigger] (1u32 << i) == 0,
    ensures
        n < 32 ==> x & (((1u32 << n) - 1) as u32) == 0,
        n == 32 ==> x & 0xFFFF_FFFFu32 == 0,
    decreases n,
{
    if n == 0 {
        assert(x & (((1u32 << 0u32) - 1) as u32) == 0) by (bit_vector);
    } else {
        let k: u32 = (n - 1) as u32;
        lemma_no_bit(x, k);
        assert(x & (1u32 << k) == 0);
        if n < 32 {
            assert(x & (((1u32 << n) - 1) as u32) == 0) by (bit_vector)
                requires
                    0 < n < 32,
                    k == n - 1,
                    x & (1u32 << k) == 0,
                    x & (((1u32 << k) - 1) as u32) == 0,
            ;
        } else {
            assert(x & 0xFFFF_FFFFu32 == 0) by (bit_vector)
                requires
                    k == 31,
                    x & (1u32 << k) == 0,
                    x & (((1u32 << k) - 1) as u32) == 0,
            ;
        }
    }
}

/// The recipe holds, tried with these branches and this root in place: what it wants is
/// there, some iterator is bound to something if it has any, and the judge upholds it on
/// what was bound.
pub open spec fn holds_with<'a, C: Codec, J: Fn(&Frame) -> bool>(
    scene: Scene<'a, C>,
    judge: J,
    m: RecipeMeta,
    in_place: u32,
    branches: Seq<Seq<u32>>,
    tile: Option<TileView>,
) -> bool {
    let bindings = bindings_of(scene.world.cards, m.iters@, branches, tile is Some, scene.now);
    &&& wants_are_there(m.want_branches, branches, tile is Some)
    &&& m.iters@.len() > 0 ==> exists|i: int|
        0 <= i < bindings.len() && (#[trigger] bindings[i]).len() > 0
    &&& exists|x: Frame| #[trigger]
        call_ensures(judge, (&x,), true) && x.recipe@ == m.name@ && x.root == in_place && deep(
            x.bindings@,
        ) == bindings && x.cards@ == scene.gathered(flat(bindings).push(in_place)) && x.tile == tile
}

/// The match tells the recipe, the root put in place, what was bound, how many input lines
/// the recipe has, and whether the soul sees the root as it is now.
pub open spec fn tells<'a, C: Codec>(
    scene: Scene<'a, C>,
    x: MatchView,
    m: RecipeMeta,
    root: u32,
    in_place: u32,
    branches: Seq<Seq<u32>>,
    tile: Option<TileView>,
) -> bool {
    &&& x.recipe == m.name@
    &&& x.root == in_place
    &&& x.bindings == bindings_of(
        scene.world.cards,
        m.iters@,
        branches,
        tile is Some,
        scene.now,
    )
    &&& x.input_count == m.input_count
    &&& x.live <==> scene.moment(root) == scene.now
}

proof fn lemma_pass<'a, C: Codec, J: Fn(&Frame) -> bool>(
    scene: Scene<'a, C>,
    judge: J,
    m: RecipeMeta,
    root: u32,
    in_place: u32,
    branches: Seq<Seq<u32>>,
    tile: Option<TileView>,
)
    requires
        branches.len() == 3,
        m.uses_root ==> in_place != 0,
    ensures
        ({
            let x = scene.pass_match(
                judge,
                m,
                in_place,
                branches,
                tile,
                scene.moment(root) == scene.now,
            );
            &&& x is Some <==> holds_with(scene, judge, m, in_place, branches, tile)
            &&& x is Some ==> tells(scene, x->0, m, root, in_place, branches, tile)
        }),
{
    law_anchors_fit(m.uses_root, m.want_branches, in_place, branches, tile is Some);
    let frame = scene.frame_of(m, in_place, branches, tile);
    if upheld(judge, frame) {
        let x = choose|x: Frame| x@ == frame && #[trigger] call_ensures(judge, (&x,), true);
        assert(x.recipe@ == m.name@ && x.cards@ == frame.cards);
    }
    if exists|x: Frame| #[trigger]
        call_ensures(judge, (&x,), true) && x.recipe@ == m.name@ && x.root == in_place && deep(
            x.bindings@,
        ) == frame.bindings && x.cards@ == frame.cards && x.tile == tile {
        let x = choose|x: Frame| #[trigger]
            call_ensures(judge, (&x,), true) && x.recipe@ == m.name@ && x.root == in_place && deep(
                x.bindings@,
            ) == frame.bindings && x.cards@ == frame.cards && x.tile == tile;
        assert(x@ == frame);
    }
    if exists|i: int| 0 <= i < frame.bindings.len() && (#[trigger] frame.bindings[i]).len() > 0 {
        let i = choose|i: int|
            0 <= i < frame.bindings.len() && (#[trigger] frame.bindings[i]).len() > 0;
        assert(!all_empty(frame.bindings));
    }
}

/// The branches with the root first in the up branch.
pub open spec fn root_up(base: Seq<Seq<u32>>, root: u32) -> Seq<Seq<u32>> {
    seq![base[0], seq![root] + base[1], base[2]]
}

/// The branches with the root first in the down branch.
pub open spec fn root_down(base: Seq<Seq<u32>>, root: u32) -> Seq<Seq<u32>> {
    seq![base[0], base[1], seq![root] + base[2]]
}

/// The match of a recipe comes of the root as it must: in place for a recipe that uses its
/// root; with nothing added where there is no root; else first in the up branch, or in the
/// down branch where the up branch does not hold.
pub open spec fn comes_of<'a, C: Codec, J: Fn(&Frame) -> bool>(
    scene: Scene<'a, C>,
    judge: J,
    m: RecipeMeta,
    root: u32,
    x: MatchView,
) -> bool {
    let base = scene.base_of(root);
    let tile = scene.tile_of(root);
    let up = root_up(base, root);
    let down = root_down(base, root);
    if m.uses_root {
        &&& root != 0
        &&& holds_with(scene, judge, m, root, base, tile)
        &&& tells(scene, x, m, root, root, base, tile)
    } else if root == 0 {
        &&& holds_with(scene, judge, m, 0, base, tile)
        &&& tells(scene, x, m, root, 0, base, tile)
    } else if holds_with(scene, judge, m, 0, up, tile) {
        tells(scene, x, m, root, 0, up, tile)
    } else {
        &&& holds_with(scene, judge, m, 0, down, tile)
        &&& tells(scene, x, m, root, 0, down, tile)
    }
}

/// A recipe matches a root: in place, or as first card of the up or the down branch.
pub proof fn law_recipe_matches<'a, C: Codec, J: Fn(&Frame) -> bool>(
    scene: Scene<'a, C>,
    judge: J,
    m: RecipeMeta,
    root: u32,
)
    ensures
        ({
            let base = scene.base_of(root);
            let tile = scene.tile_of(root);
            let x = scene.recipe_match(judge, m, root);
            &&& x is Some ==> comes_of(scene, judge, m, root, x->0)
            &&& m.uses_root && root != 0 && holds_with(scene, judge, m, root, base, tile)
                ==> x is Some
            &&& !m.uses_root && root == 0 && holds_with(scene, judge, m, 0, base, tile)
                ==> x is Some
            &&& !m.uses_root && root != 0 && holds_with(
                scene,
                judge,
                m,
                0,
                root_up(base, root),
                tile,
            ) ==> x is Some
            &&& !m.uses_root && root != 0 && holds_with(
                scene,
                judge,
                m,
                0,
                root_down(base, root),
                tile,
            ) ==> x is Some
        }),
{
    let base = scene.base_of(root);
    let tile = scene.tile_of(root);
    assert(promoted(base, root, 1) =~= root_up(base, root));
    assert(promoted(base, root, 2) =~= root_down(base, root));
    if m.uses_root {
        if root != 0 {
            lemma_pass(scene, judge, m, root, root, base, tile);
        }
    } else {
        lemma_pass(scene, judge, m, root, 0, base, tile);
        lemma_pass(scene, judge, m, root, 0, root_up(base, root), tile);
        lemma_pass(scene, judge, m, root, 0, root_down(base, root), tile);
    }
}

/// Every aspect that the recipe requires is shown by something the root could bind.
pub open spec fn in_reach<'a, C: Codec, S: Fn(&String, &Subject) -> bool>(
    scene: Scene<'a, C>,
    shows: S,
    m: RecipeMeta,
    root: u32,
) -> bool {
    forall|i: int|
        0 <= i < m.req_aspects@.len() ==> is_shown(
            scene,
            shows,
            root,
            (#[trigger] m.req_aspects@[i])@,
        )
}

/// Something that the root could bind shows the aspect.
pub open spec fn is_shown<'a, C: Codec, S: Fn(&String, &Subject) -> bool>(
    scene: Scene<'a, C>,
    shows: S,
    root: u32,
    aspect: Seq<char>,
) -> bool {
    exists|a: String, s: Subject| #[trigger]
        call_ensures(shows, (&a, &s), true) && a@ == aspect && could_bind(scene, root, s)
}

/// The root could bind the subject: a card that the soul knows, on one of its branches or
/// the root itself, or the tile under it.
pub open spec fn could_bind<'a, C: Codec>(scene: Scene<'a, C>, root: u32, s: Subject) -> bool {
    let base = scene.base_of(root);
    match s {
        Subject::Card(v) => exists|id: u32|
            (base[0].contains(id) || base[1].contains(id) || base[2].contains(id) || (root != 0
                && id == root)) && #[trigger] scene.known(id) == Some(v),
        Subject::Tile(t) => root != 0 && scene.tile_of(root) == Some(t),
    }
}

proof fn lemma_reach<'a, C: Codec, S: Fn(&String, &Subject) -> bool>(
    scene: Scene<'a, C>,
    shows: S,
    m: RecipeMeta,
    root: u32,
)
    ensures
        scene.passes_filter(shows, m, root) <==> in_reach(scene, shows, m, root),
{
    let base = scene.base_of(root);
    assert forall|id: u32| flat(base).contains(id) <==> base[0].contains(id) || base[1].contains(id)
        || base[2].contains(id) by {
        lemma_flat(base, id);
        if flat(base).contains(id) {
            let i = choose|i: int| 0 <= i < base.len() && (#[trigger] base[i]).contains(id);
            assert(i == 0 || i == 1 || i == 2);
        }
    }
    assert forall|s: Subject| #[trigger] scene.subject_of(root, s) <==> could_bind(
        scene,
        root,
        s,
    ) by {
        match s {
            Subject::Card(v) => {
                if scene.subject_of(root, s) {
                    let id = choose|id: u32|
                        (flat(base).contains(id) || (root != 0 && id == root)) && #[trigger]
                            scene.known(id) == Some(v);
                    assert(scene.known(id) == Some(v));
                }
                if could_bind(scene, root, s) {
                    let id = choose|id: u32|
                        (base[0].contains(id) || base[1].contains(id) || base[2].contains(id) || (
                        root != 0 && id == root)) && #[trigger] scene.known(id) == Some(v);
                    assert(scene.known(id) == Some(v));
                }
            },
            Subject::Tile(t) => {},
        }
    }
    let req = texts(m.req_aspects@);
    if scene.passes_filter(shows, m, root) {
        assert forall|i: int| 0 <= i < m.req_aspects@.len() implies is_shown(
            scene,
            shows,
            root,
            (#[trigger] m.req_aspects@[i])@,
        ) by {
            assert(req[i] == m.req_aspects@[i]@);
            assert(req.contains(req[i]));
            assert(scene.available(shows, root, req[i]));
            let s = choose|s: Subject| #[trigger]
                scene.subject_of(root, s) && shown(shows, req[i], s);
            let a = choose|a: String|
                a@ == req[i] && #[trigger] call_ensures(shows, (&a, &s), true);
            assert(could_bind(scene, root, s));
        }
    }
    if in_reach(scene, shows, m, root) {
        assert forall|t: Seq<char>| #[trigger] req.contains(t) implies scene.available(
            shows,
            root,
            t,
        ) by {
            let i = req.index_of(t);
            assert(req[i] == m.req_aspects@[i]@);
            assert(is_shown(scene, shows, root, m.req_aspects@[i]@));
            let (a, s) = choose|a: String, s: Subject| #[trigger]
                call_ensures(shows, (&a, &s), true) && a@ == t && could_bind(scene, root, s);
            assert(scene.subject_of(root, s));
            assert(shown(shows, t, s));
        }
        assert(scene.passes_filter(shows, m, root));
    }
}

proof fn lemma_flat(b: Seq<Seq<u32>>, id: u32)
    ensures
        flat(b).contains(id) <==> exists|i: int| 0 <= i < b.len() && (#[trigger] b[i]).contains(id),
    decreases b.len(),
{
    if b.len() > 0 {
        let rest = b.drop_last();
        lemma_flat(rest, id);
        let f = flat(rest);
        let last = b.last();
        assert(b[b.len() - 1] == last);
        if flat(b).contains(id) {
            let k = flat(b).index_of(id);
            if k < f.len() {
                assert(f[k] == id);
                let i = choose|i: int| 0 <= i < rest.len() && (#[trigger] rest[i]).contains(id);
                assert(b[i] == rest[i]);
            } else {
                assert(last[k - f.len()] == id);
            }
        }
        if exists|i: int| 0 <= i < b.len() && (#[trigger] b[i]).contains(id) {
            let i = choose|i: int| 0 <= i < b.len() && (#[trigger] b[i]).contains(id);
            if i < rest.len() {
                assert(rest[i].contains(id));
                let k = f.index_of(id);
                assert(flat(b)[k] == id);
            } else {
                let k = last.index_of(id);
                assert(flat(b)[f.len() + k] == id);
            }
        }
    }
}

/// The recipe is not ruled out by the filter, and matches the root as `x`.
#[verifier::opaque]
spec fn picks<'a, C: Codec, J: Fn(&Frame) -> bool, S: Fn(&String, &Subject) -> bool>(
    scene: Scene<'a, C>,
    judge: J,
    shows: S,
    m: RecipeMeta,
    root: u32,
    use_filter: bool,
    x: MatchView,
) -> bool {
    (use_filter ==> scene.passes_filter(shows, m, root)) && scene.recipe_match(judge, m, root)
        == Some(x)
}

proof fn lemma_step<'a, C: Codec, J: Fn(&Frame) -> bool, S: Fn(&String, &Subject) -> bool>(
    scene: Scene<'a, C>,
    judge: J,
    shows: S,
    index: Seq<RecipeMeta>,
    root: u32,
    use_filter: bool,
    x: MatchView,
)
    requires
        index.len() > 0,
    ensures
        scene.match_list(judge, shows, index, root, use_filter).contains(x) <==> scene.match_list(
            judge,
            shows,
            index.drop_last(),
            root,
            use_filter,
        ).contains(x) || picks(scene, judge, shows, index.last(), root, use_filter, x),
{
    reveal(picks);
    let before = scene.match_list(judge, shows, index.drop_last(), root, use_filter);
    let all = scene.match_list(judge, shows, index, root, use_filter);
    if use_filter && !scene.passes_filter(shows, index.last(), root) {
        assert(all == before);
    } else {
        match scene.recipe_match(judge, index.last(), root) {
            Some(y) => {
                assert(all == before.push(y));
                assert(all[before.len() as int] == y);
                if before.contains(x) {
                    let k = before.index_of(x);
                    assert(all[k] == x);
                }
                if all.contains(x) && x != y {
                    let k = all.index_of(x);
                    assert(before[k] == x);
                }
            },
            None => {
                assert(all == before);
            },
        }
    }
}

proof fn lemma_listed<'a, C: Codec, J: Fn(&Frame) -> bool, S: Fn(&String, &Subject) -> bool>(
    scene: Scene<'a, C>,
    judge: J,
    shows: S,
    index: Seq<RecipeMeta>,
    root: u32,
    use_filter: bool,
    x: MatchView,
)
    ensures
        scene.match_list(judge, shows, index, root, use_filter).contains(x) <==> exists|i: int|
            0 <= i < index.len() && picks(
                scene,
                judge,
                shows,
                #[trigger] index[i],
                root,
                use_filter,
                x,
            ),
    decreases index.len(),
{
    if index.len() == 0 {
        assert(scene.match_list(judge, shows, index, root, use_filter).len() == 0);
    } else {
        let rest = index.drop_last();
        lemma_listed(scene, judge, shows, rest, root, use_filter, x);
        lemma_step(scene, judge, shows, index, root, use_filter, x);
        assert(index[index.len() - 1] == index.last());
        assert(forall|i: int| 0 <= i < rest.len() ==> #[trigger] rest[i] == index[i]);
        if exists|i: int|
            0 <= i < index.len() && picks(
                scene,
                judge,
                shows,
                #[trigger] index[i],
                root,
                use_filter,
                x,
            ) {
            let i = choose|i: int|
                0 <= i < index.len() && picks(
                    scene,
                    judge,
                    shows,
                    #[trigger] index[i],
                    root,
                    use_filter,
                    x,
                );
            if i < rest.len() {
                assert(rest[i] == index[i]);
            }
        }
    }
}

/// Every match of a root that is not taken comes of an indexed recipe whose aspects are in
/// reach, where those are asked for, and of the root in place, up or down, the first that
/// holds; and a taken root has no match.
pub proof fn law_every_match_has_its_cause<
    'a,
    C: Codec,
    J: Fn(&Frame) -> bool,
    S: Fn(&String, &Subject) -> bool,
>(scene: Scene<'a, C>, judge: J, shows: S, root: u32, use_filter: bool, x: MatchView)
    requires
        scene.matches(judge, shows, root, use_filter).contains(x),
    ensures
        root == 0 || !is_taken(scene.world.cards, root, scene.now),
        exists|i: int|
            0 <= i < scene.content.index().len() && (use_filter ==> in_reach(
                scene,
                shows,
                #[trigger] scene.content.index()[i],
                root,
            )) && comes_of(scene, judge, scene.content.index()[i], root, x),
{
    let index = scene.content.index();
    lemma_listed(scene, judge, shows, index, root, use_filter, x);
    let i = choose|i: int|
        0 <= i < index.len() && picks(
            scene,
            judge,
            shows,
            #[trigger] index[i],
            root,
            use_filter,
            x,
        );
    reveal(picks);
    lemma_reach(scene, shows, index[i], root);
    law_recipe_matches(scene, judge, index[i], root);
    assert(index[i] == scene.content.index()[i]);
}

/// An indexed recipe that does not use its root matches a root that is not taken, other than
/// zero, wherever it holds with the root put first in the up branch or in the down branch
/// and its aspects are in reach.
pub proof fn law_root_joins_a_branch<
    'a,
    C: Codec,
    J: Fn(&Frame) -> bool,
    S: Fn(&String, &Subject) -> bool,
>(scene: Scene<'a, C>, judge: J, shows: S, root: u32, use_filter: bool, i: int)
    requires
        root != 0,
        !is_taken(scene.world.cards, root, scene.now),
        0 <= i < scene.content.index().len(),
        !scene.content.index()[i].uses_root,
        use_filter ==> in_reach(scene, shows, scene.content.index()[i], root),
        ({
            let m = scene.content.index()[i];
            let base = scene.base_of(root);
            let tile = scene.tile_of(root);
            ||| holds_with(scene, judge, m, 0, root_up(base, root), tile)
            ||| holds_with(scene, judge, m, 0, root_down(base, root), tile)
        }),
    ensures
        exists|x: MatchView| #[trigger]
            scene.matches(judge, shows, root, use_filter).contains(x) && x.recipe
                == scene.content.index()[i].name@ && comes_of(
                scene,
                judge,
                scene.content.index()[i],
                root,
                x,
            ),
{
    let index = scene.content.index();
    let m = index[i];
    lemma_reach(scene, shows, m, root);
    law_recipe_matches(scene, judge, m, root);
    let x = scene.recipe_match(judge, m, root)->0;
    lemma_listed(scene, judge, shows, index, root, use_filter, x);
    assert(picks(scene, judge, shows, m, root, use_filter, x)) by {
        reveal(picks);
    }
    assert(scene.matches(judge, shows, root, use_filter).contains(x));
}

/// An indexed recipe that uses its root matches a root that is not taken, other than zero,
/// wherever it holds with the root in place and its aspects are in reach; one that does not
/// matches the absent root wherever it holds with nothing added.
pub proof fn law_root_stays_in_place<
    'a,
    C: Codec,
    J: Fn(&Frame) -> bool,
    S: Fn(&String, &Subject) -> bool,
>(scene: Scene<'a, C>, judge: J, shows: S, root: u32, use_filter: bool, i: int)
    requires
        root == 0 || !is_taken(scene.world.cards, root, scene.now),
        0 <= i < scene.content.index().len(),
        scene.content.index()[i].uses_root <==> root != 0,
        use_filter ==> in_reach(scene, shows, scene.content.index()[i], root),
        holds_with(
            scene,
            judge,
            scene.content.index()[i],
            root,
            scene.base_of(root),
            scene.tile_of(root),
        ),
    ensures
        exists|x: MatchView| #[trigger]
            scene.matches(judge, shows, root, use_filter).contains(x) && comes_of(
                scene,
                judge,
                scene.content.index()[i],
                root,
                x,
            ),
{
    let index = scene.content.index();
    let m = index[i];
    lemma_reach(scene, shows, m, root);
    law_recipe_matches(scene, judge, m, root);
    let x = scene.recipe_match(judge, m, root)->0;
    lemma_listed(scene, judge, shows, index, root, use_filter, x);
    assert(picks(scene, judge, shows, m, root, use_filter, x)) by {
        reveal(picks);
    }
    assert(scene.matches(judge, shows, root, use_filter).contains(x));
}

/// A top-level iterator is bound to all cards of its branch, in order; over an empty hex
/// branch with a tile to the tile, which is written as zero; and otherwise to nothing.
pub proof fn law_iterators_bind_their_branch(
    cards: Cards,
    iters: Seq<RecipeIter>,
    branches: Seq<Seq<u32>>,
    tile: bool,
    now: u64,
    i: int,
)
    requires
        0 <= i < iters.len(),
        branches.len() == 3,
    ensures
        bindings_of(cards, iters, branches, tile, now).len() == iters.len(),
        ({
            let ids = bindings_of(cards, iters, branches, tile, now)[i];
            let it = iters[i];
            &&& it.parent@.len() == 0 && it.branch < 3 && branches[it.branch as int].len() > 0
                ==> ids == branches[it.branch as int]
            &&& it.parent@.len() == 0 && it.branch == 0 && branches[0].len() == 0 && tile ==> ids
                == seq![0u32]
            &&& it.parent@.len() == 0 && it.branch == 0 && branches[0].len() == 0 && !tile
                ==> ids.len() == 0
            &&& it.parent@.len() == 0 && 0 < it.branch < 3 && branches[it.branch as int].len() == 0
                ==> ids.len() == 0
            &&& it.parent@.len() == 0 && it.branch >= 3 ==> ids.len() == 0
        }),
{
}

/// An iterator below another card is bound to the members of that card's branch, taken or
/// not, in stack order; to nothing where its path leads nowhere.
pub proof fn law_nested_iterators_bind_a_chain(
    cards: Cards,
    it: RecipeIter,
    branches: Seq<Seq<u32>>,
    tile: bool,
    now: u64,
    chain: Seq<u32>,
    id: u32,
)
    requires
        it.parent@.len() > 0,
        ({
            let p = walk(cards, branches, crate::text::segments(it.parent@, '.'), 0, 0, now);
            p != 0 ==> is_chain(cards, p, it.branch, now, None, chain)
        }),
    ensures
        ({
            let p = walk(cards, branches, crate::text::segments(it.parent@, '.'), 0, 0, now);
            let ids = binding_of(cards, it, branches, tile, now);
            &&& p == 0 ==> ids.len() == 0
            &&& p != 0 ==> (ids.contains(id) <==> (cards.at(id, now) matches Some(row)
                && row.micro matches Micro::Stacked { root, branch, .. } && root == p && branch
                == it.branch))
            &&& p != 0 ==> in_stack_order(cards, now, ids)
        }),
{
    let p = walk(cards, branches, crate::text::segments(it.parent@, '.'), 0, 0, now);
    if p != 0 {
        let ids = chain_of(cards, p, it.branch, now, None);
        assert(is_chain(cards, p, it.branch, now, None, ids));
        lemma_order(cards, p, it.branch, now, None, ids);
        assert(ids.contains(id) <==> in_branch(cards, p, it.branch, now, None, id));
    }
}

/// Cards of a stack follow each other by their index, then by their id.
pub open spec fn in_stack_order(cards: Cards, t: u64, ids: Seq<u32>) -> bool {
    forall|a: int, b: int|
        0 <= a < b < ids.len() ==> (cards.at(#[trigger] ids[a], t)->0.micro matches Micro::Stacked {
            index: i,
            ..
        } && cards.at(#[trigger] ids[b], t)->0.micro matches Micro::Stacked { index: j, .. } && (i
            < j || (i == j && cards.at(ids[a], t)->0.card_id < cards.at(ids[b], t)->0.card_id)))
}

proof fn lemma_order(
    cards: Cards,
    root: u32,
    branch: u8,
    t: u64,
    skip: Option<u64>,
    ids: Seq<u32>,
)
    requires
        is_chain(cards, root, branch, t, skip, ids),
    ensures
        in_stack_order(cards, t, ids),
{
    assert forall|a: int, b: int| 0 <= a < b < ids.len() implies (cards.at(
        #[trigger] ids[a],
        t,
    )->0.micro matches Micro::Stacked { index: i, .. } && cards.at(
        #[trigger] ids[b],
        t,
    )->0.micro matches Micro::Stacked { index: j, .. } && (i < j || (i == j && cards.at(
        ids[a],
        t,
    )->0.card_id < cards.at(ids[b], t)->0.card_id))) by {
        assert(ids.contains(ids[a]));
        assert(ids.contains(ids[b]));
        assert(in_branch(cards, root, branch, t, skip, ids[a]));
        assert(in_branch(cards, root, branch, t, skip, ids[b]));
    }
}

/// The branches of a root hold the cards that the soul, at the moment at which it knows the
/// root, knows to be stacked on it, in stack order, without those that are taken now.
pub proof fn law_branches_of_a_root<'a, C: Codec>(
    scene: Scene<'a, C>,
    root: u32,
    branch: u8,
    chain: Seq<u32>,
    id: u32,
)
    requires
        branch < 3,
        is_chain(
            scene.world.cards,
            root,
            branch,
            scene.moment(root),
            Some(scene.now),
            chain,
        ),
    ensures
        scene.base_of(root).len() == 3,
        ({
            let ids = scene.base_of(root)[branch as int];
            let t = scene.moment(root);
            &&& ids.contains(id) <==> (scene.world.cards.at(id, t) matches Some(row)
                && row.micro matches Micro::Stacked { root: r, branch: b, .. } && r == root && b
                == branch) && !is_taken(scene.world.cards, id, scene.now)
            &&& in_stack_order(scene.world.cards, t, ids)
        }),
{
    let t = scene.moment(root);
    let ids = scene.base_of(root)[branch as int];
    assert(ids == chain_of(scene.world.cards, root, branch, t, Some(scene.now)));
    assert(is_chain(scene.world.cards, root, branch, t, Some(scene.now), ids));
    lemma_order(scene.world.cards, root, branch, t, Some(scene.now), ids);
    assert(ids.contains(id) <==> in_branch(
        scene.world.cards,
        root,
        branch,
        t,
        Some(scene.now),
        id,
    ));
}

/// The judge is shown every bound card, and the root in place, that stands for a card the
/// soul knows, and no other.
pub proof fn law_judge_sees_what_is_bound<'a, C: Codec>(
    scene: Scene<'a, C>,
    m: RecipeMeta,
    in_place: u32,
    branches: Seq<Seq<u32>>,
    tile: Option<TileView>,
    id: u32,
    v: CardView,
)
    ensures
        ({
            let frame = scene.frame_of(m, in_place, branches, tile);
            frame.cards.contains((id, v)) <==> id != 0 && scene.known(id) == Some(v) && (id
                == in_place || exists|i: int|
                0 <= i < frame.bindings.len() && (#[trigger] frame.bindings[i]).contains(id))
        }),
{
    let frame = scene.frame_of(m, in_place, branches, tile);
    let f = flat(frame.bindings);
    let ids = f.push(in_place);
    lemma_gathered(scene, ids, id, v);
    lemma_flat(frame.bindings, id);
    if f.contains(id) {
        let k = f.index_of(id);
        assert(ids[k] == id);
    }
    assert(ids[f.len() as int] == in_place);
    if ids.contains(id) {
        let k = ids.index_of(id);
        if k < f.len() {
            assert(f[k] == id);
        }
    }
}

proof fn lemma_gathered<'a, C: Codec>(scene: Scene<'a, C>, ids: Seq<u32>, id: u32, v: CardView)
    ensures
        scene.gathered(ids).contains((id, v)) <==> id != 0 && scene.known(id) == Some(v)
            && ids.contains(id),
    decreases ids.len(),
{
    if ids.len() > 0 {
        let rest = ids.drop_last();
        lemma_gathered(scene, rest, id, v);
        let before = scene.gathered(rest);
        let all = scene.gathered(ids);
        assert(ids[ids.len() - 1] == ids.last());
        if ids.contains(id) && id != ids.last() {
            let k = ids.index_of(id);
            assert(rest[k] == id);
        }
        if rest.contains(id) {
            let k = rest.index_of(id);
            assert(ids[k] == id);
        }
        if before.contains((id, v)) {
            let k = before.index_of((id, v));
            assert(all[k] == (id, v));
        }
        if all.contains((id, v)) {
            let k = all.index_of((id, v));
            if k < before.len() {
                assert(before[k] == (id, v));
            }
        }
        if id == ids.last() && id != 0 && scene.known(id) == Some(v) {
            assert(all[before.len() as int] == (id, v));
        }
    }
}

/// A path leads step by step: a slot picks the card of that number on that branch, `owner`
/// steps to the owner, `parent` to the card at the place of the card; from nothing it leads
/// nowhere.
pub proof fn law_paths_lead_step_by_step(
    cards: Cards,
    branches: Seq<Seq<u32>>,
    segs: Seq<Seq<char>>,
    i: int,
    card: u32,
    now: u64,
)
    requires
        branches.len() == 3,
        0 <= i <= segs.len(),
    ensures
        ({
            let end = walk(cards, branches, segs, i, card, now);
            let row = cards.at(card, now);
            &&& i == segs.len() ==> end == card
            &&& i < segs.len() && segs[i] == "owner"@ ==> end == (if row is Some
                && row->0.owner_id != 0 {
                walk(cards, branches, segs, i + 1, row->0.owner_id, now)
            } else {
                0
            })
            &&& i < segs.len() && segs[i] == "parent"@ ==> end == (if row is Some
                && row->0.micro_location != 0 {
                walk(cards, branches, segs, i + 1, row->0.micro_location, now)
            } else {
                0
            })
            &&& forall|b: nat, o: nat|
                i + 2 < segs.len() && segs[i] == "slot"@ && segs[i + 1] == #[trigger] crate::text::decimal(
                    b,
                ) && segs[i + 2] == #[trigger] crate::text::decimal(o) ==> end == (if b < 3 && o
                    < branches[b as int].len() && branches[b as int][o as int] != 0 {
                    walk(cards, branches, segs, i + 3, branches[b as int][o as int], now)
                } else {
                    0
                })
        }),
{
    reveal_strlit("slot");
    reveal_strlit("owner");
    reveal_strlit("parent");
    assert("slot"@.len() != "owner"@.len() && "slot"@.len() != "parent"@.len() && "owner"@.len()
        != "parent"@.len());
    assert forall|b: nat, o: nat|
        i + 2 < segs.len() && segs[i] == "slot"@ && segs[i + 1] == #[trigger] crate::text::decimal(
            b,
        ) && segs[i + 2] == #[trigger] crate::text::decimal(o) implies walk(
        cards,
        branches,
        segs,
        i,
        card,
        now,
    ) == (if b < 3 && o < branches[b as int].len() && branches[b as int][o as int] != 0 {
        walk(cards, branches, segs, i + 3, branches[b as int][o as int], now)
    } else {
        0
    }) by {
        crate::text::law_decimal_round_trips(b);
        crate::text::law_decimal_round_trips(o);
    }
}

/// The soul knows a card as its row was at the moment at which it last saw the card's
/// latest zone, which is now where it has that zone in view or no memory of it; and only if
/// the card's definition is known.
pub proof fn law_soul_knows_cards_as_of_its_view<'a, C: Codec>(scene: Scene<'a, C>, id: u32)
    ensures
        ({
            let t = scene.moment(id);
            &&& scene.world.cards.latest_zone(id) is None ==> t == scene.now
            &&& scene.world.cards.latest_zone(id) matches Some(zone) ==> {
                let seen = scene.zones.card_view(scene.soul, zone, scene.now);
                (seen is Some ==> t == seen->0) && (seen is None ==> t == scene.now)
            }
            &&& scene.known(id) is Some <==> (scene.world.cards.at(id, t) matches Some(row)
                && exists|i: int|
                0 <= i < scene.content.cards().len() && (
                #[trigger] scene.content.cards()[i]).packed == row.packed_definition)
            &&& scene.known(id) matches Some(v) ==> {
                let row = scene.world.cards.at(id, t)->0;
                &&& v.card_id == row.card_id
                &&& v.owner_id == row.owner_id
                &&& v.micro_location == row.micro_location
                &&& v.micro == row.micro
                &&& v.macro_zone == row.macro_zone
                &&& v.packed_definition == row.packed_definition
                &&& v.flags == row.flags
                &&& v.stock == row.stock
            }
        }),
{
    let t = scene.moment(id);
    if let Some(row) = scene.world.cards.at(id, t) {
        crate::laws::contents::law_first_definition_counts(
            scene.content.cards(),
            row.packed_definition,
        );
    }
}

/// The tile under a root is that of its cell: where the root lies loose on a world surface,
/// no card is on its hex branch, and the tile's definition is known.
pub proof fn law_tile_lies_under_a_loose_root<'a, C: Codec>(scene: Scene<'a, C>, root: u32)
    ensures
        ({
            let t = scene.moment(root);
            let row = scene.world.cards.at(root, t);
            let tile = scene.tile_of(root);
            tile is Some <==> (root != 0 && scene.base_of(root)[0].len() == 0 && row is Some
                && row->0.surface >= 64 && row->0.micro is Loose && {
                let under = scene.world.tile_spec(
                    row->0.macro_zone,
                    row->0.micro->local_q,
                    row->0.micro->local_r,
                    t,
                );
                under is Some && exists|i: int|
                    0 <= i < scene.content.cards().len() && (
                    #[trigger] scene.content.cards()[i]).packed == under->0.packed_definition
            })
        }),
        ({
            let t = scene.moment(root);
            let row = scene.world.cards.at(root, t);
            scene.tile_of(root) is Some ==> scene.tile_of(root) == scene.world.tile_spec(
                row->0.macro_zone,
                row->0.micro->local_q,
                row->0.micro->local_r,
                t,
            )
        }),
{
    let t = scene.moment(root);
    if let Some(row) = scene.world.cards.at(root, t) {
        if row.micro is Loose {
            let under = scene.world.tile_spec(
                row.macro_zone,
                row.micro->local_q,
                row.micro->local_r,
                t,
            );
            if under is Some {
                crate::laws::contents::law_first_definition_counts(
                    scene.content.cards(),
                    under->0.packed_definition,
                );
            }
        }
    }
}

/// Matches come in the order of the index: that of a further recipe, if it has one, behind
/// those of the recipes before it.
pub proof fn law_matches_follow_the_index<
    'a,
    C: Codec,
    J: Fn(&Frame) -> bool,
    S: Fn(&String, &Subject) -> bool,
>(
    scene: Scene<'a, C>,
    judge: J,
    shows: S,
    index: Seq<RecipeMeta>,
    m: RecipeMeta,
    root: u32,
    use_filter: bool,
)
    ensures
        ({
            let before = scene.match_list(judge, shows, index, root, use_filter);
            let after = scene.match_list(judge, shows, index.push(m), root, use_filter);
            &&& before.is_prefix_of(after)
            &&& after.len() <= before.len() + 1
            &&& after.len() > before.len() ==> comes_of(scene, judge, m, root, after.last()) && (
            use_filter ==> in_reach(scene, shows, m, root))
        }),
{
    assert(index.push(m).drop_last() =~= index);
    law_recipe_matches(scene, judge, m, root);
    lemma_reach(scene, shows, m, root);
}

} // verus!
