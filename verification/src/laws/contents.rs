//! What the content holds, and what is read out of it.
use vstd::prelude::*;

use crate::content::{CardDef, Content, RecipeEntry, Stmt, Token};
use crate::rows::TileSlot;

verus! {

use crate::client::tile_names;
use crate::content::{
    aspects_in, branches_fit, def_in, demand_at, demands, describes, instr_count, is_guard,
    law_mask_has_the_branches, line_demands, lines_touch_root, matchable, packed_in, recipe_id_in,
    texts, with_demands,
};

/// A definition is found by its packed number wherever there is one; of several the first.
pub proof fn law_first_definition_counts(cards: Seq<CardDef>, packed: u16)
    ensures
        def_in(cards, packed) is Some <==> exists|i: int|
            0 <= i < cards.len() && (#[trigger] cards[i]).packed == packed,
        def_in(cards, packed) matches Some(d) ==> exists|i: int|
            0 <= i < cards.len() && #[trigger] cards[i] == d && d.packed == packed && forall|j: int|
                0 <= j < i ==> (#[trigger] cards[j]).packed != packed,
    decreases cards.len(),
{
    if cards.len() > 0 {
        let rest = cards.drop_last();
        let n = cards.len() - 1;
        law_first_definition_counts(rest, packed);
        assert(cards[n] == cards.last());
        assert(forall|i: int| 0 <= i < n ==> rest[i] == #[trigger] cards[i]);
        if def_in(rest, packed) is Some {
            let i = choose|i: int|
                0 <= i < rest.len() && #[trigger] rest[i] == def_in(rest, packed)->0
                    && rest[i].packed == packed && forall|j: int|
                    0 <= j < i ==> (#[trigger] rest[j]).packed != packed;
            assert(cards[i] == rest[i]);
            assert forall|j: int| 0 <= j < i implies (#[trigger] cards[j]).packed != packed by {
                assert(rest[j] == cards[j]);
            }
        } else {
            assert forall|j: int| 0 <= j < n implies (#[trigger] cards[j]).packed != packed by {
                assert(rest[j] == cards[j]);
            }
        }
    }
}

/// A name stands for the packed number of the first definition of that name.
pub proof fn law_first_name_counts(cards: Seq<CardDef>, name: Seq<char>)
    ensures
        packed_in(cards, name) is Some <==> exists|i: int|
            0 <= i < cards.len() && (#[trigger] cards[i]).name@ == name,
        packed_in(cards, name) matches Some(p) ==> exists|i: int|
            0 <= i < cards.len() && (#[trigger] cards[i]).name@ == name && cards[i].packed == p
                && forall|j: int| 0 <= j < i ==> (#[trigger] cards[j]).name@ != name,
    decreases cards.len(),
{
    if cards.len() > 0 {
        let rest = cards.drop_last();
        let n = cards.len() - 1;
        law_first_name_counts(rest, name);
        assert(cards[n] == cards.last());
        assert(forall|i: int| 0 <= i < n ==> rest[i] == #[trigger] cards[i]);
        if packed_in(rest, name) is Some {
            let i = choose|i: int|
                0 <= i < rest.len() && (#[trigger] rest[i]).name@ == name && rest[i].packed
                    == packed_in(rest, name)->0 && forall|j: int|
                    0 <= j < i ==> (#[trigger] rest[j]).name@ != name;
            assert(cards[i] == rest[i]);
            assert forall|j: int| 0 <= j < i implies (#[trigger] cards[j]).name@ != name by {
                assert(rest[j] == cards[j]);
            }
        } else {
            assert forall|j: int| 0 <= j < n implies (#[trigger] cards[j]).name@ != name by {
                assert(rest[j] == cards[j]);
            }
        }
    }
}

/// A recipe's name stands for the id of the first recipe of that name.
pub proof fn law_first_recipe_counts(entries: Seq<RecipeEntry>, name: Seq<char>)
    ensures
        recipe_id_in(entries, name) is Some <==> exists|i: int|
            0 <= i < entries.len() && (#[trigger] entries[i]).name@ == name,
        recipe_id_in(entries, name) matches Some(p) ==> exists|i: int|
            0 <= i < entries.len() && (#[trigger] entries[i]).name@ == name && entries[i].id == p
                && forall|j: int| 0 <= j < i ==> (#[trigger] entries[j]).name@ != name,
    decreases entries.len(),
{
    if entries.len() > 0 {
        let rest = entries.drop_last();
        let n = entries.len() - 1;
        law_first_recipe_counts(rest, name);
        assert(entries[n] == entries.last());
        assert(forall|i: int| 0 <= i < n ==> rest[i] == #[trigger] entries[i]);
        if recipe_id_in(rest, name) is Some {
            let i = choose|i: int|
                0 <= i < rest.len() && (#[trigger] rest[i]).name@ == name && rest[i].id
                    == recipe_id_in(rest, name)->0 && forall|j: int|
                    0 <= j < i ==> (#[trigger] rest[j]).name@ != name;
            assert(entries[i] == rest[i]);
            assert forall|j: int| 0 <= j < i implies (#[trigger] entries[j]).name@ != name by {
                assert(rest[j] == entries[j]);
            }
        } else {
            assert forall|j: int| 0 <= j < n implies (#[trigger] entries[j]).name@ != name by {
                assert(rest[j] == entries[j]);
            }
        }
    }
}

/// The input lines of a recipe are its instructions, however many other lines there are.
pub proof fn law_input_lines_are_instructions(lines: Seq<Stmt>)
    ensures
        instr_count(lines) == lines.filter(|s: Stmt| s is Instr).len(),
    decreases lines.len(),
{
    reveal(Seq::filter);
    if lines.len() > 0 {
        law_input_lines_are_instructions(lines.drop_last());
    }
}

/// What can be matched is what has an iterator or uses its root, in the order of the recipes.
pub proof fn law_matchable_has_something_to_work_on(entries: Seq<RecipeEntry>)
    ensures
        matchable(entries) == entries.filter(
            |e: RecipeEntry|
                e.body matches Some(r) && (r.iters@.len() > 0 || lines_touch_root(r.input@)
                    || lines_touch_root(r.output@)),
        ),
    decreases entries.len(),
{
    reveal(Seq::filter);
    if entries.len() > 0 {
        law_matchable_has_something_to_work_on(entries.drop_last());
    }
}

/// Lines use the root exactly where one of them reads or writes a path that is `root`, or
/// that starts with `root` and a dot.
pub proof fn law_root_is_used_by_name(lines: Seq<Stmt>)
    ensures
        lines_touch_root(lines) <==> exists|i: int, j: int, p: Seq<char>|
            0 <= i < lines.len() && 0 <= j < tokens_of(lines[i]).len() && #[trigger] path_in(
                tokens_of(lines[i])[j],
                p,
            ) && names_root(p),
{
    if lines_touch_root(lines) {
        let (i, j) = choose|i: int, j: int| crate::content::line_touches_root(lines, i, j);
        let t = tokens_of(lines[i])[j];
        let p = match t {
            Token::Slot(p) => p@,
            Token::Value(p) => p@,
            _ => Seq::empty(),
        };
        assert(path_in(tokens_of(lines[i])[j], p));
        if p != "root"@ {
            let rest = p.skip(5);
            assert(p =~= p.take(5) + rest);
            assert(p == "root."@ + rest);
        }
        assert(names_root(p));
    }
    if exists|i: int, j: int, p: Seq<char>|
        0 <= i < lines.len() && 0 <= j < tokens_of(lines[i]).len() && #[trigger] path_in(
            tokens_of(lines[i])[j],
            p,
        ) && names_root(p) {
        let (i, j, p) = choose|i: int, j: int, p: Seq<char>|
            0 <= i < lines.len() && 0 <= j < tokens_of(lines[i]).len() && #[trigger] path_in(
                tokens_of(lines[i])[j],
                p,
            ) && names_root(p);
        reveal_strlit("root.");
        if p != "root"@ {
            let rest = choose|rest: Seq<char>| p == #[trigger] ("root."@ + rest);
            assert(p.take(5) =~= "root."@);
        }
        assert(crate::content::line_touches_root(lines, i, j));
    }
}

/// The path is `root`, or starts with `root` and a dot.
pub open spec fn names_root(p: Seq<char>) -> bool {
    p == "root"@ || exists|rest: Seq<char>| p == #[trigger] ("root."@ + rest)
}

/// The tokens of a line.
pub open spec fn tokens_of(line: Stmt) -> Seq<Token> {
    match line {
        Stmt::Instr(toks) => toks@,
        Stmt::Other => Seq::empty(),
    }
}

/// The token reads or writes that path.
pub open spec fn path_in(t: Token, p: Seq<char>) -> bool {
    (t matches Token::Slot(x) && x@ == p) || (t matches Token::Value(x) && x@ == p)
}

/// The index has one entry for each recipe that can be matched, in their order, and it tells
/// the recipe's name, its iterators, whether it uses its root, the bits of the branches that
/// its top-level iterators walk, how many instructions its input has, and the aspects that
/// those demand.
pub proof fn law_index_describes_the_recipes(content: Content, i: int, b: u8)
    requires
        content.wf(),
        0 <= i < content.index().len(),
    ensures
        ({
            let can = content.recipes().filter(
                |e: RecipeEntry|
                    e.body matches Some(r) && (r.iters@.len() > 0 || lines_touch_root(r.input@)
                        || lines_touch_root(r.output@)),
            );
            let m = content.index()[i];
            let e = can[i];
            let r = e.body->0;
            &&& content.index().len() == can.len()
            &&& m.name@ == e.name@
            &&& e.body is Some
            &&& m.iters@.len() == r.iters@.len()
            &&& forall|j: int|
                0 <= j < m.iters@.len() ==> (#[trigger] m.iters@[j]).parent@ == r.iters@[j].parent@
                    && m.iters@[j].branch == r.iters@[j].branch
            &&& m.uses_root <==> lines_touch_root(r.input@) || lines_touch_root(r.output@)
            &&& m.input_count == r.input@.filter(|s: Stmt| s is Instr).len()
            &&& branches_fit(r.iters@) && b < 32 ==> (m.want_branches & (1u32 << b) != 0
                <==> exists|j: int|
                0 <= j < r.iters@.len() && (#[trigger] r.iters@[j]).parent@.len() == 0
                    && r.iters@[j].branch == b)
            &&& forall|a: Seq<char>| #[trigger]
                texts(m.req_aspects@).contains(a) <==> is_demanded(r.input@, a)
        }),
{
    content.lemma_wf();
    law_matchable_has_something_to_work_on(content.recipes());
    let e = matchable(content.recipes())[i];
    let m = content.index()[i];
    assert(describes(m, e));
    let r = e.body->0;
    law_input_lines_are_instructions(r.input@);
    if branches_fit(r.iters@) && b < 32 {
        law_mask_has_the_branches(r.iters@, b);
    }
    assert forall|a: Seq<char>| #[trigger] texts(m.req_aspects@).contains(a) <==> is_demanded(
        r.input@,
        a,
    ) by {
        lemma_demanded(r.input@, a);
    }
}

/// Some guarded line without an alternative demands the aspect at one of its tokens.
pub open spec fn is_demanded(lines: Seq<Stmt>, aspect: Seq<char>) -> bool {
    exists|i: int, j: int|
        0 <= i < lines.len() && is_guard(tokens_of(lines[i])) && #[trigger] demand_at(
            tokens_of(lines[i]),
            j,
        ) == Some(aspect)
}

proof fn lemma_demanded(lines: Seq<Stmt>, aspect: Seq<char>)
    ensures
        demands(lines, aspect) <==> is_demanded(lines, aspect),
{
    if demands(lines, aspect) {
        let (i, j) = choose|i: int, j: int| line_demands(lines, i, j, aspect);
        assert(demand_at(tokens_of(lines[i]), j) == Some(aspect));
    }
    if is_demanded(lines, aspect) {
        let (i, j) = choose|i: int, j: int|
            0 <= i < lines.len() && is_guard(tokens_of(lines[i])) && #[trigger] demand_at(
                tokens_of(lines[i]),
                j,
            ) == Some(aspect);
        assert(line_demands(lines, i, j, aspect));
    }
}

/// The aspects are listed as they are first demanded: those of a further guarded line, as
/// far as they are new, behind those of the lines before; each once.
pub proof fn law_aspects_are_listed_as_first_demanded(lines: Seq<Stmt>, line: Stmt)
    ensures
        aspects_in(lines).is_prefix_of(aspects_in(lines.push(line))),
        !is_guard(tokens_of(line)) ==> aspects_in(lines.push(line)) == aspects_in(lines),
        aspects_in(Seq::empty()).len() == 0,
{
    assert(lines.push(line).drop_last() =~= lines);
    let before = aspects_in(lines);
    if let Stmt::Instr(toks) = line {
        lemma_demands_are_added(before, toks@, toks@.len());
    }
}

proof fn lemma_demands_are_added(v: Seq<Seq<char>>, toks: Seq<Token>, n: nat)
    ensures
        v.is_prefix_of(with_demands(v, toks, n)),
    decreases n,
{
    if n > 0 {
        lemma_demands_are_added(v, toks, (n - 1) as nat);
    }
}

/// The names of the tiles are those of the definitions of the cells that are not empty, each
/// once.
pub proof fn law_tile_names_are_those_of_their_definitions(
    content: Content,
    tiles: Seq<TileSlot>,
    name: Seq<char>,
)
    ensures
        tile_names(content, tiles).contains(name) <==> exists|i: int|
            0 <= i < tiles.len() && (#[trigger] tiles[i]).def_id != 0 && (def_in(
                content.cards(),
                tiles[i].packed,
            ) matches Some(d) && d.name@ == name),
        tile_names(content, tiles).no_duplicates(),
    decreases tiles.len(),
{
    if tiles.len() > 0 {
        let rest = tiles.drop_last();
        let n = tiles.len() - 1;
        law_tile_names_are_those_of_their_definitions(content, rest, name);
        assert(tiles[n] == tiles.last());
        assert(forall|i: int| 0 <= i < n ==> #[trigger] rest[i] == tiles[i]);
        assert(forall|i: int| 0 <= i < n ==> rest[i] == #[trigger] tiles[i]);
        let before = tile_names(content, rest);
        let all = tile_names(content, tiles);
        if before.contains(name) {
            let k = before.index_of(name);
            assert(all[k] == name);
        }
        if all.contains(name) {
            let k = all.index_of(name);
            if k < before.len() {
                assert(before[k] == name);
            }
        }
        if let Some(d) = def_in(content.cards(), tiles.last().packed) {
            if tiles.last().def_id != 0 && !before.contains(d.name@) {
                assert(all[before.len() as int] == d.name@);
                assert forall|a: int, b: int| 0 <= a < b < all.len() implies all[a] != all[b] by {
                    if b == before.len() {
                        assert(before.contains(before[a]));
                    }
                }
            } else if tiles.last().def_id != 0 {
                assert(before.contains(d.name@));
            }
        }
    }
}

} // verus!
