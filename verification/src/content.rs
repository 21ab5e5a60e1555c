//! Content: card definitions and recipes, and the index the matcher works over.
use vstd::prelude::*;

use crate::text::{chars_of, is_at, join3, parse_u64, spells, split_text, to_text};
use crate::zones::AnchorRadii;

verus! {

use crate::text::{number_within, runs, segments};

/// What the core needs to know of a card definition.
#[derive(Debug)]
pub struct CardDef {
    pub name: String,
    pub packed: u16,
    /// The definition carries a non-zero `inventory` aspect: it is a container.
    pub inventory: bool,
    /// The `anchor_*` aspects.
    pub radii: AnchorRadii,
}

/// One word of a recipe line.
#[derive(Debug)]
pub enum Token {
    /// A reference to a slot.
    Slot(String),
    /// A read of a path.
    Value(String),
    Number(i64),
    Word(String),
    Other,
}

/// One line of a recipe hook.
#[derive(Debug)]
pub enum Stmt {
    Instr(Vec<Token>),
    Other,
}

/// A slot iterator: a top-level branch, or a branch of the card its parent path
/// leads to.
#[derive(Debug)]
pub struct RecipeIter {
    pub parent: String,
    pub branch: u8,
}

/// A recipe's iterators and hooks.
#[derive(Debug)]
pub struct Recipe {
    pub iters: Vec<RecipeIter>,
    pub input: Vec<Stmt>,
    pub output: Vec<Stmt>,
}

/// A recipe under its id; one that is only declared has no body.
#[derive(Debug)]
pub struct RecipeEntry {
    pub id: u16,
    pub name: String,
    pub body: Option<Recipe>,
}

/// The token is that word.
pub open spec fn is_word(t: Token, w: Seq<char>) -> bool {
    t matches Token::Word(x) && x@ == w
}

/// The path names the root, or something of the root.
pub open spec fn is_root_path(p: Seq<char>) -> bool {
    p == "root"@ || (p.len() >= 5 && p.take(5) == "root."@)
}

/// The token reads or writes the root.
pub open spec fn touches_root(t: Token) -> bool {
    match t {
        Token::Slot(p) => is_root_path(p@),
        Token::Value(p) => is_root_path(p@),
        _ => false,
    }
}

/// Some line reads or writes the root.
pub open spec fn lines_touch_root(lines: Seq<Stmt>) -> bool {
    exists|i: int, j: int| line_touches_root(lines, i, j)
}

/// Token `j` of line `i` reads or writes the root.
pub open spec fn line_touches_root(lines: Seq<Stmt>, i: int, j: int) -> bool {
    0 <= i < lines.len() && (lines[i] matches Stmt::Instr(toks) && 0 <= j < toks@.len()
        && touches_root(toks@[j]))
}

/// The recipe reads or writes its root, and so is matched with the root in place.
pub open spec fn uses_root(r: Recipe) -> bool {
    lines_touch_root(r.input@) || lines_touch_root(r.output@)
}

fn root_path(p: &String) -> (b: bool)
    ensures
        b == is_root_path(p@),
{
    let chars = chars_of(p.as_str());
    let dotted = chars_of("root.");
    proof {
        reveal_strlit("root.");
    }
    if spells(&chars, "root") {
        return true;
    }
    let at: bool = is_at(&chars, &dotted, 0);
    proof {
        if p@.len() >= 5 {
            assert(p@.subrange(0, 5) =~= p@.take(5));
        }
    }
    at
}

fn touching(lines: &Vec<Stmt>) -> (b: bool)
    ensures
        b == lines_touch_root(lines@),
{
    let n: usize = lines.len();
    let mut i: usize = 0;
    while i < n
        invariant
            n == lines@.len(),
            i <= n,
            forall|a: int, j: int| a < i ==> !#[trigger] line_touches_root(lines@, a, j),
        decreases n - i,
    {
        match &lines[i] {
            Stmt::Instr(toks) => {
                let m: usize = toks.len();
                let mut j: usize = 0;
                while j < m
                    invariant
                        n == lines@.len(),
                        i < n,
                        m == toks@.len(),
                        j <= m,
                        lines@[i as int] == Stmt::Instr(*toks),
                        forall|b: int| b < j ==> !#[trigger] line_touches_root(lines@, i as int, b),
                    decreases m - j,
                {
                    let hit: bool = match &toks[j] {
                        Token::Slot(p) => root_path(p),
                        Token::Value(p) => root_path(p),
                        Token::Number(_) | Token::Word(_) | Token::Other => false,
                    };
                    if hit {
                        assert(line_touches_root(lines@, i as int, j as int));
                        return true;
                    }
                    j = j + 1;
                }
            },
            Stmt::Other => {},
        }
        i = i + 1;
    }
    false
}

/// Does the recipe read or write the root slot?
pub fn recipe_references_root(r: &Recipe) -> (b: bool)
    ensures
        b == uses_root(*r),
{
    touching(&r.input) || touching(&r.output)
}

/// The top-level branches a recipe references, as a bit mask.
pub open spec fn branch_mask(iters: Seq<RecipeIter>) -> u32
    decreases iters.len(),
{
    if iters.len() == 0 {
        0
    } else {
        let m = branch_mask(iters.drop_last());
        if iters.last().parent@.len() == 0 {
            m | (1u32 << iters.last().branch)
        } else {
            m
        }
    }
}

/// The branch number of every top-level iterator has a bit in a mask.
pub open spec fn branches_fit(iters: Seq<RecipeIter>) -> bool {
    forall|i: int|
        0 <= i < iters.len() && (#[trigger] iters[i]).parent@.len() == 0 ==> iters[i].branch < 32
}

/// Bit mask of the top-level branches a recipe references. Nested iterators are
/// reached through their parents and do not count.
pub fn top_branch_mask(iters: &Vec<RecipeIter>) -> (mask: u32)
    requires
        branches_fit(iters@),
    ensures
        mask == branch_mask(iters@),
{
    let n: usize = iters.len();
    let mut mask: u32 = 0;
    let mut i: usize = 0;
    assert(iters@.take(0) =~= Seq::empty());
    while i < n
        invariant
            n == iters@.len(),
            i <= n,
            branches_fit(iters@),
            mask == branch_mask(iters@.take(i as int)),
        decreases n - i,
    {
        proof {
            assert(iters@.take(i + 1).drop_last() =~= iters@.take(i as int));
            assert(iters@.take(i + 1).last() == iters@[i as int]);
        }
        if is_empty_text(&iters[i].parent) {
            mask = mask | (1u32 << iters[i].branch);
        }
        i = i + 1;
    }
    assert(iters@.take(n as int) =~= iters@);
    mask
}

/// Whether a text has no characters.
pub fn is_empty_text(s: &String) -> (b: bool)
    ensures
        b == (s@.len() == 0),
{
    let chars = chars_of(s.as_str());
    chars.len() == 0
}

/// The mask has exactly the bits of the top-level branches.
pub proof fn law_mask_has_the_branches(iters: Seq<RecipeIter>, b: u8)
    requires
        branches_fit(iters),
        b < 32,
    ensures
        branch_mask(iters) & (1u32 << b) != 0 <==> exists|i: int|
            0 <= i < iters.len() && (#[trigger] iters[i]).parent@.len() == 0 && iters[i].branch
                == b,
    decreases iters.len(),
{
    if iters.len() == 0 {
        assert(0u32 & (1u32 << b) == 0) by (bit_vector);
    } else {
        let rest = iters.drop_last();
        assert(branches_fit(rest)) by {
            assert forall|i: int| 0 <= i < rest.len() && (#[trigger] rest[i]).parent@.len()
                == 0 implies rest[i].branch < 32 by {
                assert(rest[i] == iters[i]);
            }
        }
        law_mask_has_the_branches(rest, b);
        let m = branch_mask(rest);
        let c = iters.last().branch;
        if iters.last().parent@.len() == 0 {
            assert(iters[iters.len() - 1].branch < 32);
            assert((m | (1u32 << c)) & (1u32 << b) != 0 <==> (m & (1u32 << b) != 0 || c == b))
                by (bit_vector)
                requires
                    b < 32,
                    c < 32,
            ;
        }
        if exists|i: int|
            0 <= i < rest.len() && (#[trigger] rest[i]).parent@.len() == 0 && rest[i].branch == b {
            let i = choose|i: int|
                0 <= i < rest.len() && (#[trigger] rest[i]).parent@.len() == 0 && rest[i].branch
                    == b;
            assert(iters[i] == rest[i]);
        }
        if exists|i: int|
            0 <= i < iters.len() && (#[trigger] iters[i]).parent@.len() == 0 && iters[i].branch
                == b {
            let i = choose|i: int|
                0 <= i < iters.len() && (#[trigger] iters[i]).parent@.len() == 0
                    && iters[i].branch == b;
            if i < rest.len() {
                assert(rest[i] == iters[i]);
            }
        }
    }
}

/// The comparison demands a positive value: at least one, or more than zero.
pub open spec fn demands_positive(op: Seq<char>, k: i64) -> bool {
    (op == "ge"@ && k >= 1) || (op == "gt"@ && k >= 0)
}

/// The aspect that a path reads off a top-level slot.
pub open spec fn slot_aspect(path: Seq<char>) -> Option<Seq<char>> {
    let segs = segments(path, '.');
    if segs.len() == 5 && segs[0] == "slot"@ && segs[3] == "aspect"@ && number_within(
        segs[1],
        u32::MAX as nat,
    ) is Some && number_within(segs[2], u32::MAX as nat) is Some {
        Some(segs[4])
    } else {
        None
    }
}

/// The aspect that the three tokens at `j` demand of a top-level slot.
pub open spec fn demand_at(toks: Seq<Token>, j: int) -> Option<Seq<char>> {
    if 0 <= j && j + 2 < toks.len() {
        match (toks[j], toks[j + 1], toks[j + 2]) {
            (Token::Value(path), Token::Number(k), Token::Word(op)) => if demands_positive(op@, k) {
                slot_aspect(path@)
            } else {
                None
            },
            _ => None,
        }
    } else {
        None
    }
}

/// The line holds that word.
pub open spec fn has_word(toks: Seq<Token>, w: Seq<char>) -> bool {
    exists|j: int| 0 <= j < toks.len() && is_word(#[trigger] toks[j], w)
}

/// Only a guarded line without a disjunction is sound to index.
pub open spec fn is_guard(toks: Seq<Token>) -> bool {
    has_word(toks, "if"@) && !has_word(toks, "or"@)
}

/// Line `i` demands the aspect at its token `j`.
pub open spec fn line_demands(lines: Seq<Stmt>, i: int, j: int, aspect: Seq<char>) -> bool {
    0 <= i < lines.len() && (lines[i] matches Stmt::Instr(toks) && is_guard(toks@) && demand_at(
        toks@,
        j,
    ) == Some(aspect))
}

/// The lines demand the aspect somewhere.
pub open spec fn demands(lines: Seq<Stmt>, aspect: Seq<char>) -> bool {
    exists|i: int, j: int| line_demands(lines, i, j, aspect)
}

/// The texts of a list.
pub open spec fn texts(v: Seq<String>) -> Seq<Seq<char>> {
    v.map_values(|s: String| s@)
}

/// Whether a list of texts holds one.
pub fn has_text(v: &Vec<String>, s: &String) -> (b: bool)
    ensures
        b == texts(v@).contains(s@),
{
    let n: usize = v.len();
    let mut i: usize = 0;
    while i < n
        invariant
            n == v@.len(),
            i <= n,
            forall|j: int| 0 <= j < i ==> texts(v@)[j] != s@,
        decreases n - i,
    {
        assert(texts(v@)[i as int] == v@[i as int]@);
        if v[i] == *s {
            return true;
        }
        i = i + 1;
    }
    assert(forall|j: int| 0 <= j < texts(v@).len() ==> texts(v@)[j] != s@);
    false
}

/// The list with a text at its end, unless it holds that one already.
pub open spec fn with_new(v: Seq<Seq<char>>, t: Seq<char>) -> Seq<Seq<char>> {
    if v.contains(t) {
        v
    } else {
        v.push(t)
    }
}

/// The list with what the first `n` tokens of a line demand, in their order, as far as it
/// is new.
pub open spec fn with_demands(v: Seq<Seq<char>>, toks: Seq<Token>, n: nat) -> Seq<Seq<char>>
    decreases n,
{
    if n == 0 {
        v
    } else {
        let before = with_demands(v, toks, (n - 1) as nat);
        match demand_at(toks, n - 1) {
            Some(a) => with_new(before, a),
            None => before,
        }
    }
}

/// What the lines demand, in the order in which it is first demanded.
pub open spec fn aspects_in(lines: Seq<Stmt>) -> Seq<Seq<char>>
    decreases lines.len(),
{
    if lines.len() == 0 {
        Seq::empty()
    } else {
        let before = aspects_in(lines.drop_last());
        match lines.last() {
            Stmt::Instr(toks) => if is_guard(toks@) {
                with_demands(before, toks@, toks@.len())
            } else {
                before
            },
            Stmt::Other => before,
        }
    }
}

/// Append a text unless the list holds it.
pub fn push_new(v: &mut Vec<String>, s: String)
    requires
        texts(old(v)@).no_duplicates(),
    ensures
        texts(final(v)@) == with_new(texts(old(v)@), s@),
        texts(final(v)@).no_duplicates(),
        forall|t: Seq<char>| #[trigger]
            texts(final(v)@).contains(t) <==> texts(old(v)@).contains(t) || t == s@,
{
    let ghost o = v@;
    if !has_text(v, &s) {
        let ghost x = s@;
        v.push(s);
        proof {
            assert(texts(v@) =~= texts(o).push(x));
            assert forall|t: Seq<char>| #[trigger] texts(v@).contains(t) <==> texts(o).contains(t)
                || t == x by {
                if texts(o).contains(t) {
                    let j = texts(o).index_of(t);
                    assert(texts(v@)[j] == t);
                }
                assert(texts(v@)[o.len() as int] == x);
                if texts(v@).contains(t) && t != x {
                    let j = texts(v@).index_of(t);
                    assert(texts(o)[j] == t);
                }
            }
        }
    }
}

fn line_has_word(toks: &Vec<Token>, w: &str) -> (b: bool)
    ensures
        b == has_word(toks@, w@),
{
    let word: String = w.to_owned();
    let n: usize = toks.len();
    let mut i: usize = 0;
    while i < n
        invariant
            n == toks@.len(),
            i <= n,
            word@ == w@,
            forall|j: int| 0 <= j < i ==> !is_word(#[trigger] toks@[j], w@),
        decreases n - i,
    {
        let hit: bool = match &toks[i] {
            Token::Word(x) => *x == word,
            Token::Slot(_) | Token::Value(_) | Token::Number(_) | Token::Other => false,
        };
        if hit {
            assert(is_word(toks@[i as int], w@));
            return true;
        }
        i = i + 1;
    }
    false
}

fn fits_u32(s: &Vec<char>) -> (b: bool)
    ensures
        b == (number_within(s@, u32::MAX as nat) is Some),
{
    match parse_u64(s) {
        Some(n) => n <= 0xFFFF_FFFF,
        None => false,
    }
}

fn aspect_of_path(path: &String) -> (r: Option<String>)
    ensures
        r is Some <==> slot_aspect(path@) is Some,
        r matches Some(a) ==> slot_aspect(path@) == Some(a@),
{
    let segs = split_text(path.as_str(), '.');
    let ghost views = segments(path@, '.');
    proof {
        assert(runs(segs@).len() == segs@.len());
        assert forall|i: int| 0 <= i < segs@.len() implies #[trigger] views[i] == segs@[i]@ by {
            assert(runs(segs@)[i] == segs@[i]@);
        }
    }
    if segs.len() != 5 {
        return None;
    }
    assert(views[0] == segs@[0]@ && views[1] == segs@[1]@ && views[2] == segs@[2]@ && views[3]
        == segs@[3]@ && views[4] == segs@[4]@);
    if spells(&segs[0], "slot") && spells(&segs[3], "aspect") && fits_u32(&segs[1]) && fits_u32(
        &segs[2],
    ) {
        Some(to_text(&segs[4]))
    } else {
        None
    }
}

fn demand(toks: &Vec<Token>, j: usize) -> (r: Option<String>)
    ensures
        r is Some <==> demand_at(toks@, j as int) is Some,
        r matches Some(a) ==> demand_at(toks@, j as int) == Some(a@),
{
    if toks.len() < 3 || j > toks.len() - 3 {
        return None;
    }
    match (&toks[j], &toks[j + 1], &toks[j + 2]) {
        (Token::Value(path), Token::Number(k), Token::Word(op)) => {
            let ge: String = "ge".to_owned();
            let gt: String = "gt".to_owned();
            if (*op == ge && *k >= 1) || (*op == gt && *k >= 0) {
                aspect_of_path(path)
            } else {
                None
            }
        },
        _ => None,
    }
}

/// The aspects a recipe strictly requires on a top-level slot, each once and in order: those a
/// guarded line without a disjunction compares with a positive threshold. Anything
/// else contributes nothing, so that no match is ever ruled out unduly.
pub fn required_top_aspects(lines: &Vec<Stmt>) -> (out: Vec<String>)
    ensures
        texts(out@) == aspects_in(lines@),
        texts(out@).no_duplicates(),
        forall|a: Seq<char>| #[trigger] texts(out@).contains(a) <==> demands(lines@, a),
{
    let mut out: Vec<String> = Vec::new();
    let n: usize = lines.len();
    let mut i: usize = 0;
    assert(texts(out@) =~= Seq::empty());
    assert(lines@.take(0) =~= Seq::empty());
    while i < n
        invariant
            n == lines@.len(),
            i <= n,
            texts(out@) == aspects_in(lines@.take(i as int)),
            texts(out@).no_duplicates(),
            forall|a: Seq<char>| #[trigger]
                texts(out@).contains(a) <==> exists|x: int, y: int|
                    x < i && #[trigger] line_demands(lines@, x, y, a),
        decreases n - i,
    {
        let ghost before = texts(out@);
        proof {
            assert(lines@.take(i + 1).drop_last() =~= lines@.take(i as int));
            assert(lines@.take(i + 1).last() == lines@[i as int]);
        }
        match &lines[i] {
            Stmt::Instr(toks) => {
                let guarded: bool = line_has_word(toks, "if") && !line_has_word(toks, "or");
                if guarded {
                    let m: usize = toks.len();
                    let mut j: usize = 0;
                    while j < m
                        invariant
                            m == toks@.len(),
                            j <= m,
                            n == lines@.len(),
                            i < n,
                            lines@[i as int] == Stmt::Instr(*toks),
                            is_guard(toks@),
                            texts(out@) == with_demands(before, toks@, j as nat),
                            texts(out@).no_duplicates(),
                            forall|a: Seq<char>| #[trigger]
                                texts(out@).contains(a) <==> before.contains(a) || exists|y: int|
                                    y < j && #[trigger] line_demands(lines@, i as int, y, a),
                        decreases m - j,
                    {
                        let ghost mid = texts(out@);
                        let found = demand(toks, j);
                        if let Some(a) = found {
                            let ghost x = a@;
                            push_new(&mut out, a);
                            proof {
                                assert(line_demands(lines@, i as int, j as int, x));
                                assert forall|t: Seq<char>| #[trigger] texts(out@).contains(t)
                                    <==> before.contains(t) || exists|y: int|
                                    y < j + 1 && #[trigger] line_demands(
                                        lines@,
                                        i as int,
                                        y,
                                        t,
                                    ) by {
                                    if exists|y: int|
                                        y < j + 1 && #[trigger] line_demands(
                                            lines@,
                                            i as int,
                                            y,
                                            t,
                                        ) {
                                        let y = choose|y: int|
                                            y < j + 1 && #[trigger] line_demands(
                                                lines@,
                                                i as int,
                                                y,
                                                t,
                                            );
                                        if y < j {
                                            assert(line_demands(lines@, i as int, y, t));
                                        }
                                    }
                                    if mid.contains(t) && !before.contains(t) {
                                        let y = choose|y: int|
                                            y < j && #[trigger] line_demands(
                                                lines@,
                                                i as int,
                                                y,
                                                t,
                                            );
                                        assert(line_demands(lines@, i as int, y, t));
                                    }
                                }
                            }
                        } else {
                            proof {
                                assert forall|t: Seq<char>| !line_demands(
                                    lines@,
                                    i as int,
                                    j as int,
                                    t,
                                ) by {}
                            }
                        }
                        j = j + 1;
                    }
                    proof {
                        assert forall|a: Seq<char>, y: int| #[trigger]
                            line_demands(lines@, i as int, y, a) implies y < m by {}
                    }
                } else {
                    proof {
                        assert forall|a: Seq<char>, y: int| !#[trigger] line_demands(
                            lines@,
                            i as int,
                            y,
                            a,
                        ) by {}
                    }
                }
            },
            Stmt::Other => {
                proof {
                    assert forall|a: Seq<char>, y: int| !#[trigger] line_demands(
                        lines@,
                        i as int,
                        y,
                        a,
                    ) by {}
                }
            },
        }
        proof {
            assert forall|a: Seq<char>| #[trigger] texts(out@).contains(a) <==> exists|
                x: int,
                y: int,
            | x < i + 1 && #[trigger] line_demands(lines@, x, y, a) by {
                if before.contains(a) {
                    let (x, y) = choose|x: int, y: int|
                        x < i && #[trigger] line_demands(lines@, x, y, a);
                    assert(line_demands(lines@, x, y, a));
                }
                if exists|x: int, y: int| x < i + 1 && #[trigger] line_demands(lines@, x, y, a) {
                    let (x, y) = choose|x: int, y: int|
                        x < i + 1 && #[trigger] line_demands(lines@, x, y, a);
                    if x < i {
                        assert(before.contains(a));
                    } else {
                        assert(line_demands(lines@, i as int, y, a));
                    }
                }
            }
        }
        i = i + 1;
    }
    proof {
        assert(lines@.take(n as int) =~= lines@);
        assert forall|a: Seq<char>| #[trigger] texts(out@).contains(a) <==> demands(lines@, a) by {
            if demands(lines@, a) {
                let (x, y) = choose|x: int, y: int| line_demands(lines@, x, y, a);
                assert(x < n && line_demands(lines@, x, y, a));
            }
        }
    }
    out
}

/// Precomputed matcher metadata of one recipe.
#[derive(Debug)]
pub struct RecipeMeta {
    pub name: String,
    pub iters: Vec<RecipeIter>,
    /// Matched with the root in place rather than folded into a branch.
    pub uses_root: bool,
    /// The top-level branches it references.
    pub want_branches: u32,
    /// How many input lines it has.
    pub input_count: usize,
    /// The aspects it strictly requires on top-level slots.
    pub req_aspects: Vec<String>,
}

/// The lines that are instructions.
pub open spec fn instr_count(lines: Seq<Stmt>) -> nat
    decreases lines.len(),
{
    if lines.len() == 0 {
        0
    } else {
        instr_count(lines.drop_last()) + if lines.last() is Instr {
            1nat
        } else {
            0nat
        }
    }
}

/// The same iterators.
pub open spec fn same_iters(a: Seq<RecipeIter>, b: Seq<RecipeIter>) -> bool {
    &&& a.len() == b.len()
    &&& forall|i: int|
        0 <= i < a.len() ==> (#[trigger] a[i]).parent@ == b[i].parent@ && a[i].branch == b[i].branch
}

/// The recipe has something to operate on: an iterator, or its root.
pub open spec fn indexable(e: RecipeEntry) -> bool {
    e.body matches Some(r) && (r.iters@.len() > 0 || uses_root(r))
}

/// The metadata is that of the recipe.
pub open spec fn describes(m: RecipeMeta, e: RecipeEntry) -> bool {
    &&& m.name@ == e.name@
    &&& e.body matches Some(r) && {
        &&& same_iters(m.iters@, r.iters@)
        &&& m.uses_root == uses_root(r)
        &&& m.want_branches == branch_mask(r.iters@)
        &&& m.input_count == instr_count(r.input@)
        &&& texts(m.req_aspects@) == aspects_in(r.input@)
        &&& texts(m.req_aspects@).no_duplicates()
        &&& forall|a: Seq<char>| #[trigger]
            texts(m.req_aspects@).contains(a) <==> demands(r.input@, a)
    }
}

/// The entries that can be matched, in order.
pub open spec fn matchable(entries: Seq<RecipeEntry>) -> Seq<RecipeEntry>
    decreases entries.len(),
{
    if entries.len() == 0 {
        Seq::empty()
    } else {
        let before = matchable(entries.drop_last());
        if indexable(entries.last()) {
            before.push(entries.last())
        } else {
            before
        }
    }
}

/// No two recipes share a name.
pub open spec fn distinct_recipes(entries: Seq<RecipeEntry>) -> bool {
    forall|a: int, b: int|
        0 <= a < b < entries.len() ==> (#[trigger] entries[a]).name@ != (#[trigger] entries[b]).name@
}

/// What can be matched is among the entries, and keeps their names apart.
pub proof fn lemma_matchable(entries: Seq<RecipeEntry>)
    ensures
        forall|i: int|
            0 <= i < matchable(entries).len() ==> entries.contains(
                #[trigger] matchable(entries)[i],
            ),
        distinct_recipes(entries) ==> distinct_recipes(matchable(entries)),
    decreases entries.len(),
{
    if entries.len() > 0 {
        let rest = entries.drop_last();
        let before = matchable(rest);
        let all = matchable(entries);
        lemma_matchable(rest);
        assert(entries[entries.len() - 1] == entries.last());
        assert forall|i: int| 0 <= i < all.len() implies entries.contains(#[trigger] all[i]) by {
            if i < before.len() {
                assert(all[i] == before[i]);
                let j = rest.index_of(before[i]);
                assert(entries[j] == before[i]);
            }
        }
        if distinct_recipes(entries) {
            assert forall|a: int, b: int| 0 <= a < b < rest.len() implies (#[trigger] rest[a]).name@
                != (#[trigger] rest[b]).name@ by {
                assert(entries[a].name@ != entries[b].name@);
            }
            assert forall|a: int, b: int| 0 <= a < b < all.len() implies (#[trigger] all[a]).name@
                != (#[trigger] all[b]).name@ by {
                assert(all[a] == before[a]);
                if b < before.len() {
                    assert(all[b] == before[b]);
                } else {
                    let j = rest.index_of(before[a]);
                    assert(entries[j] == before[a]);
                    assert(entries[j].name@ != entries[entries.len() - 1].name@);
                }
            }
        }
    }
}

/// `meta` describes the entries that can be matched, in order.
pub open spec fn is_index(entries: Seq<RecipeEntry>, meta: Seq<RecipeMeta>) -> bool {
    &&& meta.len() == matchable(entries).len()
    &&& forall|i: int|
        0 <= i < meta.len() ==> describes(#[trigger] meta[i], matchable(entries)[i])
}

/// Some recipe in the index requires the aspect.
pub open spec fn some_requires(meta: Seq<RecipeMeta>, aspect: Seq<char>) -> bool {
    exists|i: int|
        0 <= i < meta.len() && texts((#[trigger] meta[i]).req_aspects@).contains(aspect)
}

fn count_instr(lines: &Vec<Stmt>) -> (n: usize)
    ensures
        n == instr_count(lines@),
{
    let len: usize = lines.len();
    let mut n: usize = 0;
    let mut i: usize = 0;
    assert(lines@.take(0) =~= Seq::empty());
    while i < len
        invariant
            len == lines@.len(),
            i <= len,
            n <= i,
            n == instr_count(lines@.take(i as int)),
        decreases len - i,
    {
        proof {
            assert(lines@.take(i + 1).drop_last() =~= lines@.take(i as int));
            assert(lines@.take(i + 1).last() == lines@[i as int]);
        }
        match &lines[i] {
            Stmt::Instr(_) => {
                n = n + 1;
            },
            Stmt::Other => {},
        }
        i = i + 1;
    }
    assert(lines@.take(len as int) =~= lines@);
    n
}

fn copy_iters(a: &Vec<RecipeIter>) -> (b: Vec<RecipeIter>)
    ensures
        same_iters(b@, a@),
{
    let n: usize = a.len();
    let mut b: Vec<RecipeIter> = Vec::new();
    let mut i: usize = 0;
    while i < n
        invariant
            n == a@.len(),
            i <= n,
            b@.len() == i,
            forall|j: int|
                0 <= j < i ==> (#[trigger] b@[j]).parent@ == a@[j].parent@ && b@[j].branch
                    == a@[j].branch,
        decreases n - i,
    {
        b.push(RecipeIter { parent: a[i].parent.clone(), branch: a[i].branch });
        i = i + 1;
    }
    b
}

/// Every recipe's top-level branch numbers have a bit in a mask.
pub open spec fn entries_fit(entries: Seq<RecipeEntry>) -> bool {
    forall|i: int|
        0 <= i < entries.len() ==> ((#[trigger] entries[i]).body matches Some(r) ==> branches_fit(
            r.iters@,
        ))
}

/// Precompute the metadata of every recipe that can be matched.
pub fn build_recipe_index(entries: &Vec<RecipeEntry>) -> (meta: Vec<RecipeMeta>)
    requires
        entries_fit(entries@),
    ensures
        is_index(entries@, meta@),
{
    let n: usize = entries.len();
    let mut meta: Vec<RecipeMeta> = Vec::new();
    let mut i: usize = 0;
    assert(entries@.take(0) =~= Seq::empty());
    while i < n
        invariant
            n == entries@.len(),
            i <= n,
            entries_fit(entries@),
            is_index(entries@.take(i as int), meta@),
        decreases n - i,
    {
        let ghost before = matchable(entries@.take(i as int));
        let ghost m0 = meta@;
        proof {
            assert(entries@.take(i + 1).drop_last() =~= entries@.take(i as int));
            assert(entries@.take(i + 1).last() == entries@[i as int]);
        }
        let e = &entries[i];
        match &e.body {
            Some(r) => {
                let rooted: bool = recipe_references_root(r);
                if r.iters.len() > 0 || rooted {
                    let m = RecipeMeta {
                        name: e.name.clone(),
                        iters: copy_iters(&r.iters),
                        uses_root: rooted,
                        want_branches: top_branch_mask(&r.iters),
                        input_count: count_instr(&r.input),
                        req_aspects: required_top_aspects(&r.input),
                    };
                    assert(describes(m, *e));
                    meta.push(m);
                    proof {
                        assert(matchable(entries@.take(i + 1)) == before.push(*e));
                        assert forall|j: int| 0 <= j < meta@.len() implies describes(
                            #[trigger] meta@[j],
                            matchable(entries@.take(i + 1))[j],
                        ) by {
                            if j < m0.len() {
                                assert(describes(m0[j], before[j]));
                            }
                        }
                    }
                }
            },
            None => {},
        }
        i = i + 1;
    }
    assert(entries@.take(n as int) =~= entries@);
    meta
}

/// The union of what the recipes require, each aspect once.
fn indexed_aspects(meta: &Vec<RecipeMeta>) -> (out: Vec<String>)
    ensures
        texts(out@).no_duplicates(),
        forall|a: Seq<char>| #[trigger] texts(out@).contains(a) <==> some_requires(meta@, a),
{
    let mut out: Vec<String> = Vec::new();
    assert(texts(out@) =~= Seq::empty());
    let n: usize = meta.len();
    let mut i: usize = 0;
    while i < n
        invariant
            n == meta@.len(),
            i <= n,
            texts(out@).no_duplicates(),
            forall|a: Seq<char>| #[trigger]
                texts(out@).contains(a) <==> exists|x: int|
                    0 <= x < i && texts((#[trigger] meta@[x]).req_aspects@).contains(a),
        decreases n - i,
    {
        let ghost before = texts(out@);
        let req = &meta[i].req_aspects;
        let m: usize = req.len();
        let mut j: usize = 0;
        while j < m
            invariant
                m == req@.len(),
                j <= m,
                texts(out@).no_duplicates(),
                forall|a: Seq<char>| #[trigger]
                    texts(out@).contains(a) <==> before.contains(a) || texts(req@).take(
                        j as int,
                    ).contains(a),
            decreases m - j,
        {
            let ghost mid = texts(out@);
            push_new(&mut out, req[j].clone());
            proof {
                let all = texts(req@);
                assert(all[j as int] == req@[j as int]@);
                assert forall|a: Seq<char>| all.take(j + 1).contains(a) <==> (all.take(
                    j as int,
                ).contains(a) || a == all[j as int]) by {
                    if all.take(j as int).contains(a) {
                        let x = all.take(j as int).index_of(a);
                        assert(all.take(j + 1)[x] == a);
                    }
                    assert(all.take(j + 1)[j as int] == all[j as int]);
                    if all.take(j + 1).contains(a) && a != all[j as int] {
                        let x = all.take(j + 1).index_of(a);
                        assert(all.take(j as int)[x] == a);
                    }
                }
                assert forall|a: Seq<char>| #[trigger] texts(out@).contains(a) <==> before.contains(
                    a,
                ) || all.take(j + 1).contains(a) by {
                    assert(mid.contains(a) <==> before.contains(a) || all.take(j as int).contains(
                        a,
                    ));
                }
            }
            j = j + 1;
        }
        proof {
            assert(texts(req@).take(m as int) =~= texts(req@));
            assert forall|a: Seq<char>| #[trigger] texts(out@).contains(a) <==> exists|x: int|
                0 <= x < i + 1 && texts((#[trigger] meta@[x]).req_aspects@).contains(a) by {
                if before.contains(a) {
                    let x = choose|x: int|
                        0 <= x < i && texts((#[trigger] meta@[x]).req_aspects@).contains(a);
                    assert(texts(meta@[x].req_aspects@).contains(a));
                }
                if texts(req@).contains(a) {
                    assert(texts(meta@[i as int].req_aspects@).contains(a));
                }
            }
        }
        i = i + 1;
    }
    out
}

/// The first definition under that packed number.
pub open spec fn def_in(cards: Seq<CardDef>, packed: u16) -> Option<CardDef>
    decreases cards.len(),
{
    if cards.len() == 0 {
        None
    } else {
        match def_in(cards.drop_last(), packed) {
            Some(d) => Some(d),
            None => if cards.last().packed == packed {
                Some(cards.last())
            } else {
                None
            },
        }
    }
}

/// The packed number of the first definition of that name.
pub open spec fn packed_in(cards: Seq<CardDef>, name: Seq<char>) -> Option<u16>
    decreases cards.len(),
{
    if cards.len() == 0 {
        None
    } else {
        match packed_in(cards.drop_last(), name) {
            Some(p) => Some(p),
            None => if cards.last().name@ == name {
                Some(cards.last().packed)
            } else {
                None
            },
        }
    }
}

/// The id of the first recipe of that name.
pub open spec fn recipe_id_in(entries: Seq<RecipeEntry>, name: Seq<char>) -> Option<u16>
    decreases entries.len(),
{
    if entries.len() == 0 {
        None
    } else {
        match recipe_id_in(entries.drop_last(), name) {
            Some(p) => Some(p),
            None => if entries.last().name@ == name {
                Some(entries.last().id)
            } else {
                None
            },
        }
    }
}

/// Card definitions and recipes, with the index over them.
pub struct Content {
    cards: Vec<CardDef>,
    recipes: Vec<RecipeEntry>,
    meta: Vec<RecipeMeta>,
    indexed: Vec<String>,
}

impl Content {
    pub closed spec fn cards(&self) -> Seq<CardDef> {
        self.cards@
    }

    pub closed spec fn recipes(&self) -> Seq<RecipeEntry> {
        self.recipes@
    }

    /// The index over the recipes.
    pub closed spec fn index(&self) -> Seq<RecipeMeta> {
        self.meta@
    }

    /// The aspects some recipe requires.
    pub closed spec fn aspects(&self) -> Seq<Seq<char>> {
        texts(self.indexed@)
    }

    pub closed spec fn wf(&self) -> bool {
        &&& entries_fit(self.recipes@)
        &&& is_index(self.recipes@, self.meta@)
        &&& texts(self.indexed@).no_duplicates()
        &&& forall|a: Seq<char>| #[trigger]
            texts(self.indexed@).contains(a) <==> some_requires(self.meta@, a)
    }

    /// The index is that of the recipes.
    pub proof fn lemma_wf(&self)
        requires
            self.wf(),
        ensures
            is_index(self.recipes(), self.index()),
            self.aspects().no_duplicates(),
            forall|a: Seq<char>| #[trigger]
                self.aspects().contains(a) <==> some_requires(self.index(), a),
    {
    }

    /// Content out of definitions and recipes; none if a recipe names a top-level branch
    /// that has no bit in a mask.
    pub fn new(cards: Vec<CardDef>, recipes: Vec<RecipeEntry>) -> (c: Option<Content>)
        ensures
            c is Some <==> entries_fit(recipes@),
            c matches Some(x) ==> x.wf() && x.cards() == cards@ && x.recipes() == recipes@,
    {
        let n: usize = recipes.len();
        let mut i: usize = 0;
        while i < n
            invariant
                n == recipes@.len(),
                i <= n,
                forall|j: int|
                    0 <= j < i ==> ((#[trigger] recipes@[j]).body matches Some(r) ==> branches_fit(
                        r.iters@,
                    )),
            decreases n - i,
        {
            if let Some(r) = &recipes[i].body {
                let m: usize = r.iters.len();
                let mut j: usize = 0;
                while j < m
                    invariant
                        m == r.iters@.len(),
                        j <= m,
                        n == recipes@.len(),
                        i < n,
                        recipes@[i as int].body == Some(*r),
                        forall|x: int|
                            0 <= x < j && (#[trigger] r.iters@[x]).parent@.len() == 0
                                ==> r.iters@[x].branch < 32,
                    decreases m - j,
                {
                    if is_empty_text(&r.iters[j].parent) && r.iters[j].branch >= 32 {
                        proof {
                            assert(!branches_fit(r.iters@)) by {
                                assert(r.iters@[j as int].branch >= 32);
                            }
                            assert(!entries_fit(recipes@)) by {
                                assert(recipes@[i as int].body == Some(*r));
                            }
                        }
                        return None;
                    }
                    j = j + 1;
                }
            }
            i = i + 1;
        }
        let meta = build_recipe_index(&recipes);
        let indexed = indexed_aspects(&meta);
        Some(Content { cards, recipes, meta, indexed })
    }

    /// The index over the recipes.
    pub fn recipe_meta(&self) -> (m: &Vec<RecipeMeta>)
        ensures
            m@ == self.index(),
    {
        &self.meta
    }

    /// The aspects some recipe requires.
    pub fn indexed_names(&self) -> (v: &Vec<String>)
        ensures
            texts(v@) == self.aspects(),
    {
        &self.indexed
    }

    /// The definition under a packed number.
    pub fn def_for(&self, packed: u16) -> (d: Option<&CardDef>)
        ensures
            d is Some <==> def_in(self.cards(), packed) is Some,
            d matches Some(x) ==> def_in(self.cards(), packed) == Some(*x),
    {
        let n: usize = self.cards.len();
        let mut i: usize = 0;
        assert(self.cards@.take(0) =~= Seq::empty());
        while i < n
            invariant
                n == self.cards@.len(),
                i <= n,
                def_in(self.cards@.take(i as int), packed) is None,
            decreases n - i,
        {
            proof {
                assert(self.cards@.take(i + 1).drop_last() =~= self.cards@.take(i as int));
                assert(self.cards@.take(i + 1).last() == self.cards@[i as int]);
            }
            if self.cards[i].packed == packed {
                proof {
                    lemma_def_stays(self.cards@, i + 1, packed);
                }
                return Some(&self.cards[i]);
            }
            i = i + 1;
        }
        assert(self.cards@.take(n as int) =~= self.cards@);
        None
    }

    /// The packed definition of a card name.
    pub fn packed_def(&self, name: &str) -> (p: Option<u16>)
        ensures
            p == packed_in(self.cards(), name@),
    {
        let key: String = name.to_owned();
        let n: usize = self.cards.len();
        let mut i: usize = 0;
        assert(self.cards@.take(0) =~= Seq::empty());
        while i < n
            invariant
                n == self.cards@.len(),
                i <= n,
                key@ == name@,
                packed_in(self.cards@.take(i as int), name@) is None,
            decreases n - i,
        {
            proof {
                assert(self.cards@.take(i + 1).drop_last() =~= self.cards@.take(i as int));
                assert(self.cards@.take(i + 1).last() == self.cards@[i as int]);
            }
            if self.cards[i].name == key {
                proof {
                    lemma_packed_stays(self.cards@, i + 1, name@);
                }
                return Some(self.cards[i].packed);
            }
            i = i + 1;
        }
        assert(self.cards@.take(n as int) =~= self.cards@);
        None
    }

    /// The id of a recipe name.
    pub fn recipe_def_id(&self, name: &str) -> (p: Option<u16>)
        ensures
            p == recipe_id_in(self.recipes(), name@),
    {
        let key: String = name.to_owned();
        let n: usize = self.recipes.len();
        let mut i: usize = 0;
        assert(self.recipes@.take(0) =~= Seq::empty());
        while i < n
            invariant
                n == self.recipes@.len(),
                i <= n,
                key@ == name@,
                recipe_id_in(self.recipes@.take(i as int), name@) is None,
            decreases n - i,
        {
            proof {
                assert(self.recipes@.take(i + 1).drop_last() =~= self.recipes@.take(i as int));
                assert(self.recipes@.take(i + 1).last() == self.recipes@[i as int]);
            }
            if self.recipes[i].name == key {
                proof {
                    lemma_recipe_stays(self.recipes@, i + 1, name@);
                }
                return Some(self.recipes[i].id);
            }
            i = i + 1;
        }
        assert(self.recipes@.take(n as int) =~= self.recipes@);
        None
    }

    /// The definition is a container.
    pub open spec fn is_container(&self, packed: u16) -> bool {
        def_in(self.cards(), packed) matches Some(d) && d.inventory
    }

    pub fn has_inventory(&self, packed: u16) -> (b: bool)
        ensures
            b == self.is_container(packed),
    {
        match self.def_for(packed) {
            Some(d) => d.inventory,
            None => false,
        }
    }

    /// The anchor radii of a definition; all zero if it is unknown.
    pub open spec fn radii_of(&self, packed: u16) -> AnchorRadii {
        match def_in(self.cards(), packed) {
            Some(d) => d.radii,
            None => AnchorRadii { active: 0, hot: 0, warm: 0, cold: 0 },
        }
    }

    pub fn anchor_radii(&self, packed: u16) -> (r: AnchorRadii)
        ensures
            r == self.radii_of(packed),
    {
        match self.def_for(packed) {
            Some(d) => d.radii,
            None => AnchorRadii { active: 0, hot: 0, warm: 0, cold: 0 },
        }
    }
}

proof fn lemma_def_stays(cards: Seq<CardDef>, i: int, packed: u16)
    requires
        0 <= i <= cards.len(),
        def_in(cards.take(i), packed) is Some,
    ensures
        def_in(cards, packed) == def_in(cards.take(i), packed),
    decreases cards.len() - i,
{
    if i < cards.len() {
        assert(cards.take(i + 1).drop_last() =~= cards.take(i));
        lemma_def_stays(cards, i + 1, packed);
    } else {
        assert(cards.take(i) =~= cards);
    }
}

proof fn lemma_packed_stays(cards: Seq<CardDef>, i: int, name: Seq<char>)
    requires
        0 <= i <= cards.len(),
        packed_in(cards.take(i), name) is Some,
    ensures
        packed_in(cards, name) == packed_in(cards.take(i), name),
    decreases cards.len() - i,
{
    if i < cards.len() {
        assert(cards.take(i + 1).drop_last() =~= cards.take(i));
        lemma_packed_stays(cards, i + 1, name);
    } else {
        assert(cards.take(i) =~= cards);
    }
}

proof fn lemma_recipe_stays(entries: Seq<RecipeEntry>, i: int, name: Seq<char>)
    requires
        0 <= i <= entries.len(),
        recipe_id_in(entries.take(i), name) is Some,
    ensures
        recipe_id_in(entries, name) == recipe_id_in(entries.take(i), name),
    decreases entries.len() - i,
{
    if i < entries.len() {
        assert(entries.take(i + 1).drop_last() =~= entries.take(i));
        lemma_recipe_stays(entries, i + 1, name);
    } else {
        assert(entries.take(i) =~= entries);
    }
}

/// Named sources, as values.
pub open spec fn sources(v: Seq<(String, String)>) -> Seq<(Seq<char>, Seq<char>)> {
    v.map_values(|p: (String, String)| (p.0@, p.1@))
}

/// What `serde_json::from_str` reads out of a text as an array of pairs of strings; the
/// text of its error, if the text is no such array.
pub uninterp spec fn json_pairs(text: Seq<char>) -> Result<Seq<(Seq<char>, Seq<char>)>, Seq<char>>;

/// `serde_json::from_str` at `Vec<(String, String)>`: reads the text, or fails where it is
/// no JSON array of pairs of strings. Its error, which tells what is wrong with the text
/// and where, is turned into text by `to_string`.
#[verifier::external_body]
fn parse_pairs(text: &str) -> (r: Result<Vec<(String, String)>, String>)
    ensures
        match r {
            Ok(v) => json_pairs(text@) == Ok::<_, Seq<char>>(sources(v@)),
            Err(e) => json_pairs(text@) == Err::<Seq<(Seq<char>, Seq<char>)>, _>(e@),
        },
{
    serde_json::from_str(text).map_err(|e| e.to_string())
}

/// What is said of a content payload that could not be read.
pub fn rd_error(why: &str) -> (text: String)
    ensures
        text@ == "rd parse: "@ + why@,
{
    let text = join3("rd parse: ", why, "");
    proof {
        reveal_strlit("");
    }
    assert(text@ =~= "rd parse: "@ + why@);
    text
}

/// The named sources of a content payload, or why it could not be read.
pub fn rd_pairs(rd_json: &str) -> (r: Result<Vec<(String, String)>, String>)
    ensures
        match json_pairs(rd_json@) {
            Ok(pairs) => r matches Ok(v) && sources(v@) == pairs,
            Err(why) => r matches Err(e) && e@ == "rd parse: "@ + why,
        },
{
    match parse_pairs(rd_json) {
        Ok(v) => Ok(v),
        Err(why) => Err(rd_error(why.as_str())),
    }
}

} // verus!
