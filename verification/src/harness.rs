//! Who takes part in a harness run, and what is run.
use vstd::prelude::*;

use crate::scenarios::{
    cross_visibility, move_sync, run_combined, run_corpus_dim_chain, run_cut_tree, run_forge_as,
    run_jim_lock_test, run_magnetic, run_move_reject, run_move_step, run_move_to,
    run_stock_progress, run_triple_corpus, Setting,
};
use crate::script::{Key, Step};
use crate::text::{split_text, to_text, trim_spaces};

verus! {

use crate::content::texts;
use crate::scenarios::{
    cross_visibility_script, move_sync_script, run_combined_script, run_corpus_dim_chain_script,
    run_cut_tree_script, run_forge_as_script, run_jim_lock_test_script, run_magnetic_script,
    run_move_reject_script, run_move_step_script, run_move_to_script, run_stock_progress_script,
    run_triple_corpus_script,
};
use crate::text::{runs, segments, without_spaces};
use crate::wire::text_of;

/// The texts that are not empty, in their order.
pub open spec fn filled(names: Seq<Seq<char>>) -> Seq<Seq<char>>
    decreases names.len(),
{
    if names.len() == 0 {
        names
    } else {
        let before = filled(names.drop_last());
        if names.last().len() == 0 {
            before
        } else {
            before.push(names.last())
        }
    }
}

/// The names that are not empty; two of our own, if none is left.
pub open spec fn roster_names(names: Seq<Seq<char>>) -> Seq<Seq<char>> {
    if filled(names).len() == 0 {
        seq!["alice"@, "bob"@]
    } else {
        filled(names)
    }
}

/// The names that are not empty; two of our own, if none is left.
pub fn roster_of(names: Vec<String>) -> (out: Vec<String>)
    ensures
        texts(out@) == roster_names(texts(names@)),
{
    let n: usize = names.len();
    let mut out: Vec<String> = Vec::new();
    let mut i: usize = 0;
    assert(texts(names@).take(0) =~= Seq::empty());
    assert(texts(out@) =~= Seq::empty());
    while i < n
        invariant
            n == names@.len(),
            i <= n,
            texts(out@) == filled(texts(names@).take(i as int)),
        decreases n - i,
    {
        let ghost all = texts(names@);
        let ghost before = texts(out@);
        assert(all.take(i + 1).drop_last() =~= all.take(i as int));
        assert(all.take(i + 1).last() == names@[i as int]@);
        if !is_empty_name(&names[i]) {
            let name = names[i].clone();
            out.push(name);
            assert(texts(out@) =~= before.push(names@[i as int]@));
        }
        i = i + 1;
    }
    assert(texts(names@).take(n as int) =~= texts(names@));
    if out.len() == 0 {
        out.push("alice".to_owned());
        out.push("bob".to_owned());
        assert(texts(out@) =~= seq!["alice"@, "bob"@]);
    }
    out
}

/// Whether a name is empty.
fn is_empty_name(name: &String) -> (b: bool)
    ensures
        b == (name@.len() == 0),
{
    crate::content::is_empty_text(name)
}

/// The names of a comma-separated list, trimmed.
pub open spec fn listed(list: Option<Seq<char>>) -> Seq<Seq<char>> {
    match list {
        Some(s) => segments(s, ',').map_values(|name: Seq<char>| without_spaces(name)),
        None => Seq::empty(),
    }
}

/// The clients of a run: the names of a comma-separated list, trimmed, without the empty
/// ones; two of our own, if there is no list or nothing is left of it.
pub fn roster(list: Option<String>) -> (out: Vec<String>)
    ensures
        texts(out@) == roster_names(listed(text_of(list))),
{
    let mut names: Vec<String> = Vec::new();
    if let Some(s) = &list {
        let parts = split_text(s.as_str(), ',');
        let ghost all = listed(Some(s@));
        let n: usize = parts.len();
        let mut i: usize = 0;
        assert(texts(names@) =~= all.take(0));
        while i < n
            invariant
                n == parts@.len(),
                i <= n,
                runs(parts@) == segments(s@, ','),
                all == listed(Some(s@)),
                texts(names@) == all.take(i as int),
            decreases n - i,
        {
            let ghost before = texts(names@);
            let name = to_text(&trim_spaces(&parts[i]));
            names.push(name);
            assert(parts@[i as int]@ == segments(s@, ',')[i as int]) by {
                assert(runs(parts@)[i as int] == parts@[i as int]@);
            }
            assert(texts(names@) =~= before.push(without_spaces(parts@[i as int]@)));
            assert(texts(names@) =~= all.take(i + 1));
            i = i + 1;
        }
        assert(all.take(n as int) =~= all);
    } else {
        assert(texts(names@) =~= Seq::empty());
    }
    roster_of(names)
}

/// What a client is seeded with, and the world tile, both ways, that it starts at.
pub open spec fn kit_of(name: Seq<char>, i: nat) -> (Seq<Key>, nat) {
    if name == "jim"@ {
        (
            seq![
                Key::Dust,
                Key::Corpus,
                Key::Corpus,
                Key::Corpus,
                Key::Axe,
                Key::TestDust,
                Key::Axe,
            ],
            56,
        )
    } else {
        (
            seq![Key::TestDust, Key::Corpus, Key::Corpus, Key::Corpus, Key::Axe],
            20 + 2 * i,
        )
    }
}

/// What a client is seeded with, and the world tile, both ways, that it starts at: most
/// start next to each other, `jim` far from all.
pub fn kit(name: &String, i: usize) -> (k: (Vec<Key>, i32))
    requires
        20 + 2 * i <= i32::MAX,
    ensures
        k.0@ == kit_of(name@, i as nat).0,
        k.1 == kit_of(name@, i as nat).1,
{
    let jim: String = "jim".to_owned();
    if *name == jim {
        (
            vec![
                Key::Dust,
                Key::Corpus,
                Key::Corpus,
                Key::Corpus,
                Key::Axe,
                Key::TestDust,
                Key::Axe,
            ],
            56,
        )
    } else {
        (
            vec![Key::TestDust, Key::Corpus, Key::Corpus, Key::Corpus, Key::Axe],
            20 + 2 * (i as i32),
        )
    }
}

/// Which of the special runs were asked for.
#[derive(Debug, Clone, Copy, PartialEq, Eq, Structural)]
pub struct Asked {
    pub cut_tree: bool,
    pub magnetic: bool,
    pub forge: bool,
    pub movement: bool,
    pub individual: bool,
    pub skip_move_sync: bool,
}

/// What is run.
#[derive(Debug, Clone, Copy, PartialEq, Eq, Structural)]
pub enum Mode {
    CutTree,
    Magnetic,
    Forge,
    Movement,
    /// The lock test, at this client.
    Locks(usize),
    /// The combined run, which takes two clients.
    Combined,
    TooFew,
    Individual,
}

/// The place of a name in a list.
pub open spec fn place_of(names: Seq<Seq<char>>, name: Seq<char>) -> Option<usize> {
    if names.contains(name) {
        Some(names.index_of_first(name)->0 as usize)
    } else {
        None
    }
}

/// The first special run that was asked for; else the lock test, if its client is there;
/// else the combined run, or the single ones, if asked.
pub open spec fn mode_of(asked: Asked, names: Seq<Seq<char>>) -> Mode {
    if asked.cut_tree {
        Mode::CutTree
    } else if asked.magnetic {
        Mode::Magnetic
    } else if asked.forge {
        Mode::Forge
    } else if asked.movement {
        Mode::Movement
    } else {
        match place_of(names, "jim"@) {
            Some(i) => Mode::Locks(i),
            None => if asked.individual {
                Mode::Individual
            } else if names.len() < 2 {
                Mode::TooFew
            } else {
                Mode::Combined
            },
        }
    }
}

/// The place of a name in a list.
fn position(names: &Vec<String>, name: &str) -> (i: Option<usize>)
    ensures
        i == place_of(texts(names@), name@),
{
    let n: usize = names.len();
    let ghost all = texts(names@);
    let wanted: String = name.to_owned();
    let mut i: usize = 0;
    while i < n
        invariant
            n == names@.len(),
            i <= n,
            all == texts(names@),
            wanted@ == name@,
            forall|j: int| 0 <= j < i ==> all[j] != name@,
        decreases n - i,
    {
        if names[i] == wanted {
            proof {
                assert(all[i as int] == name@);
                all.index_of_first_ensures(name@);
                let f = all.index_of_first(name@)->0;
                assert(all[f] == name@);
                assert(!(f < i));
                assert(!(i < f)) by {
                    if i < f {
                        assert(all[i as int] != name@);
                    }
                }
            }
            return Some(i);
        }
        i = i + 1;
    }
    assert(!all.contains(name@));
    None
}

/// What is run: the first special run that was asked for; else the lock test, if its
/// client is there; else the combined run, or the single ones, if asked.
pub fn mode(asked: Asked, names: &Vec<String>) -> (m: Mode)
    ensures
        m == mode_of(asked, texts(names@)),
{
    if asked.cut_tree {
        Mode::CutTree
    } else if asked.magnetic {
        Mode::Magnetic
    } else if asked.forge {
        Mode::Forge
    } else if asked.movement {
        Mode::Movement
    } else {
        match position(names, "jim") {
            Some(i) => Mode::Locks(i),
            None => if asked.individual {
                Mode::Individual
            } else if names.len() < 2 {
                Mode::TooFew
            } else {
                Mode::Combined
            },
        }
    }
}

/// A script, and the one client that is driven meanwhile; all of them, if none is named.
#[derive(Debug)]
pub struct Part {
    pub alone: Option<usize>,
    pub steps: Vec<Step>,
}

/// A part, as values.
pub ghost struct PartView {
    pub alone: Option<usize>,
    pub steps: Seq<Step>,
}

impl View for Part {
    type V = PartView;

    open spec fn view(&self) -> PartView {
        PartView { alone: self.alone, steps: self.steps@ }
    }
}

/// The parts of a list, as values.
pub open spec fn parts(v: Seq<Part>) -> Seq<PartView> {
    v.map_values(|p: Part| p@)
}

/// A part at one client.
pub open spec fn part_at(seat: usize, steps: Seq<Step>) -> PartView {
    PartView { alone: Some(seat), steps }
}

/// A part with all clients.
pub open spec fn part_of_all(steps: Seq<Step>) -> PartView {
    PartView { alone: None, steps }
}

/// The single scenarios over so many clients: what they see of each other, where there are
/// several; then the recipes, one client after the other.
pub open spec fn individual_parts(n: nat, set: Setting, skip_move_sync: bool) -> Seq<PartView> {
    let sight = if n < 2 {
        Seq::empty()
    } else if skip_move_sync {
        seq![part_of_all(cross_visibility_script(set.zone))]
    } else {
        seq![
            part_of_all(cross_visibility_script(set.zone)),
            part_of_all(move_sync_script(set.zone)),
        ]
    };
    let triples = Seq::new(
        n,
        |i: int| part_at(i as usize, run_triple_corpus_script(i as usize, set.up)),
    );
    sight + seq![part_at(0, run_corpus_dim_chain_script(0, set.up))] + triples + seq![
        part_at(0, run_stock_progress_script(0)),
    ]
}

/// The scripts of a run, in order.
pub open spec fn programme_of(
    mode: Mode,
    n: nat,
    set: Setting,
    skip_move_sync: bool,
) -> Seq<PartView> {
    match mode {
        Mode::CutTree => seq![part_at(0, run_cut_tree_script(0, set, (3, 2)))],
        Mode::Magnetic => seq![part_at(0, run_magnetic_script(0, set))],
        Mode::Forge => seq![part_at(0, run_forge_as_script(0))],
        Mode::Movement => seq![
            part_at(0, run_move_step_script(0)),
            part_at(0, run_move_to_script(0, 3)),
            part_at(0, run_move_reject_script(0)),
        ],
        Mode::Locks(i) => seq![part_of_all(run_jim_lock_test_script(i, set.up))],
        Mode::Combined => seq![part_of_all(run_combined_script(set))],
        Mode::TooFew => Seq::empty(),
        Mode::Individual => individual_parts(n, set, skip_move_sync),
    }
}

/// The single scenarios over so many clients.
fn individual(n: usize, set: Setting, skip_move_sync: bool) -> (out: Vec<Part>)
    ensures
        parts(out@) == individual_parts(n as nat, set, skip_move_sync),
{
    let ghost all = individual_parts(n as nat, set, skip_move_sync);
    let mut out: Vec<Part> = Vec::new();
    if n >= 2 {
        out.push(Part { alone: None, steps: cross_visibility(set.zone) });
        if !skip_move_sync {
            out.push(Part { alone: None, steps: move_sync(set.zone) });
        }
    }
    out.push(Part { alone: Some(0), steps: run_corpus_dim_chain(0, set.up) });
    let ghost head = parts(out@);
    assert(head =~= all.take(head.len() as int));
    let mut i: usize = 0;
    while i < n
        invariant
            i <= n,
            all == individual_parts(n as nat, set, skip_move_sync),
            all.len() == head.len() + n + 1,
            forall|j: int|
                0 <= j < n ==> #[trigger] all[head.len() + j] == part_at(
                    j as usize,
                    run_triple_corpus_script(j as usize, set.up),
                ),
            parts(out@) == all.take(head.len() + i),
        decreases n - i,
    {
        let ghost before = parts(out@);
        let part = Part { alone: Some(i), steps: run_triple_corpus(i, set.up) };
        assert(part@ == all[head.len() + i]);
        out.push(part);
        assert(parts(out@) =~= before.push(all[head.len() + i]));
        assert(parts(out@) =~= all.take(head.len() + i + 1));
        i = i + 1;
    }
    let ghost before = parts(out@);
    let last = Part { alone: Some(0), steps: run_stock_progress(0) };
    assert(all.last() == last@);
    out.push(last);
    assert(parts(out@) =~= before.push(all.last()));
    assert(parts(out@) =~= all);
    out
}

/// The scripts of a run, in order.
pub fn programme(mode: Mode, n: usize, set: Setting, skip_move_sync: bool) -> (out: Vec<Part>)
    ensures
        parts(out@) == programme_of(mode, n as nat, set, skip_move_sync),
{
    let mut out: Vec<Part> = Vec::new();
    match mode {
        Mode::CutTree => {
            out.push(Part { alone: Some(0), steps: run_cut_tree(0, set, (3, 2)) });
        },
        Mode::Magnetic => {
            out.push(Part { alone: Some(0), steps: run_magnetic(0, set) });
        },
        Mode::Forge => {
            out.push(Part { alone: Some(0), steps: run_forge_as(0) });
        },
        Mode::Movement => {
            out.push(Part { alone: Some(0), steps: run_move_step(0) });
            out.push(Part { alone: Some(0), steps: run_move_to(0, 3) });
            out.push(Part { alone: Some(0), steps: run_move_reject(0) });
        },
        Mode::Locks(i) => {
            out.push(Part { alone: None, steps: run_jim_lock_test(i, set.up) });
        },
        Mode::Combined => {
            out.push(Part { alone: None, steps: run_combined(set) });
        },
        Mode::TooFew => {},
        Mode::Individual => {
            return individual(n, set, skip_move_sync);
        },
    }
    assert(parts(out@) =~= programme_of(mode, n as nat, set, skip_move_sync));
    out
}

} // verus!
