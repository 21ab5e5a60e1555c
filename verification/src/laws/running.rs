//! What a run of the harness consists of.
use vstd::prelude::*;

use crate::harness::{Asked, Mode};
use crate::scenarios::Setting;
use crate::script::Key;
use crate::wire::ClientCall;

verus! {

use crate::harness::{individual_parts, kit_of, mode_of, programme_of};
use crate::scenarios::{
    cross_visibility_script, move_sync_script, run_combined_script, run_corpus_dim_chain_script,
    run_cut_tree_script, run_forge_as_script, run_jim_lock_test_script, run_magnetic_script,
    run_stock_progress_script, run_triple_corpus_script,
};
use crate::wire::CallView;

/// Clients start two tiles apart, from the twentieth on, with three corpora, an axe and test
/// dust; the one for the lock test starts far off them, with dust and a second axe besides.
pub proof fn law_clients_start_apart(name: Seq<char>, i: nat)
    ensures
        name != "jim"@ ==> {
            &&& kit_of(name, 0).1 == 20
            &&& kit_of(name, i + 1).1 == kit_of(name, i).1 + 2
            &&& kit_of(name, i).0.to_multiset().count(Key::Corpus) == 3
            &&& kit_of(name, i).0.contains(Key::Axe)
            &&& kit_of(name, i).0.contains(Key::TestDust)
            &&& kit_of(name, i).0.len() == 5
        },
        name == "jim"@ ==> {
            &&& kit_of(name, i).1 == 56
            &&& kit_of(name, i).0.contains(Key::Dust)
            &&& kit_of(name, i).0.contains(Key::TestDust)
            &&& kit_of(name, i).0.to_multiset().count(Key::Corpus) == 3
            &&& kit_of(name, i).0.to_multiset().count(Key::Axe) == 2
            &&& kit_of(name, i).0.len() == 7
        },
{
    broadcast use vstd::seq_lib::group_to_multiset_ensures;

    let kit = kit_of(name, i).0;
    if name == "jim"@ {
        assert(kit[0] == Key::Dust);
        assert(kit[5] == Key::TestDust);
        let e = Seq::<Key>::empty();
        assert(kit =~= e.push(Key::Dust).push(Key::Corpus).push(Key::Corpus).push(Key::Corpus).push(
            Key::Axe,
        ).push(Key::TestDust).push(Key::Axe));
    } else {
        assert(kit[0] == Key::TestDust);
        assert(kit[4] == Key::Axe);
        let e = Seq::<Key>::empty();
        assert(kit =~= e.push(Key::TestDust).push(Key::Corpus).push(Key::Corpus).push(
            Key::Corpus,
        ).push(Key::Axe));
    }
}

/// What is asked for goes first, in this order: the tree, the magnets, the forge, the
/// movement. Else the lock test runs at the first client of its name; else the single runs
/// if they are asked for; else the combined one, which takes two.
pub proof fn law_asked_runs_go_first(asked: Asked, names: Seq<Seq<char>>, i: int)
    ensures
        ({
            let m = mode_of(asked, names);
            let special = asked.cut_tree || asked.magnetic || asked.forge || asked.movement;
            &&& asked.cut_tree ==> m == Mode::CutTree
            &&& asked.magnetic && !asked.cut_tree ==> m == Mode::Magnetic
            &&& asked.forge && !asked.magnetic && !asked.cut_tree ==> m == Mode::Forge
            &&& asked.movement && !asked.forge && !asked.magnetic && !asked.cut_tree ==> m
                == Mode::Movement
            &&& !special && names.len() <= usize::MAX && 0 <= i < names.len() && names[i] == "jim"@
                && (forall|j: int| 0 <= j < i ==> names[j] != "jim"@) ==> m == Mode::Locks(
                i as usize,
            )
            &&& !special && !names.contains("jim"@) && asked.individual ==> m == Mode::Individual
            &&& !special && !names.contains("jim"@) && !asked.individual && names.len() < 2 ==> m
                == Mode::TooFew
            &&& !special && !names.contains("jim"@) && !asked.individual && names.len() >= 2 ==> m
                == Mode::Combined
        }),
{
    if 0 <= i < names.len() && names[i] == "jim"@ && (forall|j: int|
        0 <= j < i ==> names[j] != "jim"@) {
        assert(names.contains("jim"@));
        names.index_of_first_ensures("jim"@);
        let k = names.index_of_first("jim"@)->0;
        if k < i {
            assert(names[k] != "jim"@);
        }
        assert(k == i);
    }
}

/// The single runs are what the clients see of each other where there are several, of moves
/// too unless that is left out; then the chain at the first, the triple at each in turn, and
/// the progress at the first.
pub proof fn law_single_runs_cover_every_client(
    n: nat,
    set: Setting,
    skip_move_sync: bool,
    i: int,
)
    requires
        0 <= i < n <= usize::MAX,
    ensures
        ({
            let all = individual_parts(n, set, skip_move_sync);
            let sight: int = if n < 2 {
                0
            } else if skip_move_sync {
                1
            } else {
                2
            };
            &&& all.len() == sight + n + 2
            &&& n >= 2 ==> all[0].alone is None && all[0].steps == cross_visibility_script(set.zone)
            &&& n >= 2 && !skip_move_sync ==> all[1].alone is None && all[1].steps
                == move_sync_script(set.zone)
            &&& all[sight].alone == Some(0usize) && all[sight].steps == run_corpus_dim_chain_script(
                0,
                set.up,
            )
            &&& all[sight + 1 + i].alone == Some(i as usize) && all[sight + 1 + i].steps
                == run_triple_corpus_script(i as usize, set.up)
            &&& all.last().alone == Some(0usize) && all.last().steps == run_stock_progress_script(0)
        }),
{
}

/// Each special run has its own script, at the first client, or with all of them.
pub proof fn law_runs_have_their_scripts(n: nat, set: Setting, skip: bool, i: usize)
    ensures
        programme_of(Mode::CutTree, n, set, skip).len() == 1 && programme_of(
            Mode::CutTree,
            n,
            set,
            skip,
        )[0].steps == run_cut_tree_script(0, set, (3, 2)),
        programme_of(Mode::Magnetic, n, set, skip).len() == 1 && programme_of(
            Mode::Magnetic,
            n,
            set,
            skip,
        )[0].steps == run_magnetic_script(0, set),
        programme_of(Mode::Forge, n, set, skip).len() == 1 && programme_of(
            Mode::Forge,
            n,
            set,
            skip,
        )[0].steps == run_forge_as_script(0),
        programme_of(Mode::Movement, n, set, skip).len() == 3,
        programme_of(Mode::Locks(i), n, set, skip)[0].steps == run_jim_lock_test_script(i, set.up),
        programme_of(Mode::Locks(i), n, set, skip)[0].alone is None,
        programme_of(Mode::Combined, n, set, skip)[0].steps == run_combined_script(set),
        programme_of(Mode::Combined, n, set, skip)[0].alone is None,
        programme_of(Mode::TooFew, n, set, skip).len() == 0,
{
}

/// A call is made to the reducer of its name.
pub proof fn law_calls_name_their_reducer(c: ClientCall)
    ensures
        c@ is ClaimOrLogin ==> c.reducer_spec() == "claim_or_login"@,
        c@ is CreateCard ==> c.reducer_spec() == "create_card"@,
        c@ is RequestZone ==> c.reducer_spec() == "request_zone"@,
        c@ is EnsureRegion ==> c.reducer_spec() == "ensure_region"@,
        c@ is MoveCards ==> c.reducer_spec() == "move_cards"@,
        c@ is ProposeAction ==> c.reducer_spec() == "propose_action"@,
        c@ matches CallView::Raw { reducer, .. } ==> c.reducer_spec() == reducer,
{
}

} // verus!
