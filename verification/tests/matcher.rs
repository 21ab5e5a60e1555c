use resonantdust_client::content::{
    build_recipe_index, has_text, push_new, rd_error, rd_pairs, recipe_references_root,
    required_top_aspects, top_branch_mask, CardDef, Content, Recipe, RecipeEntry, RecipeIter, Stmt,
    Token,
};
use resonantdust_client::matcher::{anchors_fit, chain, held, nested_parent, promote_root};
use resonantdust_client::rows::{pack_valid_at, CardRow, Micro, RowOp, Stock};
use resonantdust_client::world::World;
use resonantdust_client::zones::AnchorRadii;

fn slot(s: &str) -> Token {
    Token::Slot(s.to_string())
}

fn value(s: &str) -> Token {
    Token::Value(s.to_string())
}

fn word(s: &str) -> Token {
    Token::Word(s.to_string())
}

fn iter(parent: &str, branch: u8) -> RecipeIter {
    RecipeIter { parent: parent.to_string(), branch }
}

/// `*path 1 ge if &slot verb`
fn guard(path: &str, at: &str, verb: &str) -> Stmt {
    Stmt::Instr(vec![value(path), Token::Number(1), word("ge"), word("if"), slot(at), word(verb)])
}

/// The recipe `*root.aspect.x 1 ge if &root use`.
fn root_recipe() -> Recipe {
    Recipe { iters: vec![], input: vec![guard("root.aspect.x", "root", "use")], output: vec![] }
}

/// A recipe on a tile, an actor, and what the actor's owner holds.
fn cut_recipe() -> Recipe {
    Recipe {
        iters: vec![iter("", 0), iter("", 1), iter("slot.1.0.owner", 1)],
        input: vec![
            guard("slot.0.0.aspect.wood", "slot.0.0", "use"),
            guard("slot.1.0.aspect.corpus_lit", "slot.1.0", "claim"),
            Stmt::Instr(vec![
                Token::Other,
                value("slot.1.0.owner.slot.1.0.def_id"),
                word("eq"),
                word("if"),
                slot("slot.1.0.owner.slot.1.0"),
                word("share"),
            ]),
        ],
        output: vec![],
    }
}

#[test]
fn matcher_helpers_mirror_recipematcher_ts() {
    let base = [vec![], vec![10, 11], vec![]];
    let p1 = promote_root(99, &base, 1);
    assert_eq!(p1[1], vec![99, 10, 11]);
    let p2 = promote_root(99, &base, 2);
    assert_eq!(p2[2], vec![99]);
    assert_eq!(p2[1], vec![10, 11]);

    assert!(anchors_fit(false, 0b10, 0, &[vec![], vec![1], vec![]], false));
    assert!(!anchors_fit(true, 0, 0, &[vec![], vec![], vec![]], false), "root needed but absent");
    assert!(anchors_fit(true, 0, 5, &[vec![], vec![], vec![]], false), "root present");
    assert!(anchors_fit(false, 0b01, 0, &[vec![], vec![], vec![]], true), "synthetic gives branch 0");
    assert!(!anchors_fit(false, 0b10, 0, &[vec![], vec![], vec![]], false), "branch 1 missing");

    let rr = root_recipe();
    assert!(recipe_references_root(&rr));
    assert_eq!(top_branch_mask(&rr.iters), 0, "root-only recipe has no branches");

    let cr = cut_recipe();
    assert!(!recipe_references_root(&cr), "cut_tree is branch/tile-rooted, not root-anchored");
    assert_eq!(top_branch_mask(&cr.iters), 0b11);
}

#[test]
fn required_aspects_are_those_of_top_slots() {
    assert_eq!(required_top_aspects(&cut_recipe().input), vec!["wood", "corpus_lit"]);
    assert!(required_top_aspects(&vec![]).is_empty());
    // A guard that is met by zero does not require the aspect.
    let weak = Stmt::Instr(vec![
        value("slot.1.0.aspect.x"),
        Token::Number(0),
        word("ge"),
        word("if"),
        slot("slot.1.0"),
        word("use"),
    ]);
    assert!(required_top_aspects(&vec![weak]).is_empty());
}

#[test]
fn the_index_describes_every_recipe_with_a_body() {
    let entries = vec![
        RecipeEntry { id: 1, name: "cut".to_string(), body: Some(cut_recipe()) },
        RecipeEntry { id: 2, name: "bare".to_string(), body: None },
        RecipeEntry { id: 3, name: "rooted".to_string(), body: Some(root_recipe()) },
    ];
    let meta = build_recipe_index(&entries);
    assert_eq!(meta.len(), 2);
    assert_eq!((meta[0].name.as_str(), meta[0].want_branches, meta[0].input_count), ("cut", 0b11, 3));
    assert!(!meta[0].uses_root && meta[1].uses_root);
    let content = Content::new(
        vec![CardDef {
            name: "axe".to_string(),
            packed: 17,
            inventory: true,
            radii: AnchorRadii { active: 1, hot: 2, warm: 3, cold: 4 },
        }],
        entries,
    )
    .unwrap();
    assert_eq!(content.recipe_meta().len(), 2);
    assert_eq!(content.recipe_def_id("rooted"), Some(3));
    assert_eq!(content.recipe_def_id("nothing"), None);
    assert_eq!(content.packed_def("axe"), Some(17));
    assert_eq!(content.def_for(17).unwrap().name, "axe");
    assert!(content.def_for(18).is_none());
    assert!(content.has_inventory(17) && !content.has_inventory(18));
    assert_eq!(content.anchor_radii(17).cold, 4);
    assert_eq!(content.anchor_radii(18), AnchorRadii::default());
    assert!(content.indexed_names().contains(&"wood".to_string()));
}

#[test]
fn a_branch_without_a_bit_is_refused() {
    let broken = Recipe { iters: vec![iter("", 40)], input: vec![], output: vec![] };
    let entries = vec![RecipeEntry { id: 1, name: "broken".to_string(), body: Some(broken) }];
    assert!(Content::new(vec![], entries).is_none());
}

#[test]
fn sources_are_read_from_json() {
    let pairs = rd_pairs("[[\"a.rd\", \"<card>\"], [\"b\\u0062.rd\", \"\"]]").unwrap();
    assert_eq!(pairs[0], ("a.rd".to_string(), "<card>".to_string()));
    assert_eq!(pairs[1], ("bb.rd".to_string(), String::new()));
    let err = rd_pairs("[[\"only one\"]]").unwrap_err();
    assert!(err.starts_with("rd parse: ") && err.len() > "rd parse: ".len());
    assert_eq!(rd_pairs("").unwrap_err(), rd_error("EOF while parsing a value at line 1 column 0"));
}

#[test]
fn names_are_kept_once() {
    let mut names = vec![];
    push_new(&mut names, "a".to_string());
    push_new(&mut names, "b".to_string());
    push_new(&mut names, "a".to_string());
    assert_eq!(names, vec!["a", "b"]);
    assert!(has_text(&names, &"b".to_string()) && !has_text(&names, &"c".to_string()));
}

fn row(card_id: u32, micro: Micro) -> CardRow {
    CardRow {
        valid_at: pack_valid_at(100, 1),
        card_id,
        macro_zone: 0,
        surface: 0,
        chunk_q: 0,
        chunk_r: 0,
        micro_location: 0,
        micro,
        owner_id: 50,
        packed_definition: 0,
        is_soul: false,
        flags: 0,
        flags_bk: 0,
        pos_need: false,
        pos_held: false,
        dead: false,
        stock: Stock { word: 0, s0: 0, s1: 0, claimed: false },
    }
}

#[test]
fn chains_run_by_index_and_skip_what_is_held() {
    let mut world = World::new();
    world.cards.apply(RowOp::Insert, row(1, Micro::Loose { local_q: 0, local_r: 0 }));
    for (id, index) in [(4u32, 0u8), (3, 1), (2, 2)] {
        world.cards.apply(RowOp::Insert, row(id, Micro::Stacked { root: 1, branch: 1, index }));
    }
    assert_eq!(chain(&world, 1, 1, 100, None), vec![4, 3, 2]);
    assert!(chain(&world, 1, 2, 100, None).is_empty());
    let mut claimed = row(3, Micro::Stacked { root: 1, branch: 1, index: 1 });
    claimed.valid_at = pack_valid_at(110, 1);
    claimed.stock.claimed = true;
    world.cards.apply(RowOp::Insert, claimed);
    assert!(held(&world, 3, 120) && !held(&world, 3, 105));
    assert_eq!(chain(&world, 1, 1, 120, Some(120)), vec![4, 2]);
}

#[test]
fn nested_paths_lead_through_owners() {
    let mut world = World::new();
    world.cards.apply(RowOp::Insert, row(1, Micro::Loose { local_q: 0, local_r: 0 }));
    let branches = [vec![], vec![1], vec![]];
    assert_eq!(nested_parent(&world, &"slot.1.0.owner".to_string(), &branches, 100), 50);
    assert_eq!(nested_parent(&world, &"slot.1.0".to_string(), &branches, 100), 1);
    assert_eq!(nested_parent(&world, &"slot.2.0".to_string(), &branches, 100), 0);
}

#[test]
fn a_nested_branch_needs_no_bit() {
    let nested = Recipe {
        iters: vec![iter("", 1), iter("slot.1.0.owner", 40)],
        input: vec![],
        output: vec![],
    };
    assert_eq!(top_branch_mask(&nested.iters), 0b10);
    let entries = vec![RecipeEntry { id: 1, name: "nested".to_string(), body: Some(nested) }];
    assert_eq!(Content::new(vec![], entries).unwrap().recipe_meta()[0].want_branches, 0b10);
    let alone = Recipe { iters: vec![iter("slot.0.0", 40)], input: vec![], output: vec![] };
    let entries = vec![RecipeEntry { id: 1, name: "alone".to_string(), body: Some(alone) }];
    assert_eq!(Content::new(vec![], entries).unwrap().recipe_meta()[0].want_branches, 0);
}

#[test]
fn required_aspects_keep_the_order_of_the_lines() {
    let lines = vec![
        guard("slot.1.0.aspect.wood", "slot.1.0", "use"),
        guard("slot.0.0.aspect.axe", "slot.0.0", "use"),
        guard("slot.2.0.aspect.wood", "slot.2.0", "use"),
        guard("slot.2.0.aspect.ash", "slot.2.0", "use"),
    ];
    assert_eq!(required_top_aspects(&lines), vec!["wood", "axe", "ash"]);
}
