use sand_core::material::{Category, MaterialDef, MaterialTable};
use sand_core::reaction::{push_entry_rules, ReactionRule, ReactionTable};

fn table() -> MaterialTable {
    MaterialTable::new(vec![
        MaterialDef::base(0, "air", Category::Static, 0),
        MaterialDef::base(1, "wall", Category::Static, 100),
        MaterialDef::base(2, "sand", Category::Powder, 40),
        MaterialDef::base(3, "water", Category::Liquid, 16),
        MaterialDef::base(4, "fire", Category::Gas, 1),
        MaterialDef::base(5, "smoke", Category::Gas, 2),
    ])
    .unwrap()
}

fn rule(a: u8, b: u8, out_a: u8, out_b: u8, threshold: u8) -> ReactionRule {
    ReactionRule { a, b, out_a, out_b, threshold }
}

#[test]
fn get_returns_pair_entries_in_load_order() {
    let t = ReactionTable::new(&table(), vec![rule(3, 4, 3, 5, 204), rule(2, 3, 2, 2, 10), rule(3, 4, 0, 0, 1)])
        .unwrap();
    let got = t.get(3, 4);
    assert_eq!(got.len(), 2);
    assert_eq!(got[0].threshold, 204);
    assert_eq!(got[1].threshold, 1);
    assert_eq!(t.get(2, 3).len(), 1);
    assert!(t.get(2, 4).is_empty());
}

#[test]
fn initiates_only_true_for_id_a_side() {
    let t = ReactionTable::new(&table(), vec![rule(3, 4, 3, 5, 204)]).unwrap();
    assert!(t.initiates(3));
    assert!(!t.initiates(4));
    assert!(!t.initiates(2));
}

#[test]
fn needs_eval_is_not_static_or_initiates() {
    let t = ReactionTable::new(&table(), vec![rule(1, 2, 0, 0, 255)]).unwrap();
    assert!(!t.needs_eval(0));
    assert!(t.needs_eval(1));
    assert!(t.needs_eval(2));
    assert!(t.needs_eval(4));
    let e = ReactionTable::empty(&table());
    assert!(!e.needs_eval(1));
    assert!(e.needs_eval(3));
}

#[test]
fn rejects_self_reaction_reversed_and_out_of_range() {
    let t = table();
    assert!(ReactionTable::new(&t, vec![rule(3, 3, 0, 0, 255)]).is_err());
    assert!(ReactionTable::new(&t, vec![rule(4, 3, 0, 0, 255)]).is_err());
    assert!(ReactionTable::new(&t, vec![rule(3, 9, 0, 0, 255)]).is_err());
    assert!(ReactionTable::new(&t, vec![rule(3, 4, 9, 0, 255)]).is_err());
}

#[test]
fn get_keeps_load_order_across_interleaved_pairs() {
    let t = ReactionTable::new(
        &table(),
        vec![rule(2, 5, 0, 0, 3), rule(1, 2, 0, 0, 9), rule(2, 5, 1, 1, 4), rule(2, 5, 2, 2, 5)],
    )
    .unwrap();
    let got: Vec<u8> = t.get(2, 5).iter().map(|r| r.threshold).collect();
    assert_eq!(got, vec![3, 4, 5]);
    assert_eq!(t.get(1, 2), vec![rule(1, 2, 0, 0, 9)]);
}

#[test]
fn push_entry_rules_expands_and_normalizes_pairs() {
    let mut rules = Vec::new();
    assert!(push_entry_rules(&[4, 2], &[3, 4], 5, 0, 100, &mut rules).is_ok());
    assert_eq!(
        rules,
        vec![
            ReactionRule { a: 3, b: 4, out_a: 0, out_b: 5, threshold: 100 },
            ReactionRule { a: 2, b: 3, out_a: 5, out_b: 0, threshold: 100 },
            ReactionRule { a: 2, b: 4, out_a: 5, out_b: 0, threshold: 100 },
        ]
    );
    let before = rules.clone();
    assert!(push_entry_rules(&[5], &[5], 0, 0, 1, &mut rules).is_err());
    assert_eq!(rules, before);
    assert!(ReactionTable::new(&table(), rules).is_ok());
}
