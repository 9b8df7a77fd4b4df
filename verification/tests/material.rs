use sand_core::cell::Cell;
use sand_core::material::{is_solid, Category, MaterialDef, MaterialTable, DISPERSION_MAX};

fn def(id: u8, name: &str, category: Category, density: u16) -> MaterialDef {
    MaterialDef::base(id, name, category, density)
}

#[test]
fn accepts_valid_table_any_declaration_order() {
    let t = MaterialTable::new(vec![
        def(2, "sand", Category::Powder, 40),
        def(0, "air", Category::Static, 0),
        def(3, "water", Category::Liquid, 16),
        def(1, "wall", Category::Static, 100),
    ])
    .unwrap();
    assert_eq!(t.id_by_name("sand"), Some(2));
    assert_eq!(t.density(3), 16);
}

#[test]
fn rejects_gap_and_wrong_sentinels() {
    assert!(MaterialTable::new(vec![def(0, "air", Category::Static, 0), def(2, "sand", Category::Powder, 40)]).is_err());
    assert!(MaterialTable::new(vec![def(0, "wall", Category::Static, 0), def(1, "air", Category::Static, 0)]).is_err());
}

#[test]
fn hp_and_durability_accessors_return_declared_values() {
    let mk = |id, name, hp, durability| {
        let mut d = MaterialDef::base(id, name, Category::Static, 0);
        d.hp = hp;
        d.durability = durability;
        d
    };
    let t = MaterialTable::new(vec![mk(0, "air", 0, 0), mk(1, "wall", 100, 15)]).unwrap();
    assert_eq!(t.hp(0), 0);
    assert_eq!(t.hp(1), 100);
    assert_eq!(t.durability(0), 0);
    assert_eq!(t.durability(1), 15);
}

#[test]
fn vaporize_threshold_accessor_returns_declared_value() {
    let mk = |id, name, threshold| {
        let mut d = MaterialDef::base(id, name, Category::Static, 0);
        d.vaporize_threshold = threshold;
        d
    };
    let t = MaterialTable::new(vec![mk(0, "air", 255), mk(1, "wall", 102)]).unwrap();
    assert_eq!(t.vaporize_threshold(0), 255);
    assert_eq!(t.vaporize_threshold(1), 102);
}

#[test]
fn m2_fields_default_to_safe_values_and_roundtrip_through_accessors() {
    let mut fire = MaterialDef::base(2, "fire", Category::Gas, 1);
    fire.lifetime = 40;
    fire.decay_to = 0;
    fire.fire_temp = 100;
    let mut oil = MaterialDef::base(3, "oil", Category::Liquid, 12);
    oil.fire_hp = 90;
    oil.ignition_temp = 40;
    oil.fire_chance = 153;
    oil.tags = vec!["burnable".into()];
    let t = MaterialTable::new(vec![
        def(0, "air", Category::Static, 0),
        def(1, "wall", Category::Static, 100),
        fire,
        oil,
    ])
    .unwrap();
    assert_eq!(t.fire_hp(0), 0);
    assert_eq!(t.lifetime(0), 0);
    assert_eq!(t.ignition_temp(0), 100);
    assert_eq!(t.fire_temp(0), 10);
    assert!(t.requires_oxygen(0));
    assert!(!t.extinguisher(0));
    assert_eq!(t.fire_chance(0), 0);
    assert!(t.tags_of(0).is_empty());
    assert_eq!(t.category(2), Category::Gas);
    assert!(!t.is_static(2));
    assert_eq!(t.lifetime(2), 40);
    assert_eq!(t.fire_temp(2), 100);
    assert_eq!(t.fire_hp(3), 90);
    assert_eq!(t.ignition_temp(3), 40);
    assert_eq!(t.fire_chance(3), 153);
    assert_eq!(t.tags_of(3), ["burnable".to_string()]);
}

#[test]
fn rejects_material_declaring_both_fire_hp_and_lifetime() {
    let mut bad = def(2, "weird", Category::Static, 5);
    bad.fire_hp = 10;
    bad.lifetime = 10;
    let r = MaterialTable::new(vec![def(0, "air", Category::Static, 0), def(1, "wall", Category::Static, 100), bad]);
    assert!(r.is_err());
}

#[test]
fn rejects_decay_to_out_of_range() {
    let mut bad = def(2, "smoke", Category::Gas, 2);
    bad.lifetime = 5;
    bad.decay_to = 9;
    let r = MaterialTable::new(vec![def(0, "air", Category::Static, 0), def(1, "wall", Category::Static, 100), bad]);
    assert!(r.is_err());
}

#[test]
fn rejects_duplicate_ids_and_non_static_sentinels() {
    assert!(MaterialTable::new(vec![
        def(0, "air", Category::Static, 0),
        def(1, "wall", Category::Static, 100),
        def(1, "sand", Category::Powder, 40),
    ])
    .is_err());
    assert!(MaterialTable::new(vec![def(0, "air", Category::Static, 0), def(1, "wall", Category::Powder, 100)]).is_err());
    assert!(MaterialTable::new(vec![def(0, "air", Category::Static, 0)]).is_err());
    assert!(MaterialTable::new(vec![]).is_err());
}

#[test]
fn accessors_return_other_declared_fields() {
    let mut water = def(2, "water", Category::Liquid, 16);
    water.color = (10, 20, 30);
    water.dispersion = DISPERSION_MAX;
    water.splash_chance = 77;
    water.extinguisher = true;
    water.requires_oxygen = false;
    water.decay_to = 1;
    let t = MaterialTable::new(vec![def(0, "air", Category::Static, 0), def(1, "wall", Category::Static, 100), water]).unwrap();
    assert_eq!(t.len(), 3);
    assert!(!t.is_empty());
    assert_eq!(t.color(2), (10, 20, 30));
    assert_eq!(t.dispersion(2), DISPERSION_MAX);
    assert_eq!(t.splash_chance(2), 77);
    assert!(t.extinguisher(2));
    assert!(!t.requires_oxygen(2));
    assert_eq!(t.decay_to(2), 1);
    assert_eq!(t.id_by_name("lava"), None);
    assert!(t.is_static(1));
}

#[test]
fn is_solid_excludes_air_gas_liquid_and_unincluded_bodies() {
    let t = MaterialTable::new(vec![
        def(0, "air", Category::Static, 0),
        def(1, "wall", Category::Static, 100),
        def(2, "sand", Category::Powder, 40),
        def(3, "water", Category::Liquid, 16),
        def(4, "smoke", Category::Gas, 1),
    ])
    .unwrap();
    assert!(!is_solid(Cell::pack(0, 0), &t, true));
    assert!(is_solid(Cell::pack(1, 0), &t, true));
    assert!(is_solid(Cell::pack(2, 7), &t, false));
    assert!(!is_solid(Cell::pack(3, 0), &t, true));
    assert!(!is_solid(Cell::pack(4, 0), &t, true));
    let stamped = Cell::pack(2, 0).with_body(true);
    assert!(is_solid(stamped, &t, true));
    assert!(!is_solid(stamped, &t, false));
}
