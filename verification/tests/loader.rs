use sand_core::emit::MAX_EMIT_JITTER_RAW;
use sand_core::fixed::Fx;
use sand_core::loader::{
    build_material_defs, build_reaction_rules, resolve_op, MatError, MatInput, OpError, OpInput, ReactError, ReactionInput,
};
use sand_core::world::Op;
use sand_core::material::{Category, MaterialDef, MaterialTable, MAT_AIR};

fn input(id: u8, name: &str, category: Category) -> MatInput {
    MatInput {
        id,
        name: name.to_string(),
        category,
        density: 10,
        color: (1, 2, 3),
        hp: 1,
        durability: 0,
        dispersion: None,
        tags: vec![],
        ignition_temp: 100,
        fire_temp: 10,
        fire_hp: 0,
        lifetime: 0,
        decay_to: None,
        flame_to: None,
        requires_oxygen: true,
        extinguisher: false,
        vaporize_threshold: Ok(255),
        splash_chance: Ok(0),
        fire_chance: Ok(0),
        rise_chance: Ok(255),
    }
}

fn base_inputs() -> Vec<MatInput> {
    vec![input(0, "air", Category::Static), input(1, "wall", Category::Static)]
}

#[test]
fn build_material_defs_resolves_names_to_ids() {
    let mut v = base_inputs();
    let mut smoke = input(2, "smoke", Category::Gas);
    smoke.decay_to = Some("wall".to_string());
    smoke.tags = vec!["hot".to_string()];
    let mut oil = input(3, "oil", Category::Liquid);
    oil.dispersion = Some(3);
    oil.fire_chance = Ok(153);
    oil.flame_to = Some("smoke".to_string());
    v.push(smoke);
    v.push(oil);
    let defs = build_material_defs(&v).unwrap();
    assert_eq!(defs.len(), 4);
    assert_eq!(defs[2].decay_to, 1);
    assert_eq!(defs[2].tags, vec!["hot".to_string()]);
    assert_eq!(defs[2].dispersion, 1, "undeclared dispersion is 1");
    assert_eq!(defs[3].dispersion, 3);
    assert_eq!(defs[3].fire_chance, 153);
    assert_eq!(defs[3].decay_to, MAT_AIR);
    assert_eq!(defs[3].color, (1, 2, 3));
    assert!(MaterialTable::new(defs).is_ok());
}

#[test]
fn build_material_defs_refuses_a_gas_with_dispersion() {
    let mut v = base_inputs();
    let mut g = input(2, "steam", Category::Gas);
    g.dispersion = Some(1);
    v.push(g);
    assert!(matches!(build_material_defs(&v), Err((2, MatError::GasDispersion))));
}

#[test]
fn build_material_defs_refuses_unknown_references() {
    let mut v = base_inputs();
    let mut m = input(2, "wood", Category::Static);
    m.decay_to = Some("ash".to_string());
    v.push(m);
    assert!(matches!(build_material_defs(&v), Err((2, MatError::UnknownDecayTo))));
    let mut v = base_inputs();
    let mut m = input(2, "wood", Category::Static);
    m.fire_chance = Ok(10);
    m.flame_to = Some("fire".to_string());
    v.push(m);
    assert!(matches!(build_material_defs(&v), Err((2, MatError::UnknownFlameTo))));
}

#[test]
fn build_material_defs_needs_flame_to_for_fire_chance() {
    let mut v = base_inputs();
    let mut m = input(2, "wood", Category::Static);
    m.fire_chance = Ok(10);
    v.push(m);
    assert!(matches!(build_material_defs(&v), Err((2, MatError::FireWithoutFlame))));
}

#[test]
fn build_material_defs_reports_the_first_failing_rule_in_file_order() {
    let mut v = base_inputs();
    let mut a = input(2, "a", Category::Liquid);
    a.dispersion = Some(0);
    let mut b = input(3, "b", Category::Gas);
    b.dispersion = Some(2);
    v.push(a);
    v.push(b);
    assert!(matches!(build_material_defs(&v), Err((2, MatError::Dispersion))));
    let mut v = base_inputs();
    let mut c = input(2, "c", Category::Static);
    c.splash_chance = Err("splash_chance out of range".to_string());
    c.rise_chance = Err("rise_chance out of range".to_string());
    v.push(c);
    match build_material_defs(&v) {
        Err((2, MatError::Quantised(m))) => assert_eq!(m, "splash_chance out of range"),
        _ => panic!("expected the splash chance error"),
    }
}

fn def(id: u8, name: &str, category: Category, tags: &[&str]) -> MaterialDef {
    let mut d = MaterialDef::base(id, name, category, 10);
    d.tags = tags.iter().map(|t| t.to_string()).collect();
    d
}

fn reaction_table() -> MaterialTable {
    MaterialTable::new(vec![
        def(0, "air", Category::Static, &[]),
        def(1, "wall", Category::Static, &[]),
        def(2, "water", Category::Liquid, &[]),
        def(3, "wood", Category::Static, &["burnable"]),
        def(4, "oil", Category::Liquid, &["burnable"]),
        def(5, "fire", Category::Gas, &[]),
    ])
    .unwrap()
}

fn entry(i: [&str; 2], o: [&str; 2], t: u8) -> ReactionInput {
    ReactionInput {
        input: i.iter().map(|s| s.to_string()).collect(),
        output: o.iter().map(|s| s.to_string()).collect(),
        threshold: Ok(t),
    }
}

#[test]
fn build_reaction_rules_expands_tags_initiator_first() {
    let t = reaction_table();
    let rules = build_reaction_rules(&t, &vec![entry(["fire", "[burnable]"], ["fire", "fire"], 40)]).unwrap();
    assert_eq!(rules.len(), 2);
    assert_eq!((rules[0].a, rules[0].b, rules[0].out_a, rules[0].out_b, rules[0].threshold), (3, 5, 5, 5, 40));
    assert_eq!((rules[1].a, rules[1].b), (4, 5));
    let rules = build_reaction_rules(&t, &vec![entry(["water", "fire"], ["water", "air"], 255)]).unwrap();
    assert_eq!((rules[0].a, rules[0].b, rules[0].out_a, rules[0].out_b), (2, 5, 2, 0));
}

#[test]
fn build_reaction_rules_refuses_bad_entries() {
    let t = reaction_table();
    let bad_arity = ReactionInput { input: vec!["water".to_string()], output: vec![], threshold: Ok(1) };
    assert!(matches!(build_reaction_rules(&t, &vec![bad_arity]), Err((0, ReactError::Arity))));
    let ok = entry(["water", "fire"], ["water", "air"], 1);
    let tag_out = entry(["water", "fire"], ["water", "[burnable]"], 1);
    assert!(matches!(
        build_reaction_rules(&t, &vec![ok, tag_out]),
        Err((1, ReactError::TagOutput { index: 1 }))
    ));
    assert!(matches!(
        build_reaction_rules(&t, &vec![entry(["water", "fire"], ["steam", "air"], 1)]),
        Err((0, ReactError::UnknownOutput { index: 0 }))
    ));
    assert!(matches!(
        build_reaction_rules(&t, &vec![entry(["lava", "fire"], ["air", "air"], 1)]),
        Err((0, ReactError::UnknownInput { side: 0 }))
    ));
    assert!(matches!(
        build_reaction_rules(&t, &vec![entry(["water", "[frozen]"], ["air", "air"], 1)]),
        Err((0, ReactError::EmptyTag { side: 1 }))
    ));
    assert!(matches!(
        build_reaction_rules(&t, &vec![entry(["water", "water"], ["air", "air"], 1)]),
        Err((0, ReactError::SelfReaction))
    ));
    let mut q = entry(["water", "fire"], ["air", "air"], 1);
    q.threshold = Err("probability out of range".to_string());
    assert!(matches!(build_reaction_rules(&t, &vec![q]), Err((0, ReactError::Quantised(_)))));
}

fn table_with_water() -> MaterialTable {
    let mut air = MaterialDef::base(0, "air", Category::Static, 0);
    air.hp = 0;
    let mut wall = MaterialDef::base(1, "wall", Category::Static, 100);
    wall.hp = 100;
    wall.durability = 15;
    MaterialTable::new(vec![air, wall, MaterialDef::base(2, "water", Category::Liquid, 16)]).unwrap()
}

fn explode(x: i32, y: i32, r: i32, power: u32) -> OpInput {
    OpInput::Explode { x, y, r, power }
}

fn emit(material: &str, jitter: i32) -> OpInput {
    OpInput::Emit {
        material: material.to_string(),
        x: Ok(Fx(120 << 16)),
        y: Ok(Fx(8 << 16)),
        vx: Ok(Fx(0x8000)),
        vy: Ok(Fx(2 << 16)),
        count: 3,
        jitter: Ok(Fx(jitter)),
    }
}

#[test]
fn resolve_op_explode_passes_integers_through_unquantized() {
    let t = table_with_water();
    match resolve_op(&t, &explode(100, 50, 12, 40)).unwrap() {
        Op::Explode { x, y, r, power } => assert_eq!((x, y, r, power), (100, 50, 12, 40)),
        _ => panic!("expected an explosion"),
    }
}

#[test]
fn resolve_op_rejects_explode_radius_out_of_range() {
    let t = table_with_water();
    assert!(matches!(resolve_op(&t, &explode(0, 0, 0, 10)), Err(OpError::ExplodeRadius)));
    assert!(matches!(resolve_op(&t, &explode(0, 0, 32768, 10)), Err(OpError::ExplodeRadius)));
    assert!(resolve_op(&t, &explode(0, 0, 32767, 10)).is_ok());
}

#[test]
fn resolve_op_rejects_explode_power_out_of_range() {
    let t = table_with_water();
    assert!(matches!(resolve_op(&t, &explode(0, 0, 1, 0)), Err(OpError::ExplodePower)));
    assert!(matches!(resolve_op(&t, &explode(0, 0, 1, i32::MAX as u32 + 1)), Err(OpError::ExplodePower)));
}

#[test]
fn resolve_op_rejects_explode_centre_out_of_range() {
    let t = table_with_water();
    assert!(matches!(resolve_op(&t, &explode(32768, 0, 1, 1)), Err(OpError::ExplodeCentre)));
    assert!(matches!(resolve_op(&t, &explode(0, -32768, 1, 1)), Err(OpError::ExplodeCentre)));
}

#[test]
fn resolve_op_emit_quantizes_all_fx_fields() {
    let t = table_with_water();
    match resolve_op(&t, &emit("water", 0xCCCC)).unwrap() {
        Op::Emit { material, x, y, vx, vy, count, jitter } => {
            assert_eq!(material, 2);
            assert_eq!((x.0, y.0, vx.0, vy.0, jitter.0), (120 << 16, 8 << 16, 0x8000, 2 << 16, 0xCCCC));
            assert_eq!(count, 3);
        }
        _ => panic!("expected an emitter"),
    }
}

#[test]
fn resolve_op_emit_unknown_material_errors() {
    let t = table_with_water();
    assert!(matches!(resolve_op(&t, &emit("lava", 0)), Err(OpError::UnknownMaterial)));
}

#[test]
fn resolve_op_rejects_jitter_above_max_emit_jitter_raw() {
    let t = table_with_water();
    assert!(matches!(resolve_op(&t, &emit("water", MAX_EMIT_JITTER_RAW + 1)), Err(OpError::EmitJitter)));
}

#[test]
fn resolve_op_accepts_jitter_exactly_at_max_emit_jitter_raw() {
    let t = table_with_water();
    match resolve_op(&t, &emit("water", MAX_EMIT_JITTER_RAW)).unwrap() {
        Op::Emit { jitter, .. } => assert_eq!(jitter.0, MAX_EMIT_JITTER_RAW),
        _ => panic!("expected an emitter"),
    }
}

#[test]
fn resolve_op_reports_a_failed_conversion() {
    let t = table_with_water();
    let mut e = emit("water", 0);
    if let OpInput::Emit { vy, .. } = &mut e {
        *vy = Err("vy out of range".to_string());
    }
    match resolve_op(&t, &e) {
        Err(OpError::Quantised(m)) => assert_eq!(m, "vy out of range"),
        _ => panic!("expected the conversion error"),
    }
}
