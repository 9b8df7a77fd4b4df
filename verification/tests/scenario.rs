use sand_core::fixed::Fx;
use sand_core::hash::{combine, xxh3_64_bytes};
use sand_core::scenario::{
    fold_fx_fields, normalize_for_fingerprint, scenario_fingerprint, validate_dispersion, Scenario, ScheduleKind,
};
use sand_core::world::Op;

#[test]
fn normalize_is_identity_on_lf_content() {
    let lf = b"a\nb\nc\n";
    assert_eq!(normalize_for_fingerprint(lf), lf.to_vec());
    assert_eq!(normalize_for_fingerprint(b"a\r\nb\r\nc\r\n"), lf.to_vec());
}

#[test]
fn normalize_drops_every_carriage_return() {
    assert_eq!(normalize_for_fingerprint(b"\r\r x\ry\r"), b" xy".to_vec());
    assert!(normalize_for_fingerprint(b"").is_empty());
}

#[test]
fn validate_dispersion_accepts_exactly_one_to_max() {
    assert!(validate_dispersion(0).is_err());
    assert_eq!(validate_dispersion(1), Ok(1));
    assert_eq!(validate_dispersion(8), Ok(8));
    assert!(validate_dispersion(9).is_err());
    assert!(validate_dispersion(255).is_err());
}

fn brush(x: i32) -> Op {
    Op::Brush { material: 2, x, y: 0, r: 0 }
}

#[test]
fn ops_for_tick_follows_schedules_in_script_order() {
    let sc = Scenario {
        name: "t".to_string(),
        world: (1, 1),
        seed: 0,
        ticks: 10,
        setup: vec![],
        script: vec![
            (ScheduleKind::Every { from: 2, until: 8, step: 3 }, brush(1)),
            (ScheduleKind::At(5), brush(2)),
            (ScheduleKind::Every { from: 0, until: 3, step: 1 }, brush(3)),
        ],
        fingerprint: 0,
    };
    let xs = |t: u64| -> Vec<i32> {
        sc.ops_for_tick(t)
            .iter()
            .map(|op| match op {
                Op::Brush { x, .. } => *x,
                _ => -1,
            })
            .collect()
    };
    assert_eq!(xs(0), vec![3]);
    assert_eq!(xs(1), vec![3]);
    assert_eq!(xs(2), vec![1, 3]);
    assert_eq!(xs(3), Vec::<i32>::new());
    assert_eq!(xs(5), vec![1, 2]);
    assert_eq!(xs(8), Vec::<i32>::new());
}

fn emit(vx: i32) -> Op {
    Op::Emit { material: 2, x: Fx(1), y: Fx(2), vx: Fx(vx), vy: Fx(4), count: 1, jitter: Fx(5) }
}

#[test]
fn fold_fx_fields_changes_with_emit_fx_values_and_ignores_other_ops() {
    assert_ne!(fold_fx_fields(&[emit(3)]), fold_fx_fields(&[emit(7)]));
    assert_eq!(fold_fx_fields(&[emit(3), brush(1)]), fold_fx_fields(&[brush(9), emit(3)]));
    let mut bytes = Vec::new();
    for v in [1i32, 2, 3, 4, 5] {
        bytes.extend_from_slice(&v.to_le_bytes());
    }
    assert_eq!(fold_fx_fields(&[emit(3)]), xxh3_64_bytes(&bytes));
    assert_eq!(fold_fx_fields(&[]), xxh3_64_bytes(&[]));
}

#[test]
fn scenario_fingerprint_is_line_ending_agnostic_and_sees_parsed_values() {
    let lf = b"(name: \"x\")\n";
    let crlf = b"(name: \"x\")\r\n";
    let script = vec![(ScheduleKind::At(1), emit(3))];
    let a = scenario_fingerprint(lf, &[], &script);
    assert_eq!(a, scenario_fingerprint(crlf, &[], &script));
    assert_eq!(a, combine(xxh3_64_bytes(lf), fold_fx_fields(&[emit(3)])));
    let other = vec![(ScheduleKind::At(1), emit(4))];
    assert_ne!(a, scenario_fingerprint(lf, &[], &other));
    assert_eq!(scenario_fingerprint(lf, &[emit(3)], &[]), a);
}

#[test]
fn fold_fx_fields_changes_with_emit_fx_values() {
    let mk = |vx| Op::Emit { material: 0, x: Fx::zero(), y: Fx::zero(), vx, vy: Fx::zero(), count: 1, jitter: Fx::zero() };
    let a = [mk(Fx::from_int(1))];
    let b = [mk(Fx::from_int(2))];
    assert_ne!(fold_fx_fields(&a), fold_fx_fields(&b));
}

#[test]
fn fold_fx_fields_ignores_non_emit_ops() {
    let a = [Op::Brush { material: 2, x: 1, y: 1, r: 1 }];
    let b = [Op::Brush { material: 2, x: 9, y: 9, r: 9 }];
    assert_eq!(fold_fx_fields(&a), fold_fx_fields(&b));
}
