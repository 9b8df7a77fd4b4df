use sand_core::fixed::Fx;
use sand_core::projectile::{Projectiles, MAX_PROJECTILES};

#[test]
fn empty_projectiles_hash_into_is_zero() {
    assert_eq!(Projectiles::new().hash_into(), 0);
}

#[test]
fn spawn_rejects_beyond_capacity_and_counts_diagnostically() {
    let mut p = Projectiles::new();
    for _ in 0..MAX_PROJECTILES {
        assert!(p.spawn(0, Fx(0), Fx(0), Fx(0), Fx(0), 10, 0, 255, 0, 0));
    }
    assert!(!p.spawn(0, Fx(0), Fx(0), Fx(0), Fx(0), 10, 0, 255, 0, 0));
    assert_eq!(p.len(), MAX_PROJECTILES);
    assert_eq!(p.rejected_total(), 1);
}

#[test]
fn hash_into_is_stable_and_sensitive_to_content() {
    let mut a = Projectiles::new();
    a.spawn(1, Fx::from_int(3), Fx::from_int(4), Fx::from_int(1), Fx(0), 10, 0, 255, 2, 0);
    let mut b = Projectiles::new();
    b.spawn(1, Fx::from_int(3), Fx::from_int(4), Fx::from_int(1), Fx(0), 10, 0, 255, 2, 0);
    assert_eq!(a.hash_into(), b.hash_into());
    b.spawn(1, Fx::from_int(9), Fx::from_int(9), Fx(0), Fx(0), 5, 0, 255, 0, 0);
    assert_ne!(a.hash_into(), b.hash_into());
}

#[test]
fn spawn_stores_fields_and_compact_drops_dead() {
    let mut p = Projectiles::new();
    assert!(p.is_empty());
    p.spawn(2, Fx::from_int(1), Fx::from_int(2), Fx::from_int(3), Fx::from_int(4), 7, 99, 3, 0, 1);
    p.spawn(5, Fx::from_int(8), Fx::from_int(8), Fx(0), Fx(0), 0, 1, 4, 0, 0);
    assert_eq!(p.len(), 2);
    assert_eq!(p.spell(0), 2);
    assert_eq!((p.x(0), p.y(0)), (Fx::from_int(1), Fx::from_int(2)));
    assert_eq!((p.vx(0), p.vy(0)), (Fx::from_int(3), Fx::from_int(4)));
    assert_eq!(p.life(0), 7);
    assert_eq!(p.energy(0), 99);
    assert_eq!(p.owner(0), 3);
    assert_eq!(p.bounces(0), 1);
    p.compact();
    assert_eq!(p.len(), 1);
    assert_eq!(p.spell(0), 2);
}
