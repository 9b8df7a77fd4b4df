use sand_core::cell::Cell;
use sand_core::chunk::DirtyRect;
use sand_core::fixed::Fx;
use sand_core::window::{WriteWindow, HALO, MAX_SPLASH_PER_CHUNK, MAX_WRITE_RADIUS};
use sand_core::world::{wall_sentinel, SpawnRequest, World};

#[test]
fn push_spawn_is_capped_per_chunk() {
    let mut w = World::new(2, 2, 0);
    let win = WriteWindow::new(2, 2, 0, 0);
    let req = || SpawnRequest { material: 3, x: Fx(0), y: Fx(0), vx: Fx(0), vy: Fx(0) };
    let accepted = (0..100).filter(|_| win.push_spawn(&mut w, req())).count();
    assert_eq!(accepted, MAX_SPLASH_PER_CHUNK);
    assert_eq!(w.chunks[0].spawn_buf.len(), MAX_SPLASH_PER_CHUNK);
    assert!(w.chunks[1].spawn_buf.is_empty());
}

#[test]
fn oob_read_is_wall() {
    let w = World::new(1, 1, 0);
    let win = WriteWindow::new(1, 1, 0, 0);
    assert_eq!(win.get(&w, -1, 0), wall_sentinel());
    assert_eq!(win.get(&w, 0, 64), wall_sentinel());
}

#[test]
fn window_spans_own_chunk_plus_halo_clipped_to_world() {
    let win = WriteWindow::new(4, 4, 1, 1);
    assert!(win.contains(64 - HALO, 64 - HALO));
    assert!(win.contains(127 + HALO, 127 + HALO));
    assert!(!win.contains(64 - HALO - 1, 70));
    assert!(!win.contains(70, 128 + HALO));
    let corner = WriteWindow::new(4, 4, 0, 0);
    assert!(corner.contains(0, 0));
    assert!(!corner.contains(-1, 0));
    assert!(MAX_WRITE_RADIUS <= HALO);
}

#[test]
fn set_writes_cell_and_grows_live_rect() {
    let mut w = World::new(2, 2, 0);
    let mut win = WriteWindow::new(2, 2, 0, 0);
    win.seed_live(DirtyRect::empty());
    win.set(&mut w, 10, 20, Cell::pack(3, 1));
    assert_eq!(w.cell(10, 20), Cell::pack(3, 1));
    assert_eq!(win.live_rect(), DirtyRect { x0: 9, y0: 19, x1: 11, y1: 21 });
    assert_eq!(w.chunks[0].next_dirty.snapshot(), DirtyRect { x0: 9, y0: 19, x1: 11, y1: 21 });
    // A write in the neighbouring chunk's part of the halo leaves the live rect alone
    // unless its 3x3 neighbourhood reaches the own chunk.
    win.set(&mut w, 70, 20, Cell::pack(3, 1));
    assert_eq!(win.live_rect(), DirtyRect { x0: 9, y0: 19, x1: 11, y1: 21 });
    win.set(&mut w, 64, 30, Cell::pack(3, 1));
    assert_eq!(win.live_rect(), DirtyRect { x0: 9, y0: 19, x1: 63, y1: 31 });
}
