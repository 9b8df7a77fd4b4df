//! State hashing: XXH3-64 over a fixed little-endian byte layout. The grid
//! hash is a root over per-chunk hashes (each chunk hashed with its
//! coordinates), so the first diverging chunk can be located.

use vstd::prelude::*;

use crate::cell::Cell;
use crate::chunk::Chunk;
use crate::world::World;

verus! {

/// XXH3-64 (default seed and secret) of a byte string.
pub uninterp spec fn xxh3_64_spec(bytes: Seq<u8>) -> u64;

/// Calls `xxhash_rust::xxh3::xxh3_64`, the one-shot XXH3-64 with the default
/// seed and secret. Claimed: the result is a function of the bytes alone
/// (named [`xxh3_64_spec`]); nothing is claimed about its value.
#[verifier::external_body]
fn xxh3_64(bytes: &[u8]) -> (r: u64)
    ensures
        r == xxh3_64_spec(bytes@),
{
    xxhash_rust::xxh3::xxh3_64(bytes)
}

/// XXH3-64 of a byte string (shared by the other layers' hashes).
pub fn xxh3_64_bytes(bytes: &[u8]) -> (r: u64)
    ensures
        r == xxh3_64_spec(bytes@),
{
    xxh3_64(bytes)
}

/// Little-endian bytes of a `u32`.
pub open spec fn u32_le(v: u32) -> Seq<u8> {
    seq![(v & 0xff) as u8, ((v >> 8u32) & 0xff) as u8, ((v >> 16u32) & 0xff) as u8, ((v >> 24u32) & 0xff) as u8]
}

/// Little-endian bytes of a `u64`.
pub open spec fn u64_le(v: u64) -> Seq<u8> {
    u32_le((v & 0xffff_ffff) as u32) + u32_le((v >> 32u64) as u32)
}

/// Little-endian bytes of an `i32` (its two's complement bits).
pub open spec fn i32_le(v: i32) -> Seq<u8> {
    u32_le(v as u32)
}

/// Little-endian bytes of a `u16`.
pub open spec fn u16_le(v: u16) -> Seq<u8> {
    seq![(v & 0xff) as u8, ((v >> 8u16) & 0xff) as u8]
}

/// Append the little-endian bytes of `v`.
pub fn push_u32_le(out: &mut Vec<u8>, v: u32)
    ensures
        final(out)@ == old(out)@ + u32_le(v),
{
    out.push((v & 0xff) as u8);
    out.push(((v >> 8u32) & 0xff) as u8);
    out.push(((v >> 16u32) & 0xff) as u8);
    out.push(((v >> 24u32) & 0xff) as u8);
    proof {
        assert(out@ =~= old(out)@ + u32_le(v));
    }
}

/// Append the little-endian bytes of `v`.
pub fn push_u64_le(out: &mut Vec<u8>, v: u64)
    ensures
        final(out)@ == old(out)@ + u64_le(v),
{
    push_u32_le(out, (v & 0xffff_ffff) as u32);
    push_u32_le(out, (v >> 32u64) as u32);
    proof {
        assert(out@ =~= old(out)@ + u64_le(v));
    }
}

/// Append the little-endian bytes of `v`.
pub fn push_u16_le(out: &mut Vec<u8>, v: u16)
    ensures
        final(out)@ == old(out)@ + u16_le(v),
{
    out.push((v & 0xff) as u8);
    out.push(((v >> 8u16) & 0xff) as u8);
    proof {
        assert(out@ =~= old(out)@ + u16_le(v));
    }
}

/// Raw bytes of a sequence of cells, in order.
pub open spec fn cells_bytes(cells: Seq<Cell>) -> Seq<u8>
    decreases cells.len(),
{
    if cells.len() == 0 {
        Seq::empty()
    } else {
        cells_bytes(cells.drop_last()) + u32_le(cells.last()@)
    }
}

/// Bytes hashed for chunk `(cx, cy)`: its cells, then its coordinates.
pub open spec fn chunk_bytes(cells: Seq<Cell>, cx: u32, cy: u32) -> Seq<u8> {
    cells_bytes(cells) + u32_le(cx) + u32_le(cy)
}

/// Hash of one chunk at chunk coordinates `(cx, cy)`.
pub open spec fn chunk_hash_spec(cells: Seq<Cell>, cx: u32, cy: u32) -> u64 {
    xxh3_64_spec(chunk_bytes(cells, cx, cy))
}

/// Hash of a chunk's cells and coordinates (the coordinates keep identical
/// chunks at different places apart).
pub fn chunk_hash(chunk: &Chunk, cx: u32, cy: u32) -> (r: u64)
    ensures
        r == chunk_hash_spec(chunk.cells@, cx, cy),
{
    let mut bytes: Vec<u8> = Vec::new();
    let mut i: usize = 0;
    while i < chunk.cells.len()
        invariant
            i <= chunk.cells@.len(),
            bytes@ == cells_bytes(chunk.cells@.subrange(0, i as int)),
        decreases chunk.cells@.len() - i,
    {
        push_u32_le(&mut bytes, chunk.cells[i].raw());
        proof {
            assert(chunk.cells@.subrange(0, i as int + 1).drop_last() =~= chunk.cells@.subrange(0, i as int));
        }
        i += 1;
    }
    proof {
        assert(chunk.cells@.subrange(0, chunk.cells@.len() as int) =~= chunk.cells@);
    }
    push_u32_le(&mut bytes, cx);
    push_u32_le(&mut bytes, cy);
    xxh3_64(bytes.as_slice())
}

/// Bytes of the chunk hashes of row `cy`, columns `0..n`.
pub open spec fn row_bytes(w: World, cy: int, n: int) -> Seq<u8>
    decreases n,
{
    if n <= 0 {
        Seq::empty()
    } else {
        row_bytes(w, cy, n - 1) + u64_le(chunk_hash_spec(w.chunk_at(n - 1, cy).cells@, (n - 1) as u32, cy as u32))
    }
}

/// Bytes of the chunk hashes of rows `0..n`, row-major.
pub open spec fn rows_bytes(w: World, n: int) -> Seq<u8>
    decreases n,
{
    if n <= 0 {
        Seq::empty()
    } else {
        rows_bytes(w, n - 1) + row_bytes(w, n - 1, w.width_chunks as int)
    }
}

/// The grid root hash: the tick, then every chunk hash in row-major order.
pub open spec fn state_hash_spec(w: World) -> u64 {
    xxh3_64_spec(u64_le(w.tick) + rows_bytes(w, w.height_chunks as int))
}

/// Grid root hash over the tick and the per-chunk hashes in row-major order
/// (particles are hashed apart, see [`combine`]).
pub fn state_hash(world: &World) -> (r: u64)
    requires
        world.wf(),
    ensures
        r == state_hash_spec(*world),
{
    let mut bytes: Vec<u8> = Vec::new();
    push_u64_le(&mut bytes, world.tick);
    let ghost head = bytes@;
    let mut cy: usize = 0;
    while cy < world.height_chunks
        invariant
            world.wf(),
            cy <= world.height_chunks,
            bytes@ == head + rows_bytes(*world, cy as int),
        decreases world.height_chunks - cy,
    {
        let mut cx: usize = 0;
        while cx < world.width_chunks
            invariant
                world.wf(),
                cy < world.height_chunks,
                cx <= world.width_chunks,
                bytes@ == head + rows_bytes(*world, cy as int) + row_bytes(*world, cy as int, cx as int),
            decreases world.width_chunks - cx,
        {
            let ci = world.chunk_index(cx, cy);
            let h = chunk_hash(&world.chunks[ci], cx as u32, cy as u32);
            push_u64_le(&mut bytes, h);
            proof {
                assert(bytes@ =~= head + rows_bytes(*world, cy as int) + row_bytes(*world, cy as int, cx as int + 1));
            }
            cx += 1;
        }
        proof {
            assert(bytes@ =~= head + rows_bytes(*world, cy as int + 1));
        }
        cy += 1;
    }
    xxh3_64(bytes.as_slice())
}

/// Combination of the grid root with a layer hash.
pub open spec fn combine_spec(grid_root: u64, layer: u64) -> u64 {
    xxh3_64_spec(u64_le(grid_root) + u64_le(layer))
}

/// Combine the grid root with the particle-layer hash.
pub fn combine(grid_root: u64, particle_hash: u64) -> (r: u64)
    ensures
        r == combine_spec(grid_root, particle_hash),
{
    let mut bytes: Vec<u8> = Vec::new();
    push_u64_le(&mut bytes, grid_root);
    push_u64_le(&mut bytes, particle_hash);
    proof {
        assert(bytes@ =~= u64_le(grid_root) + u64_le(particle_hash));
    }
    xxh3_64(bytes.as_slice())
}

/// Whether chunk `(cx, cy)` hashes equally in `a` and `b`.
pub open spec fn chunk_agrees(a: World, b: World, cx: int, cy: int) -> bool {
    chunk_hash_spec(a.chunk_at(cx, cy).cells@, cx as u32, cy as u32) == chunk_hash_spec(
        b.chunk_at(cx, cy).cells@,
        cx as u32,
        cy as u32,
    )
}

/// Chunk `(cx, cy)` comes before chunk `(dx, dy)` in row-major order.
pub open spec fn row_major_before(cx: int, cy: int, dx: int, dy: int) -> bool {
    cy < dy || (cy == dy && cx < dx)
}

/// The first chunk, in row-major order, whose hashes differ between two
/// worlds of the same dimensions; `None` when all agree.
pub fn first_diverging_chunk(a: &World, b: &World) -> (r: Option<(usize, usize)>)
    requires
        a.wf(),
        b.wf(),
        a.width_chunks == b.width_chunks,
        a.height_chunks == b.height_chunks,
    ensures
        match r {
            Some((cx, cy)) => {
                &&& cx < a.width_chunks && cy < a.height_chunks
                &&& !chunk_agrees(*a, *b, cx as int, cy as int)
                &&& forall|x: int, y: int|
                    0 <= x < a.width_chunks && 0 <= y < a.height_chunks && row_major_before(x, y, cx as int, cy as int)
                        ==> #[trigger] chunk_agrees(*a, *b, x, y)
            },
            None => forall|x: int, y: int|
                0 <= x < a.width_chunks && 0 <= y < a.height_chunks ==> #[trigger] chunk_agrees(*a, *b, x, y),
        },
{
    let mut cy: usize = 0;
    while cy < a.height_chunks
        invariant
            a.wf(),
            b.wf(),
            a.width_chunks == b.width_chunks,
            a.height_chunks == b.height_chunks,
            cy <= a.height_chunks,
            forall|x: int, y: int|
                0 <= x < a.width_chunks && 0 <= y < cy ==> #[trigger] chunk_agrees(*a, *b, x, y),
        decreases a.height_chunks - cy,
    {
        let mut cx: usize = 0;
        while cx < a.width_chunks
            invariant
                a.wf(),
                b.wf(),
                a.width_chunks == b.width_chunks,
                a.height_chunks == b.height_chunks,
                cy < a.height_chunks,
                cx <= a.width_chunks,
                forall|x: int, y: int|
                    0 <= x < a.width_chunks && 0 <= y < a.height_chunks && row_major_before(x, y, cx as int, cy as int)
                        ==> #[trigger] chunk_agrees(*a, *b, x, y),
            decreases a.width_chunks - cx,
        {
            let i = a.chunk_index(cx, cy);
            let ha = chunk_hash(&a.chunks[i], cx as u32, cy as u32);
            let hb = chunk_hash(&b.chunks[i], cx as u32, cy as u32);
            if ha != hb {
                return Some((cx, cy));
            }
            cx += 1;
        }
        cy += 1;
    }
    None
}

} // verus!
