//! How many blocks and threads a launch has, and what each of them works on.

use crate::error::{Error, Failure, Result};
use crate::index::{lemma_flat, lemma_flat_inverse, lemma_unflat};
use vstd::prelude::*;

verus! {

/// The threads of a launch.
#[derive(Debug, Clone, Copy, PartialEq, Eq, Structural)]
pub enum Grid {
    /// At least one thread per element; a thread beyond the elements does nothing.
    Elements(u32),
    /// So many blocks of so many threads.
    Blocks { blocks: u32, threads: u32 },
}

/// The threads of a block that shares a tile of weights.
pub const TILE: usize = 256;

/// The threads of a block that shares a tile of gradients.
pub const GRADIENT_TILE: usize = 32;

/// The outcome of laying out a launch over elements.
pub open spec fn grid_of(numel: nat) -> std::result::Result<Grid, Failure> {
    if numel <= u32::MAX {
        Ok(Grid::Elements(numel as u32))
    } else {
        Err(Failure::Execution("tensor is too large for a CUDA grid"@))
    }
}

/// Lays out a launch over elements.
pub fn launch_config(numel: usize) -> (r: Result<Grid>)
    ensures
        match r {
            Ok(grid) => grid_of(numel as nat) == std::result::Result::<Grid, Failure>::Ok(grid),
            Err(error) => grid_of(numel as nat) == std::result::Result::<Grid, Failure>::Err(
                error@,
            ),
        },
{
    if numel as u64 <= 0xFFFF_FFFF {
        Ok(Grid::Elements(numel as u32))
    } else {
        Err(Error::execution("tensor is too large for a CUDA grid"))
    }
}

/// The number of tiles that a plane takes.
pub open spec fn tiles(elements: nat, tile: nat) -> nat {
    (elements / tile + if elements % tile == 0 {
        0nat
    } else {
        1nat
    }) as nat
}

/// The outcome of laying out a launch over planes, each in tiles of its own.
pub open spec fn tiled_grid(planes: nat, elements: nat, tile: nat) -> std::result::Result<
    Grid,
    Failure,
> {
    let blocks = planes * tiles(elements, tile);
    if blocks > usize::MAX {
        Err(Failure::Execution("CUDA tiled grid size overflow"@))
    } else if blocks > u32::MAX {
        Err(Failure::Execution("CUDA tiled grid exceeds u32"@))
    } else if tile > u32::MAX {
        Err(Failure::Execution("CUDA tile size exceeds u32"@))
    } else {
        Ok(Grid::Blocks { blocks: blocks as u32, threads: tile as u32 })
    }
}

/// Lays out a launch over planes in tiles of the given size.
pub fn tiled_launch_config_with_tile(planes: usize, elements_per_plane: usize, tile: usize) -> (r:
    Result<Grid>)
    requires
        tile > 0,
    ensures
        match r {
            Ok(grid) => tiled_grid(planes as nat, elements_per_plane as nat, tile as nat)
                == std::result::Result::<Grid, Failure>::Ok(grid),
            Err(error) => tiled_grid(planes as nat, elements_per_plane as nat, tile as nat)
                == std::result::Result::<Grid, Failure>::Err(error@),
        },
{
    proof {
        lemma_tiles(elements_per_plane as nat, tile as nat);
    }
    let rest: usize = if elements_per_plane % tile == 0 {
        0
    } else {
        1
    };
    let tiles_per_plane: usize = elements_per_plane / tile + rest;
    let blocks: usize = match planes.checked_mul(tiles_per_plane) {
        Some(blocks) => blocks,
        None => {
            return Err(Error::execution("CUDA tiled grid size overflow"));
        },
    };
    if blocks as u64 > 0xFFFF_FFFF {
        return Err(Error::execution("CUDA tiled grid exceeds u32"));
    }
    if tile as u64 > 0xFFFF_FFFF {
        return Err(Error::execution("CUDA tile size exceeds u32"));
    }
    Ok(Grid::Blocks { blocks: blocks as u32, threads: tile as u32 })
}

/// Lays out a launch over planes in tiles of weights.
pub fn tiled_launch_config(planes: usize, elements_per_plane: usize) -> (r: Result<Grid>)
    ensures
        match r {
            Ok(grid) => tiled_grid(planes as nat, elements_per_plane as nat, TILE as nat)
                == std::result::Result::<Grid, Failure>::Ok(grid),
            Err(error) => tiled_grid(planes as nat, elements_per_plane as nat, TILE as nat)
                == std::result::Result::<Grid, Failure>::Err(error@),
        },
{
    tiled_launch_config_with_tile(planes, elements_per_plane, TILE)
}

/// The tiles of a plane hold its elements, with room for less than one more tile.
pub proof fn lemma_tiles(elements: nat, tile: nat)
    requires
        tile > 0,
    ensures
        elements <= tiles(elements, tile) * tile < elements + tile,
        tiles(elements, tile) <= elements,
{
    let q = elements / tile;
    let m = elements % tile;
    vstd::arithmetic::div_mod::lemma_fundamental_div_mod(elements as int, tile as int);
    assert(q * tile == tile * q) by (nonlinear_arith);
    assert((q + 1) * tile == q * tile + tile) by (nonlinear_arith);
    assert(q <= q * tile) by (nonlinear_arith)
        requires
            tile > 0,
            0 <= q,
    ;
}

/// What a thread of a tiled launch works on: an element of a plane.
pub struct Spot {
    pub plane: int,
    pub element: int,
}

/// The spot of a thread.
pub open spec fn spot(block: int, thread: int, tiles: int, tile: int) -> Spot {
    Spot { plane: block / tiles, element: block % tiles * tile + thread }
}

/// The block and the thread that work on a spot.
pub open spec fn worker(at: Spot, tiles: int, tile: int) -> (int, int) {
    (at.plane * tiles + at.element / tile, at.element % tile)
}

/// Every element of every plane is worked on: its worker is a thread of the launch, and
/// works on just that element.
pub proof fn tiled_threads_reach_every_element(planes: nat, elements: nat, tile: nat, at: Spot)
    requires
        tile > 0,
        0 <= at.plane < planes,
        0 <= at.element < elements,
    ensures
        ({
            let count = tiles(elements, tile) as int;
            let (block, thread) = worker(at, count, tile as int);
            &&& 0 <= block < planes * count
            &&& 0 <= thread < tile
            &&& spot(block, thread, count, tile as int) == at
        }),
{
    let count = tiles(elements, tile) as int;
    lemma_tiles(elements, tile);
    lemma_unflat(at.element, count, tile as int);
    let q = at.element / tile as int;
    lemma_flat(at.plane, planes as int, q, count);
    lemma_flat_inverse(at.plane, q, count);
}

/// No two threads work on the same element, and each plane that is worked on exists.
pub proof fn tiled_threads_never_meet(
    planes: nat,
    elements: nat,
    tile: nat,
    block: int,
    thread: int,
    other_block: int,
    other_thread: int,
)
    requires
        tile > 0,
        elements > 0,
        0 <= block < planes * tiles(elements, tile),
        0 <= thread < tile,
        0 <= other_block < planes * tiles(elements, tile),
        0 <= other_thread < tile,
        spot(block, thread, tiles(elements, tile) as int, tile as int) == spot(
            other_block,
            other_thread,
            tiles(elements, tile) as int,
            tile as int,
        ),
    ensures
        block == other_block,
        thread == other_thread,
        0 <= spot(block, thread, tiles(elements, tile) as int, tile as int).plane < planes,
{
    let count = tiles(elements, tile) as int;
    lemma_tiles(elements, tile);
    lemma_unflat(block, planes as int, count);
    lemma_unflat(other_block, planes as int, count);
    lemma_flat_inverse(block % count, thread, tile as int);
    lemma_flat_inverse(other_block % count, other_thread, tile as int);
}

/// The element that a spot stands for in planes of equal size, one after the other.
pub open spec fn offset(at: Spot, elements: int) -> int {
    at.plane * elements + at.element
}

/// Spots inside their planes stand for different elements, all of them in range.
pub proof fn spots_are_distinct_elements(planes: nat, elements: nat, at: Spot, other: Spot)
    requires
        0 <= at.plane < planes,
        0 <= at.element < elements,
        0 <= other.plane < planes,
        0 <= other.element < elements,
    ensures
        0 <= offset(at, elements as int) < planes * elements,
        offset(at, elements as int) == offset(other, elements as int) ==> at == other,
{
    lemma_flat(at.plane, planes as int, at.element, elements as int);
    lemma_flat_inverse(at.plane, at.element, elements as int);
    lemma_flat_inverse(other.plane, other.element, elements as int);
}

/// The outcome of laying out a launch of the Gemma model over elements.
pub open spec fn model_grid(len: nat) -> std::result::Result<Grid, Failure> {
    if len == 0 {
        Err(Failure::InvalidShape("zero-sized Gemma CUDA launch"@))
    } else {
        Ok(Grid::Elements((len % 0x1_0000_0000) as u32))
    }
}

/// Lays out a launch of the Gemma model over elements.  The count of the grid is the
/// lower half of a count that is larger than a grid can be.
pub fn model_launch_config(len: usize) -> (r: Result<Grid>)
    ensures
        match r {
            Ok(grid) => model_grid(len as nat) == std::result::Result::<Grid, Failure>::Ok(grid),
            Err(error) => model_grid(len as nat) == std::result::Result::<Grid, Failure>::Err(
                error@,
            ),
        },
{
    if len == 0 {
        return Err(Error::shape("zero-sized Gemma CUDA launch"));
    }
    Ok(Grid::Elements((len as u64 % 0x1_0000_0000) as u32))
}

/// The outcome of laying out a launch with a block per row.
pub open spec fn row_grid(rows: nat) -> std::result::Result<Grid, Failure> {
    if rows > u32::MAX {
        Err(Failure::InvalidShape("too many Gemma CUDA rows"@))
    } else if rows == 0 {
        Err(Failure::InvalidShape("zero-sized Gemma CUDA row launch"@))
    } else {
        Ok(Grid::Blocks { blocks: rows as u32, threads: 256 })
    }
}

/// Lays out a launch with a block per row.
pub fn row_launch_config(rows: usize) -> (r: Result<Grid>)
    ensures
        match r {
            Ok(grid) => row_grid(rows as nat) == std::result::Result::<Grid, Failure>::Ok(grid),
            Err(error) => row_grid(rows as nat) == std::result::Result::<Grid, Failure>::Err(
                error@,
            ),
        },
{
    if rows as u64 > 0xFFFF_FFFF {
        return Err(Error::shape("too many Gemma CUDA rows"));
    }
    if rows == 0 {
        return Err(Error::shape("zero-sized Gemma CUDA row launch"));
    }
    Ok(Grid::Blocks { blocks: rows as u32, threads: 256 })
}

/// The columns that a thread of a row works on: every 256th, from its own on.
pub open spec fn strided(lane: int, column: int) -> bool {
    0 <= lane < 256 && column % 256 == lane
}

/// Every column of a row is worked on by exactly one thread.
pub proof fn row_lanes_share_the_columns(column: int, lane: int)
    requires
        0 <= column,
        0 <= lane < 256,
    ensures
        strided(column % 256, column),
        strided(lane, column) ==> lane == column % 256,
{
}

} // verus!
