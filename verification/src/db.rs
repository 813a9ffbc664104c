//! Query counts and row numbers of the benchmark database.

use nanorand::Rng;
use vstd::prelude::*;

verus! {

/// How many rows the world table has.
pub const WORLD_ROWS: u32 = 10000;

/// The largest number of queries that one request may ask for.
pub const MAX_QUERIES: i32 = 500;

/// A random number below `bound`, from `nanorand::Rng::generate_range` on a
/// fresh `nanorand::WyRand`. Which one it is depends on the system's entropy;
/// every outcome is below the bound. An empty range has no outcome, so the
/// bound is positive.
#[verifier::external_body]
fn random_below(bound: u32) -> (n: u32)
    requires
        bound > 0,
    ensures
        n < bound,
{
    nanorand::WyRand::new().generate_range(0..bound)
}

/// The number of the world row at an offset; rows are numbered from one.
pub fn world_id(offset: u32) -> (id: i32)
    requires
        offset < WORLD_ROWS,
    ensures
        id == offset + 1,
{
    (offset + 1) as i32
}

/// Whether `offset` can be drawn as the offset of a world row: whether it is a
/// random number below the number of rows.
pub closed spec fn is_drawn(offset: u32) -> bool {
    call_ensures(random_below, (WORLD_ROWS,), offset)
}

/// The number of a random world row: that at an offset drawn from all of them.
pub fn random_world_id() -> (id: i32)
    ensures
        1 <= id <= WORLD_ROWS,
        1 <= id <= 10000,
        WORLD_ROWS == 10000,
        exists|offset: u32| #[trigger] is_drawn(offset) && id == offset + 1,
{
    let offset: u32 = random_below(WORLD_ROWS);
    assert(is_drawn(offset));
    world_id(offset)
}

/// The number of queries to run when `n` are asked for: at least one and at
/// most five hundred.
pub open spec fn clamped(n: int) -> int {
    if n < 1 {
        1
    } else if n > MAX_QUERIES {
        MAX_QUERIES as int
    } else {
        n
    }
}

/// Clamps a query count to the range from one to five hundred.
pub fn clamp_queries(n: i32) -> (queries: i32)
    ensures
        queries == clamped(n as int),
        1 <= n <= 500 ==> queries == n,
        n < 1 ==> queries == 1,
        n > 500 ==> queries == 500,
        1 <= queries <= MAX_QUERIES,
{
    if n < 1 {
        1
    } else if n > MAX_QUERIES {
        MAX_QUERIES
    } else {
        n
    }
}

/// Clamping twice changes nothing over clamping once, and it keeps the order
/// of counts.
pub proof fn law_clamp_is_a_projection(m: int, n: int)
    ensures
        clamped(clamped(n)) == clamped(n),
        1 <= n <= MAX_QUERIES ==> clamped(n) == n,
        m <= n ==> clamped(m) <= clamped(n),
{
}

/// A request runs as many queries as it asks for, but at least one and at most
/// five hundred.
pub proof fn law_clamp_has_two_bounds(n: int)
    ensures
        n <= 1 ==> clamped(n) == 1,
        1 <= n <= 500 ==> clamped(n) == n,
        n >= 500 ==> clamped(n) == 500,
{
}

} // verus!
