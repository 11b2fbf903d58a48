//! Memory that responses and conversations may hold.
use crate::local_router::errors::{Failure, FailureV, done_view, fail};
use vstd::prelude::*;

verus! {

/// Bytes that one unit of the pool stands for.
pub const REQUEST_BODY_BUDGET_UNIT_BYTES: usize = 65_536;

/// How much larger than its text a document is in memory.
pub const REQUEST_MEMORY_BUDGET_MULTIPLIER: usize = 4;

/// Bytes that all responses and conversations may hold together.
pub const RETAINED_RESPONSE_BUDGET_BYTES: usize = 268_435_456;

/// Units that are free.
pub struct MemoryPool {
    pub available: usize,
}

/// Units that one owner holds.
pub struct RetainedMemoryBudget {
    pub held: usize,
}

/// The units that so many bytes need, counting what documents take in memory. The count of bytes
/// stops at the largest number.
pub open spec fn units_for(bytes: nat) -> nat {
    let wide = bytes * (REQUEST_MEMORY_BUDGET_MULTIPLIER as nat);
    let capped = if wide > usize::MAX {
        usize::MAX as nat
    } else {
        wide
    };
    let unit = REQUEST_BODY_BUDGET_UNIT_BYTES as nat;
    if capped % unit == 0 {
        capped / unit
    } else {
        capped / unit + 1
    }
}

/// The units that so many bytes need.
pub fn required_units(bytes: usize) -> (r: usize)
    ensures
        r == units_for(bytes as nat),
{
    let capped: usize = if bytes > usize::MAX / REQUEST_MEMORY_BUDGET_MULTIPLIER {
        usize::MAX
    } else {
        bytes * REQUEST_MEMORY_BUDGET_MULTIPLIER
    };
    if capped % REQUEST_BODY_BUDGET_UNIT_BYTES == 0 {
        capped / REQUEST_BODY_BUDGET_UNIT_BYTES
    } else {
        capped / REQUEST_BODY_BUDGET_UNIT_BYTES + 1
    }
}

impl MemoryPool {
    /// A pool of all units.
    pub fn new() -> (r: MemoryPool)
        ensures
            r.available == RETAINED_RESPONSE_BUDGET_BYTES / REQUEST_BODY_BUDGET_UNIT_BYTES,
    {
        MemoryPool { available: RETAINED_RESPONSE_BUDGET_BYTES / REQUEST_BODY_BUDGET_UNIT_BYTES }
    }
}

impl RetainedMemoryBudget {
    pub fn new() -> (r: RetainedMemoryBudget)
        ensures
            r.held == 0,
    {
        RetainedMemoryBudget { held: 0 }
    }

    /// Holds what so many bytes need, from now on. Where the pool has too little left, nothing
    /// changes.
    pub fn resize(&mut self, pool: &mut MemoryPool, bytes: usize) -> (r: Result<(), Failure>)
        requires
            old(self).held + old(pool).available <= usize::MAX,
        ensures
            ({
                let need = units_for(bytes as nat);
                let more = need - old(self).held;
                let refused = if more > u32::MAX {
                    Some(FailureV::Text("响应缓冲预算超出上限"@))
                } else if more > old(pool).available {
                    Some(FailureV::Text("响应或会话历史缓冲区已满，请压缩上下文或稍后重试"@))
                } else {
                    None
                };
                match refused {
                    Some(e) => {
                        &&& done_view(r) == Err::<(), FailureV>(e)
                        &&& final(self).held == old(self).held
                        &&& final(pool).available == old(pool).available
                    },
                    None => {
                        &&& done_view(r) == Ok::<(), FailureV>(())
                        &&& final(self).held == need
                        &&& final(pool).available == old(pool).available - more
                    },
                }
            }),
    {
        let required = required_units(bytes);
        if required > self.held {
            let more = required - self.held;
            if more > 0xffff_ffff {
                return Err(fail("响应缓冲预算超出上限"));
            }
            if more > pool.available {
                return Err(fail("响应或会话历史缓冲区已满，请压缩上下文或稍后重试"));
            }
            pool.available = pool.available - more;
            self.held = required;
        } else {
            pool.available = pool.available + (self.held - required);
            self.held = required;
        }
        Ok(())
    }

    /// Gives everything back.
    pub fn release(self, pool: &mut MemoryPool)
        requires
            self.held + old(pool).available <= usize::MAX,
        ensures
            final(pool).available == old(pool).available + self.held,
    {
        pool.available = pool.available + self.held;
    }
}

/// More bytes never need fewer units, and no bytes need none.
pub proof fn units_grow_with_bytes(a: nat, b: nat)
    requires
        a <= b,
    ensures
        units_for(a) <= units_for(b),
        units_for(0) == 0,
{
}

/// Units that a piece of a response takes in the queue of the request log: at least one, and never
/// more than the queue has.
pub fn tap_permits(length: usize, chunk_bytes: usize, queue_chunks: usize) -> (r: usize)
    requires
        chunk_bytes > 0,
        queue_chunks > 0,
    ensures
        ({
            let whole = length as int / chunk_bytes as int + if length as int % chunk_bytes as int
                == 0 {
                0int
            } else {
                1int
            };
            r == if whole < 1 {
                1
            } else if whole > queue_chunks {
                queue_chunks as int
            } else {
                whole
            }
        }),
{
    let full = length / chunk_bytes;
    let rest = length % chunk_bytes;
    if rest == 0 {
        if full < 1 {
            1
        } else if full > queue_chunks {
            queue_chunks
        } else {
            full
        }
    } else if full >= queue_chunks {
        queue_chunks
    } else {
        full + 1
    }
}

/// Puts a piece of an error response at the end of what was kept, as far as the limit goes. Says
/// whether more may follow.
pub fn keep_error_bytes(kept: &mut Vec<u8>, chunk: &Vec<u8>, limit: usize) -> (more: bool)
    requires
        old(kept).len() <= limit,
    ensures
        ({
            let room = limit - old(kept).len();
            let taken = if chunk.len() <= room {
                chunk@
            } else {
                chunk@.subrange(0, room)
            };
            &&& final(kept)@ == old(kept)@ + taken
            &&& more == (final(kept).len() < limit)
        }),
{
    let room = limit - kept.len();
    let count = if chunk.len() <= room {
        chunk.len()
    } else {
        room
    };
    let ghost before = kept@;
    let mut i: usize = 0;
    proof {
        assert(before + chunk@.subrange(0, 0) =~= before);
    }
    while i < count
        invariant
            i <= count <= chunk.len(),
            kept@ == before + chunk@.subrange(0, i as int),
        decreases count - i,
    {
        kept.push(chunk[i]);
        i = i + 1;
        proof {
            assert(kept@ =~= before + chunk@.subrange(0, i as int));
        }
    }
    proof {
        if chunk.len() <= room {
            assert(chunk@.subrange(0, count as int) =~= chunk@);
        }
    }
    kept.len() < limit
}

/// The units hold what the bytes need, and one unit fewer would not.
pub proof fn units_are_just_enough(bytes: nat)
    requires
        bytes * (REQUEST_MEMORY_BUDGET_MULTIPLIER as nat) <= usize::MAX,
    ensures
        units_for(bytes) * (REQUEST_BODY_BUDGET_UNIT_BYTES as nat) >= bytes * (
        REQUEST_MEMORY_BUDGET_MULTIPLIER as nat),
        bytes > 0 ==> (units_for(bytes) - 1) * (REQUEST_BODY_BUDGET_UNIT_BYTES as nat) < bytes * (
        REQUEST_MEMORY_BUDGET_MULTIPLIER as nat),
{
}

} // verus!
