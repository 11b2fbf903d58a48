//! Locks of maintenance jobs that an instance left behind.
use crate::text::{texts, texts_push};
use vstd::prelude::*;

verus! {

/// Seconds after which a lock whose owner cannot be read is given up.
pub const UNKNOWN_OWNER_STALE_AFTER: u64 = 3600;

/// The directories that are locks.
pub open spec fn lock_dirs() -> Seq<Seq<char>> {
    seq!["tmp/provider-sync.lock"@, "tmp/codey-session-index-cleanup.lock"@]
}

/// The directories that are locks, below the home directory.
pub fn lock_directories() -> (r: Vec<String>)
    ensures
        texts(r@) == lock_dirs(),
{
    let mut out: Vec<String> = Vec::new();
    out.push("tmp/provider-sync.lock".to_owned());
    out.push("tmp/codey-session-index-cleanup.lock".to_owned());
    proof {
        assert(texts(out@) =~= lock_dirs());
    }
    out
}

/// A number that a process can have.
pub open spec fn can_be_process(pid: u32) -> bool {
    0 < pid <= 0x7fff_ffff
}

/// Whether a process runs, by the answer to a signal that does nothing: it was taken, or refused
/// for want of rights.
pub fn process_is_running(pid: u32, signal_taken: bool, signal_forbidden: bool) -> (r: bool)
    ensures
        r == (can_be_process(pid) && (signal_taken || signal_forbidden)),
{
    0 < pid && pid <= 0x7fff_ffff && (signal_taken || signal_forbidden)
}

/// A lock as it is found.
#[derive(Debug)]
pub struct LockState {
    pub path: String,
    pub exists: bool,
    /// The process that the lock's file names, where it can be read.
    pub owner: Option<u32>,
    /// That process runs.
    pub owner_running: bool,
    /// Seconds since the lock was last changed, where that is known.
    pub age: Option<u64>,
}

/// The lock was left behind. One whose owner is known stays as long as the owner runs; one whose
/// owner cannot be read stays for an hour, so that a job which is just starting keeps its lock.
pub open spec fn is_stale(lock: LockState) -> bool {
    lock.exists && match lock.owner {
        Some(_) => !lock.owner_running,
        None => lock.age matches Some(a) && a >= UNKNOWN_OWNER_STALE_AFTER,
    }
}

/// Whether a lock was left behind.
pub fn recover_stale_lock(lock: &LockState) -> (r: bool)
    ensures
        r == is_stale(*lock),
{
    if !lock.exists {
        return false;
    }
    match lock.owner {
        Some(_) => !lock.owner_running,
        None => match lock.age {
            Some(a) => a >= UNKNOWN_OWNER_STALE_AFTER,
            None => false,
        },
    }
}

/// The paths of the locks that were left behind.
pub open spec fn stale_paths(locks: Seq<LockState>) -> Seq<Seq<char>>
    decreases locks.len(),
{
    if locks.len() == 0 {
        Seq::empty()
    } else {
        let rest = stale_paths(locks.drop_last());
        if is_stale(locks.last()) {
            rest.push(locks.last().path@)
        } else {
            rest
        }
    }
}

/// The paths of the locks that are to be removed.
pub fn recover_stale_locks(locks: &Vec<LockState>) -> (r: Vec<String>)
    ensures
        texts(r@) == stale_paths(locks@),
{
    let mut out: Vec<String> = Vec::new();
    let mut i: usize = 0;
    proof {
        assert(texts(out@) =~= stale_paths(locks@.subrange(0, 0)));
    }
    while i < locks.len()
        invariant
            i <= locks.len(),
            texts(out@) == stale_paths(locks@.subrange(0, i as int)),
        decreases locks.len() - i,
    {
        proof {
            assert(locks@.subrange(0, i + 1).drop_last() =~= locks@.subrange(0, i as int));
            assert(locks@.subrange(0, i + 1).last() == locks@[i as int]);
        }
        if recover_stale_lock(&locks[i]) {
            let path = locks[i].path.clone();
            proof {
                texts_push(out@, path);
            }
            out.push(path);
        }
        i = i + 1;
    }
    proof {
        assert(locks@.subrange(0, i as int) =~= locks@);
    }
    out
}

/// The lock of a running job is never removed.
pub proof fn a_running_owner_keeps_its_lock(lock: LockState)
    requires
        lock.owner is Some,
        lock.owner_running,
    ensures
        !is_stale(lock),
{
}

/// Each lock is judged by itself: those that were left behind are listed, in order, and no other is.
pub proof fn locks_are_judged_one_by_one(
    first: Seq<LockState>,
    lock: LockState,
    second: Seq<LockState>,
)
    ensures
        ({
            let left_behind = lock.exists && ((lock.owner is Some && !lock.owner_running) || (
            lock.owner is None && lock.age is Some && lock.age->0 >= UNKNOWN_OWNER_STALE_AFTER));
            stale_paths(first.push(lock) + second) == stale_paths(first) + (if left_behind {
                seq![lock.path@]
            } else {
                Seq::empty()
            }) + stale_paths(second)
        }),
    decreases second.len(),
{
    let all = first.push(lock) + second;
    let own = if is_stale(lock) {
        seq![lock.path@]
    } else {
        Seq::empty()
    };
    if second.len() == 0 {
        assert(all =~= first.push(lock));
        assert(all.drop_last() =~= first);
        assert(all.last() == lock);
    } else {
        locks_are_judged_one_by_one(first, lock, second.drop_last());
        assert(all.drop_last() =~= first.push(lock) + second.drop_last());
        assert(all.last() == second.last());
    }
    assert(stale_paths(all) =~= stale_paths(first) + own + stale_paths(second));
}

} // verus!
