//! Giving sessions back the provider that an older build had lent them away from.
use crate::text::{cat2, decimal_text, digits, str_eq, trim, trimmed};
use vstd::prelude::*;
use vstd::string::*;

verus! {

pub const CODEY_PROVIDER_ID: &'static str = "codey_local";

pub const LEGACY_LEASE_VERSION: u32 = 1;

/// What was repaired.
#[derive(Debug, Clone, Copy, PartialEq, Eq, Structural)]
pub struct ProviderRepairReport {
    pub databases: usize,
    pub restored_threads: usize,
}

impl Default for ProviderRepairReport {
    fn default() -> (r: ProviderRepairReport)
        ensures
            r.databases == 0,
            r.restored_threads == 0,
    {
        ProviderRepairReport { databases: 0, restored_threads: 0 }
    }
}

/// The provider that a session had.
#[derive(Debug, Clone)]
pub struct LegacyThreadProvider {
    pub id: String,
    pub provider: String,
}

/// The sessions of a database, with the providers that they had.
#[derive(Debug, Clone)]
pub struct LegacyDatabaseLease {
    pub path: String,
    pub threads: Vec<LegacyThreadProvider>,
}

/// What an older build wrote down before it lent sessions to its own provider.
#[derive(Debug, Clone)]
pub struct LegacyProviderLeaseState {
    pub version: u32,
    pub fallback_provider: String,
    pub databases: Vec<LegacyDatabaseLease>,
}

/// The provider that a session goes back to. Our own provider is none.
pub open spec fn provider_of(provider: Seq<char>) -> Seq<char> {
    if trim(provider).len() == 0 || trim(provider) == "codey_local"@ {
        "openai"@
    } else {
        trim(provider)
    }
}

/// The provider that a session goes back to. Our own provider is none.
pub fn normalized_provider(provider: &str) -> (r: String)
    ensures
        r@ == provider_of(provider@),
{
    let provider = trimmed(provider);
    if provider.as_str().is_empty() || str_eq(provider.as_str(), CODEY_PROVIDER_ID) {
        "openai".to_owned()
    } else {
        provider
    }
}

/// A change to the sessions of a database.
#[derive(Debug, Clone)]
pub enum ProviderUpdate {
    /// Every session with the first provider gets the second.
    Provider(String, String),
    /// One session gets a provider.
    Thread(String, String),
}

#[verifier::ext_equal]
pub enum UpdateV {
    Provider(Seq<char>, Seq<char>),
    Thread(Seq<char>, Seq<char>),
}

impl View for ProviderUpdate {
    type V = UpdateV;

    open spec fn view(&self) -> UpdateV {
        match self {
            ProviderUpdate::Provider(a, b) => UpdateV::Provider(a@, b@),
            ProviderUpdate::Thread(a, b) => UpdateV::Thread(a@, b@),
        }
    }
}

/// The changes to one database, in order.
#[derive(Debug, Clone)]
pub struct DatabaseRestore {
    pub path: String,
    pub updates: Vec<ProviderUpdate>,
}

impl View for DatabaseRestore {
    type V = (Seq<char>, Seq<UpdateV>);

    open spec fn view(&self) -> (Seq<char>, Seq<UpdateV>) {
        (self.path@, Seq::new(self.updates@.len(), |i: int| self.updates@[i]@))
    }
}

/// The changes to one database: whatever has our provider gets the fallback, and then each session
/// that is written down gets its own back.
pub open spec fn restore_of(fallback: Seq<char>, lease: LegacyDatabaseLease) -> (
    Seq<char>,
    Seq<UpdateV>,
) {
    (
        lease.path@,
        seq![UpdateV::Provider("codey_local"@, provider_of(fallback))] + Seq::new(
            lease.threads@.len(),
            |i: int| UpdateV::Thread(lease.threads@[i].id@, lease.threads@[i].provider@),
        ),
    )
}

fn restore_database(fallback: &str, lease: &LegacyDatabaseLease) -> (r: DatabaseRestore)
    ensures
        r@ == restore_of(fallback@, *lease),
{
    let mut updates: Vec<ProviderUpdate> = Vec::new();
    updates.push(
        ProviderUpdate::Provider(CODEY_PROVIDER_ID.to_owned(), normalized_provider(fallback)),
    );
    let mut i: usize = 0;
    while i < lease.threads.len()
        invariant
            i <= lease.threads.len(),
            updates.len() == i + 1,
            updates@[0]@ == UpdateV::Provider("codey_local"@, provider_of(fallback@)),
            forall|j: int|
                0 <= j < i ==> (#[trigger] updates@[j + 1])@ == UpdateV::Thread(
                    lease.threads@[j].id@,
                    lease.threads@[j].provider@,
                ),
        decreases lease.threads.len() - i,
    {
        let thread = &lease.threads[i];
        let ghost before = updates@;
        updates.push(ProviderUpdate::Thread(thread.id.clone(), thread.provider.clone()));
        proof {
            assert forall|j: int| 0 <= j < i + 1 implies (#[trigger] updates@[j + 1])@
                == UpdateV::Thread(lease.threads@[j].id@, lease.threads@[j].provider@) by {
                if j < i {
                    assert(updates@[j + 1] == before[j + 1]);
                }
            }
        }
        i = i + 1;
    }
    let r = DatabaseRestore { path: lease.path.clone(), updates };
    proof {
        let goal = restore_of(fallback@, *lease).1;
        assert(r@.1.len() == goal.len());
        assert forall|k: int| 0 <= k < goal.len() implies r@.1[k] == goal[k] by {
            if k > 0 {
                assert(updates@[(k - 1) + 1]@ == goal[k]);
            }
        }
        assert(r@.1 =~= goal);
    }
    r
}

pub open spec fn restore_list(v: Seq<DatabaseRestore>) -> Seq<(Seq<char>, Seq<UpdateV>)> {
    Seq::new(v.len(), |i: int| v[i]@)
}

/// What has to be done to undo what an older build wrote down.
pub open spec fn restores(state: LegacyProviderLeaseState) -> Result<
    Seq<(Seq<char>, Seq<UpdateV>)>,
    Seq<char>,
> {
    if state.version != 1 {
        Err("不支持的会话 provider 租约版本："@ + digits(state.version as nat))
    } else {
        Ok(
            Seq::new(
                state.databases@.len(),
                |i: int| restore_of(state.fallback_provider@, state.databases@[i]),
            ),
        )
    }
}

/// What has to be done to undo what an older build wrote down; nothing where it left nothing.
pub fn restore_legacy(state: &Option<LegacyProviderLeaseState>) -> (r: Result<
    Vec<DatabaseRestore>,
    String,
>)
    ensures
        match state {
            None => r matches Ok(v) && v.len() == 0,
            Some(lease) => match r {
                Ok(v) => restores(*lease) == Ok::<Seq<(Seq<char>, Seq<UpdateV>)>, Seq<char>>(
                    restore_list(v@),
                ),
                Err(e) => restores(*lease) == Err::<Seq<(Seq<char>, Seq<UpdateV>)>, Seq<char>>(e@),
            },
        },
{
    let mut out: Vec<DatabaseRestore> = Vec::new();
    let lease = match state {
        None => {
            return Ok(out);
        },
        Some(lease) => lease,
    };
    if lease.version != LEGACY_LEASE_VERSION {
        return Err(
            cat2(
                "不支持的会话 provider 租约版本：",
                decimal_text(lease.version as u64).as_str(),
            ),
        );
    }
    let mut i: usize = 0;
    while i < lease.databases.len()
        invariant
            i <= lease.databases.len(),
            out.len() == i,
            forall|j: int|
                0 <= j < i ==> (#[trigger] out@[j])@ == restore_of(
                    lease.fallback_provider@,
                    lease.databases@[j],
                ),
        decreases lease.databases.len() - i,
    {
        out.push(restore_database(lease.fallback_provider.as_str(), &lease.databases[i]));
        i = i + 1;
    }
    proof {
        assert(restore_list(out@) =~= Seq::new(
            lease.databases@.len(),
            |i: int| restore_of(lease.fallback_provider@, lease.databases@[i]),
        ));
    }
    Ok(out)
}

impl ProviderRepairReport {
    /// Counts a database that was repaired, and the sessions in it that had our provider.
    pub fn add_database(&mut self, restored: usize)
        requires
            old(self).databases < usize::MAX,
            old(self).restored_threads + restored <= usize::MAX,
        ensures
            final(self).databases == old(self).databases + 1,
            final(self).restored_threads == old(self).restored_threads + restored,
    {
        self.databases = self.databases + 1;
        self.restored_threads = self.restored_threads + restored;
    }
}

/// A session never goes back to our own provider.
pub proof fn our_provider_is_never_restored(provider: Seq<char>)
    ensures
        provider_of(provider) != "codey_local"@,
        provider_of(provider).len() > 0,
{
    reveal_strlit("codey_local");
    reveal_strlit("openai");
    assert("codey_local"@.len() == 11);
    assert("openai"@.len() == 6);
}

/// The sessions of a database, each with its provider, after one change.
pub open spec fn updated(sessions: Map<Seq<char>, Seq<char>>, update: UpdateV) -> Map<
    Seq<char>,
    Seq<char>,
> {
    match update {
        UpdateV::Provider(from, to) => sessions.map_values(
            |provider: Seq<char>|
                if provider == from {
                    to
                } else {
                    provider
                },
        ),
        UpdateV::Thread(id, provider) => if sessions.dom().contains(id) {
            sessions.insert(id, provider)
        } else {
            sessions
        },
    }
}

/// The sessions of a database after the first changes.
pub open spec fn updated_by(
    sessions: Map<Seq<char>, Seq<char>>,
    updates: Seq<UpdateV>,
    n: int,
) -> Map<Seq<char>, Seq<char>>
    decreases n,
{
    if n <= 0 {
        sessions
    } else {
        updated(updated_by(sessions, updates, n - 1), updates[n - 1])
    }
}

/// The provider that is written down for a session: the last of several.
pub open spec fn written_down(lease: LegacyDatabaseLease, id: Seq<char>, n: int) -> Option<
    Seq<char>,
>
    decreases n,
{
    if n <= 0 {
        None
    } else if lease.threads@[n - 1].id@ == id {
        Some(lease.threads@[n - 1].provider@)
    } else {
        written_down(lease, id, n - 1)
    }
}

/// The provider that a session has after a database was restored: the one that is written down for
/// it; else the fallback, where it had ours; else its own.
pub open spec fn restored_provider(
    sessions: Map<Seq<char>, Seq<char>>,
    fallback: Seq<char>,
    lease: LegacyDatabaseLease,
    id: Seq<char>,
) -> Seq<char> {
    match written_down(lease, id, lease.threads@.len() as int) {
        Some(provider) => provider,
        None => if sessions[id] == "codey_local"@ {
            provider_of(fallback)
        } else {
            sessions[id]
        },
    }
}

proof fn lemma_restored_so_far(
    sessions: Map<Seq<char>, Seq<char>>,
    fallback: Seq<char>,
    lease: LegacyDatabaseLease,
    n: int,
)
    requires
        0 <= n <= lease.threads@.len(),
    ensures
        ({
            let after = updated_by(sessions, restore_of(fallback, lease).1, n + 1);
            &&& after.dom() == sessions.dom()
            &&& forall|id: Seq<char>| #[trigger]
                after.dom().contains(id) ==> after[id] == match written_down(lease, id, n) {
                    Some(provider) => provider,
                    None => if sessions[id] == "codey_local"@ {
                        provider_of(fallback)
                    } else {
                        sessions[id]
                    },
                }
        }),
    decreases n,
{
    let updates = restore_of(fallback, lease).1;
    if n > 0 {
        lemma_restored_so_far(sessions, fallback, lease, n - 1);
        assert(updates[n] == UpdateV::Thread(
            lease.threads@[n - 1].id@,
            lease.threads@[n - 1].provider@,
        ));
        let before = updated_by(sessions, updates, n);
        let after = updated_by(sessions, updates, n + 1);
        assert(after.dom() =~= before.dom());
    } else {
        assert(updated_by(sessions, updates, 0) == sessions);
        let after = updated_by(sessions, updates, 1);
        assert(after == updated(sessions, updates[0]));
        assert(after.dom() =~= sessions.dom());
    }
}

/// Restoring a database gives every session the provider that it had, or the fallback in place of
/// ours; no session comes or goes.
pub proof fn every_session_gets_its_provider(
    sessions: Map<Seq<char>, Seq<char>>,
    fallback: Seq<char>,
    lease: LegacyDatabaseLease,
)
    ensures
        ({
            let updates = restore_of(fallback, lease).1;
            let after = updated_by(sessions, updates, updates.len() as int);
            &&& after.dom() == sessions.dom()
            &&& forall|id: Seq<char>| #[trigger]
                after.dom().contains(id) ==> after[id] == restored_provider(
                    sessions,
                    fallback,
                    lease,
                    id,
                )
        }),
{
    lemma_restored_so_far(sessions, fallback, lease, lease.threads@.len() as int);
}

/// The fallback is never our own provider.
pub proof fn the_fallback_is_not_ours(fallback: Seq<char>)
    ensures
        provider_of(fallback) != "codey_local"@,
        provider_of(fallback).len() > 0,
{
    reveal_strlit("openai");
    reveal_strlit("codey_local");
    assert("openai"@.len() == 6);
    assert("codey_local"@.len() == 11);
}

/// Restoring a database a second time changes nothing.
pub proof fn a_second_restore_changes_nothing(
    sessions: Map<Seq<char>, Seq<char>>,
    fallback: Seq<char>,
    lease: LegacyDatabaseLease,
)
    ensures
        ({
            let updates = restore_of(fallback, lease).1;
            let once = updated_by(sessions, updates, updates.len() as int);
            updated_by(once, updates, updates.len() as int) == once
        }),
{
    let updates = restore_of(fallback, lease).1;
    let once = updated_by(sessions, updates, updates.len() as int);
    let twice = updated_by(once, updates, updates.len() as int);
    every_session_gets_its_provider(sessions, fallback, lease);
    every_session_gets_its_provider(once, fallback, lease);
    the_fallback_is_not_ours(fallback);
    assert forall|id: Seq<char>| twice.dom().contains(id) implies #[trigger] twice[id]
        == once[id] by {
        assert(once.dom().contains(id));
    }
    assert(twice =~= once);
}

} // verus!
