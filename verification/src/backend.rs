//! The operations that a host exposes to callers.
//!
//! A [`Backend`] is the whole state of one process: the registry of
//! authorized principals, the blob store and the lifecycle controller. Every
//! mutating request passes the registry's check before it reaches the store;
//! reads pass no check. Of this state only the authorized set survives a
//! restart: a process that a restart brings up begins with an empty store.

use crate::auth::after_grant;
use crate::auth::authorize_outcome;
use crate::auth::strictly_increasing;
use crate::auth::AuthError;
use crate::auth::AuthRegistry;
use crate::auth::AuthorizedSet;
use crate::lifecycle::resume_outcome;
use crate::lifecycle::LifecycleController;
use crate::lifecycle::LifecycleState;
use crate::lifecycle::PersistenceError;
use crate::principal::Principal;
use crate::store::lookup;
use crate::store::BlobStore;
use crate::store::StoreError;
use vstd::prelude::*;

verus! {

/// The blobs after `caller` has asked to store `contents` under `path`: the
/// entry is written if `caller` is authorized, and nothing changes otherwise.
pub open spec fn after_store(
    members: Set<Seq<u8>>,
    caller: Seq<u8>,
    blobs: Map<Seq<char>, Seq<u8>>,
    path: Seq<char>,
    contents: Seq<u8>,
) -> Map<Seq<char>, Seq<u8>> {
    if members.contains(caller) {
        blobs.insert(path, contents)
    } else {
        blobs
    }
}

/// The state of one process.
pub struct Backend {
    lifecycle: LifecycleController,
    registry: AuthRegistry,
    blobs: BlobStore,
}

impl Backend {
    /// Where the process stands in its life.
    pub closed spec fn state(&self) -> LifecycleState {
        self.lifecycle@
    }

    /// The principals that may perform mutating operations.
    pub closed spec fn authorized(&self) -> Set<Seq<u8>> {
        self.registry@
    }

    /// The authorized principals in the order in which they are persisted.
    pub closed spec fn persisted_order(&self) -> Seq<Seq<u8>> {
        self.registry.ordered()
    }

    /// The stored blobs by path.
    pub closed spec fn blobs(&self) -> Map<Seq<char>, Seq<u8>> {
        self.blobs@
    }

    /// A running process has at least one authorized principal. This holds of
    /// every state that the operations below reach from [`Backend::new`] or
    /// [`Backend::resuming`].
    pub open spec fn well_formed(&self) -> bool {
        self.state() == LifecycleState::Running ==> !self.authorized().is_empty()
    }

    /// The state of a process that has never run: nobody is authorized and
    /// nothing is stored.
    pub fn new() -> (backend: Backend)
        ensures
            backend.state() == LifecycleState::Uninitialized,
            backend.well_formed(),
            backend.authorized() == Set::<Seq<u8>>::empty(),
            backend.persisted_order() == Seq::<Seq<u8>>::empty(),
            backend.blobs() == Map::<Seq<char>, Seq<u8>>::empty(),
    {
        Backend {
            lifecycle: LifecycleController::new(),
            registry: AuthRegistry::new(),
            blobs: BlobStore::new(),
        }
    }

    /// The state of a process that a restart has brought up: suspended until
    /// [`Backend::post_upgrade`] restores the authorized set, and with nothing
    /// stored.
    pub fn resuming() -> (backend: Backend)
        ensures
            backend.state() == LifecycleState::Suspended,
            backend.well_formed(),
            backend.authorized() == Set::<Seq<u8>>::empty(),
            backend.blobs() == Map::<Seq<char>, Seq<u8>>::empty(),
    {
        Backend {
            lifecycle: LifecycleController::resuming(),
            registry: AuthRegistry::new(),
            blobs: BlobStore::new(),
        }
    }

    /// Where the process stands in its life.
    pub fn lifecycle_state(&self) -> (state: LifecycleState)
        ensures
            state == self.state(),
    {
        self.lifecycle.state()
    }

    /// First start: authorizes `caller`, who starts the process, and begins
    /// to run.
    pub fn init(&mut self, caller: Principal)
        requires
            old(self).state() == LifecycleState::Uninitialized,
        ensures
            final(self).state() == LifecycleState::Running,
            final(self).authorized() == old(self).authorized().insert(caller@),
            final(self).blobs() == old(self).blobs(),
            final(self).well_formed(),
    {
        self.lifecycle.first_start(&mut self.registry, caller);
        assert(self.registry@.contains(caller@));
    }

    /// Succeeds if and only if `caller` may perform mutating operations.
    pub fn is_user(&self, caller: &Principal) -> (outcome: Result<(), AuthError>)
        ensures
            outcome == authorize_outcome(self.authorized(), caller@),
    {
        self.registry.authorize(caller)
    }

    /// Stores `contents` under `path` on behalf of `caller`, replacing what
    /// was there. An unauthorized caller is refused and nothing changes.
    pub fn store(&mut self, caller: &Principal, path: String, contents: Vec<u8>) -> (outcome:
        Result<(), AuthError>)
        ensures
            outcome == authorize_outcome(old(self).authorized(), caller@),
            final(self).blobs() == after_store(
                old(self).authorized(),
                caller@,
                old(self).blobs(),
                path@,
                contents@,
            ),
            final(self).persisted_order() == old(self).persisted_order(),
            final(self).authorized() == old(self).authorized(),
            final(self).state() == old(self).state(),
            old(self).well_formed() ==> final(self).well_formed(),
    {
        match self.registry.authorize(caller) {
            Ok(()) => {
                self.blobs.put(path, contents);
                Ok(())
            },
            Err(refusal) => Err(refusal),
        }
    }

    /// A copy of the blob stored under `path`, or [`StoreError::NotFound`] if
    /// there is none. Anyone may read.
    pub fn retrieve(&self, path: &str) -> (outcome: Result<Vec<u8>, StoreError>)
        ensures
            match outcome {
                Ok(blob) => lookup(self.blobs(), path@) == Ok::<Seq<u8>, StoreError>(blob@),
                Err(error) => lookup(self.blobs(), path@) == Err::<Seq<u8>, StoreError>(error),
            },
    {
        self.blobs.get(path)
    }

    /// Authorizes `principal` on behalf of `caller`. An unauthorized caller is
    /// refused and nothing changes; authorizing a principal again changes
    /// nothing and is no error.
    pub fn add_user(&mut self, caller: &Principal, principal: Principal) -> (outcome: Result<
        (),
        AuthError,
    >)
        ensures
            outcome == authorize_outcome(old(self).authorized(), caller@),
            final(self).authorized() == after_grant(old(self).authorized(), caller@, principal@),
            outcome is Err ==> final(self).persisted_order() == old(self).persisted_order(),
            old(self).authorized().contains(principal@) ==> final(self).persisted_order() == old(
                self,
            ).persisted_order(),
            final(self).blobs() == old(self).blobs(),
            final(self).state() == old(self).state(),
            old(self).well_formed() ==> final(self).well_formed(),
    {
        let outcome = self.registry.grant(caller, principal);
        assert(old(self).registry@.contains(caller@) ==> self.registry@.contains(principal@));
        outcome
    }

    /// Notification before a restart: hands out the snapshot of the
    /// authorized set that the host has to write to durable storage.
    pub fn pre_upgrade(&self) -> (snapshot: AuthorizedSet)
        requires
            self.state() == LifecycleState::Running,
        ensures
            snapshot.ordered() == self.persisted_order(),
            snapshot@ == self.authorized(),
            strictly_increasing(snapshot.ordered()),
            self.well_formed() ==> !snapshot@.is_empty(),
    {
        self.lifecycle.pre_restart(&self.registry)
    }

    /// Takes the outcome of writing the snapshot. A written snapshot suspends
    /// the process; a failure is passed on and the process keeps running.
    pub fn suspend(&mut self, written: Result<(), PersistenceError>) -> (outcome: Result<
        (),
        PersistenceError,
    >)
        requires
            old(self).state() == LifecycleState::Running,
        ensures
            outcome == written,
            written is Ok ==> final(self).state() == LifecycleState::Suspended,
            written is Err ==> final(self).state() == LifecycleState::Running,
            final(self).persisted_order() == old(self).persisted_order(),
            final(self).authorized() == old(self).authorized(),
            final(self).blobs() == old(self).blobs(),
            old(self).well_formed() ==> final(self).well_formed(),
    {
        self.lifecycle.suspend(written)
    }

    /// Notification after a restart: takes what the host read back from
    /// durable storage. A snapshot with members becomes the authorized set
    /// and the process runs again. Without one the error is returned and
    /// nothing changes.
    pub fn post_upgrade(&mut self, loaded: Result<AuthorizedSet, PersistenceError>) -> (outcome:
        Result<(), PersistenceError>)
        requires
            old(self).state() == LifecycleState::Suspended,
        ensures
            outcome == resume_outcome(loaded),
            outcome is Ok ==> final(self).state() == LifecycleState::Running,
            outcome is Ok ==> final(self).persisted_order() == loaded->Ok_0.ordered(),
            outcome is Ok ==> final(self).authorized() == loaded->Ok_0@,
            outcome is Err ==> final(self).state() == LifecycleState::Suspended,
            outcome is Err ==> final(self).persisted_order() == old(self).persisted_order(),
            outcome is Err ==> final(self).authorized() == old(self).authorized(),
            final(self).blobs() == old(self).blobs(),
            final(self).well_formed(),
    {
        self.lifecycle.post_restart(&mut self.registry, loaded)
    }
}

} // verus!
