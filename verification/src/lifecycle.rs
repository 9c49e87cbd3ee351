//! The life of the process: first start, suspension before a restart and
//! resumption after it.
//!
//! A restart replaces the process and keeps only what was persisted, which is
//! the authorized set. The controller decides what each notification of the
//! host does to the registry and which state follows; writing the snapshot to
//! durable storage and reading it back is the host's part, whose outcome is
//! handed to the controller.

use crate::auth::strictly_increasing;
use crate::auth::AuthRegistry;
use crate::auth::AuthorizedSet;
use crate::principal::Principal;
use vstd::prelude::*;

verus! {

/// Where the process stands in its life.
#[derive(Debug, Clone, Copy, PartialEq, Eq, Structural)]
pub enum LifecycleState {
    /// Brought up for the first time and not yet started.
    Uninitialized,
    /// Serving requests.
    Running,
    /// Stopped for a restart, or brought up by one and not yet resumed.
    Suspended,
}

/// Why a restart could not go on.
#[derive(Debug, Clone, Copy, PartialEq, Eq, Structural)]
pub enum PersistenceError {
    /// The snapshot could not be written to durable storage.
    WriteFailed,
    /// No snapshot could be read back from durable storage.
    ReadFailed,
    /// The snapshot that was read back authorizes nobody.
    EmptySnapshot,
}

/// What [`LifecycleController::post_restart`] answers when the host has read
/// back `loaded`: a read failure is passed on, a snapshot without members is
/// refused, and any other snapshot is accepted.
pub open spec fn resume_outcome(loaded: Result<AuthorizedSet, PersistenceError>) -> Result<
    (),
    PersistenceError,
> {
    match loaded {
        Ok(snapshot) => if snapshot@.is_empty() {
            Err(PersistenceError::EmptySnapshot)
        } else {
            Ok(())
        },
        Err(error) => Err(error),
    }
}

/// Moves the registry through the life of the process.
#[derive(Debug)]
pub struct LifecycleController {
    state: LifecycleState,
}

impl View for LifecycleController {
    type V = LifecycleState;

    closed spec fn view(&self) -> LifecycleState {
        self.state
    }
}

impl LifecycleController {
    /// The controller of a process that has never run.
    pub fn new() -> (controller: LifecycleController)
        ensures
            controller@ == LifecycleState::Uninitialized,
    {
        LifecycleController { state: LifecycleState::Uninitialized }
    }

    /// The controller of a process that a restart has brought up and that has
    /// not read its snapshot back yet.
    pub fn resuming() -> (controller: LifecycleController)
        ensures
            controller@ == LifecycleState::Suspended,
    {
        LifecycleController { state: LifecycleState::Suspended }
    }

    /// The current state.
    pub fn state(&self) -> (state: LifecycleState)
        ensures
            state == self@,
    {
        self.state
    }

    /// First start: authorizes the caller that starts the process and begins
    /// to run.
    pub fn first_start(&mut self, registry: &mut AuthRegistry, current_caller: Principal)
        requires
            old(self)@ == LifecycleState::Uninitialized,
        ensures
            final(self)@ == LifecycleState::Running,
            final(registry)@ == old(registry)@.insert(current_caller@),
    {
        registry.initialize(current_caller);
        self.state = LifecycleState::Running;
    }

    /// Notification before a restart: hands out the snapshot that the host
    /// has to write to durable storage. The process keeps running until
    /// [`LifecycleController::suspend`] learns that the snapshot was written.
    pub fn pre_restart(&self, registry: &AuthRegistry) -> (snapshot: AuthorizedSet)
        requires
            self@ == LifecycleState::Running,
        ensures
            registry.captured_by(snapshot),
            snapshot@ == registry@,
            strictly_increasing(snapshot.ordered()),
    {
        registry.snapshot()
    }

    /// Takes the outcome of writing the snapshot. A written snapshot suspends
    /// the process; a failure is passed on and the process keeps running.
    pub fn suspend(&mut self, written: Result<(), PersistenceError>) -> (outcome: Result<
        (),
        PersistenceError,
    >)
        requires
            old(self)@ == LifecycleState::Running,
        ensures
            outcome == written,
            written is Ok ==> final(self)@ == LifecycleState::Suspended,
            written is Err ==> final(self)@ == LifecycleState::Running,
    {
        if written.is_ok() {
            self.state = LifecycleState::Suspended;
        }
        written
    }

    /// Notification after a restart: takes what the host read back from
    /// durable storage. A snapshot with members replaces the registry's
    /// membership and the process runs again. Without one the error is
    /// returned, and the process stays suspended with its registry untouched.
    pub fn post_restart(
        &mut self,
        registry: &mut AuthRegistry,
        loaded: Result<AuthorizedSet, PersistenceError>,
    ) -> (outcome: Result<(), PersistenceError>)
        requires
            old(self)@ == LifecycleState::Suspended,
        ensures
            outcome == resume_outcome(loaded),
            outcome is Ok ==> final(self)@ == LifecycleState::Running,
            outcome is Ok ==> final(registry).captured_by(loaded->Ok_0),
            outcome is Ok ==> final(registry)@ == loaded->Ok_0@,
            outcome is Err ==> final(self)@ == LifecycleState::Suspended,
            outcome is Err ==> *final(registry) == *old(registry),
    {
        match loaded {
            Ok(snapshot) => {
                if snapshot.is_empty() {
                    Err(PersistenceError::EmptySnapshot)
                } else {
                    registry.restore(snapshot);
                    self.state = LifecycleState::Running;
                    Ok(())
                }
            },
            Err(error) => Err(error),
        }
    }
}

} // verus!
