//! The registry of principals that may change the store.
//!
//! [`AuthorizedSet`] is a set of principals kept in the order of
//! [`precedes`], so that two sets with the same members are written out as
//! the same sequence. [`AuthRegistry`] owns one such set and decides, for a
//! caller, whether a mutating operation may proceed. Membership only grows:
//! there is no way to take a principal out.

use crate::principal::lemma_precedes_asymmetric;
use crate::principal::lemma_precedes_irreflexive;
use crate::principal::lemma_precedes_total;
use crate::principal::lemma_precedes_transitive;
use crate::principal::precedes;
use crate::principal::Principal;
use vstd::prelude::*;

verus! {

/// The byte strings of a sequence of principals, in the same order.
pub open spec fn views_of(principals: Seq<Principal>) -> Seq<Seq<u8>> {
    principals.map_values(|p: Principal| p@)
}

/// Every element comes strictly before all that follow it.
pub open spec fn strictly_increasing(s: Seq<Seq<u8>>) -> bool {
    forall|i: int, j: int| 0 <= i < j < s.len() ==> precedes(#[trigger] s[i], #[trigger] s[j])
}

/// A strictly increasing sequence holds no element twice.
pub proof fn lemma_increasing_no_duplicates(s: Seq<Seq<u8>>)
    requires
        strictly_increasing(s),
    ensures
        s.no_duplicates(),
{
    assert forall|i: int, j: int| 0 <= i < s.len() && 0 <= j < s.len() && i != j implies s[i]
        != s[j] by {
        lemma_precedes_irreflexive(s[i]);
        if i < j {
            assert(precedes(s[i], s[j]));
        } else {
            assert(precedes(s[j], s[i]));
        }
    }
}

/// Putting `x` between the elements that come before it and those that come
/// after it keeps a sequence strictly increasing and adds `x` to its elements.
pub proof fn lemma_insert_in_order(s: Seq<Seq<u8>>, at: int, x: Seq<u8>)
    requires
        strictly_increasing(s),
        0 <= at <= s.len(),
        forall|i: int| 0 <= i < at ==> precedes(#[trigger] s[i], x),
        forall|i: int| at <= i < s.len() ==> precedes(x, #[trigger] s[i]),
    ensures
        strictly_increasing(s.insert(at, x)),
        s.insert(at, x).to_set() == s.to_set().insert(x),
{
    let t = s.insert(at, x);
    assert forall|i: int, j: int| 0 <= i < j < t.len() implies precedes(
        #[trigger] t[i],
        #[trigger] t[j],
    ) by {
        if j < at {
            assert(t[i] == s[i] && t[j] == s[j]);
        } else if j == at {
            assert(t[i] == s[i]);
        } else if i < at {
            assert(t[i] == s[i] && t[j] == s[j - 1]);
            if i < j - 1 {
            } else {
                lemma_precedes_transitive(s[i], x, s[j - 1]);
            }
        } else if i == at {
            assert(t[j] == s[j - 1]);
        } else {
            assert(t[i] == s[i - 1] && t[j] == s[j - 1]);
        }
    }
    assert forall|v: Seq<u8>| t.to_set().contains(v) <==> s.to_set().insert(x).contains(v) by {
        if t.contains(v) {
            let k = choose|k: int| 0 <= k < t.len() && t[k] == v;
            if k < at {
                assert(s[k] == v);
            } else if k > at {
                assert(s[k - 1] == v);
            }
        }
        if s.contains(v) {
            let k = choose|k: int| 0 <= k < s.len() && s[k] == v;
            if k < at {
                assert(t[k] == v);
            } else {
                assert(t[k + 1] == v);
            }
        }
        if v == x {
            assert(t[at] == v);
        }
    }
    assert(t.to_set() =~= s.to_set().insert(x));
}

/// The principals that may perform mutating operations.
///
/// The members are kept strictly increasing in the order of principals, which
/// fixes the sequence in which the set is written out.
#[derive(Debug)]
pub struct AuthorizedSet {
    members: Vec<Principal>,
}

impl View for AuthorizedSet {
    type V = Set<Seq<u8>>;

    open spec fn view(&self) -> Set<Seq<u8>> {
        self.ordered().to_set()
    }
}

impl AuthorizedSet {
    /// The members in the order in which they are persisted.
    pub closed spec fn ordered(&self) -> Seq<Seq<u8>> {
        views_of(self.members@)
    }

    #[verifier::type_invariant]
    spec fn well_ordered(&self) -> bool {
        strictly_increasing(self.ordered())
    }

    /// The set without members.
    pub fn new() -> (set: AuthorizedSet)
        ensures
            set@ == Set::<Seq<u8>>::empty(),
            set.ordered() == Seq::<Seq<u8>>::empty(),
            strictly_increasing(set.ordered()),
    {
        let set = AuthorizedSet { members: Vec::new() };
        assert(set.ordered() =~= Seq::<Seq<u8>>::empty());
        assert(set@ =~= Set::<Seq<u8>>::empty());
        set
    }

    /// The number of members.
    pub fn len(&self) -> (n: usize)
        ensures
            n == self@.len(),
            n == self.ordered().len(),
    {
        proof {
            use_type_invariant(self);
            lemma_increasing_no_duplicates(self.ordered());
            self.ordered().unique_seq_to_set();
        }
        self.members.len()
    }

    /// Whether the set has no member.
    pub fn is_empty(&self) -> (empty: bool)
        ensures
            empty == self@.is_empty(),
    {
        proof {
            if self.ordered().len() > 0 {
                assert(self@.contains(self.ordered()[0]));
            } else {
                assert(self@ =~= Set::<Seq<u8>>::empty());
            }
        }
        self.members.len() == 0
    }

    /// The index of the first member that does not come before `principal`.
    fn lower_bound(&self, principal: &Principal) -> (at: usize)
        ensures
            at <= self.ordered().len(),
            forall|i: int| 0 <= i < at ==> precedes(#[trigger] self.ordered()[i], principal@),
            forall|i: int|
                at <= i < self.ordered().len() ==> !precedes(
                    #[trigger] self.ordered()[i],
                    principal@,
                ),
    {
        proof {
            use_type_invariant(self);
        }
        let mut lo: usize = 0;
        let mut hi: usize = self.members.len();
        while lo < hi
            invariant
                lo <= hi <= self.members.len(),
                strictly_increasing(self.ordered()),
                forall|i: int| 0 <= i < lo ==> precedes(#[trigger] self.ordered()[i], principal@),
                forall|i: int|
                    hi <= i < self.ordered().len() ==> !precedes(
                        #[trigger] self.ordered()[i],
                        principal@,
                    ),
            decreases hi - lo,
        {
            let mid: usize = lo + (hi - lo) / 2;
            let ghost pivot = self.ordered()[mid as int];
            if self.members[mid].comes_before(principal) {
                proof {
                    assert forall|i: int| 0 <= i < mid + 1 implies precedes(
                        #[trigger] self.ordered()[i],
                        principal@,
                    ) by {
                        if i < mid {
                            lemma_precedes_transitive(self.ordered()[i], pivot, principal@);
                        }
                    }
                }
                lo = mid + 1;
            } else {
                proof {
                    assert forall|i: int| mid <= i < self.ordered().len() implies !precedes(
                        #[trigger] self.ordered()[i],
                        principal@,
                    ) by {
                        if mid < i && precedes(self.ordered()[i], principal@) {
                            lemma_precedes_transitive(pivot, self.ordered()[i], principal@);
                        }
                    }
                }
                hi = mid;
            }
        }
        lo
    }

    /// Whether `principal` is a member.
    pub fn contains(&self, principal: &Principal) -> (found: bool)
        ensures
            found == self@.contains(principal@),
    {
        proof {
            use_type_invariant(self);
        }
        let at = self.lower_bound(principal);
        let found = at < self.members.len() && self.members[at].same_as(principal);
        proof {
            let s = self.ordered();
            if found {
                assert(s[at as int] == principal@);
            } else {
                assert forall|i: int| 0 <= i < s.len() implies s[i] != principal@ by {
                    lemma_precedes_irreflexive(principal@);
                    if i > at {
                        assert(precedes(s[at as int], s[i]));
                    }
                }
            }
        }
        found
    }

    /// Adds `principal` to the set and says whether it was new. Adding a
    /// member again changes nothing.
    pub fn insert(&mut self, principal: Principal) -> (added: bool)
        ensures
            final(self)@ == old(self)@.insert(principal@),
            added == !old(self)@.contains(principal@),
            !added ==> final(self).ordered() == old(self).ordered(),
            strictly_increasing(final(self).ordered()),
    {
        proof {
            use_type_invariant(&*self);
        }
        let at = self.lower_bound(&principal);
        if at < self.members.len() && self.members[at].same_as(&principal) {
            proof {
                assert(self.ordered()[at as int] == principal@);
                assert(self@.insert(principal@) =~= self@);
            }
            return false;
        }
        let ghost s = self.ordered();
        proof {
            lemma_precedes_irreflexive(principal@);
            assert forall|i: int| 0 <= i < s.len() implies s[i] != principal@ by {
                if i > at {
                    assert(precedes(s[at as int], s[i]));
                }
            }
            assert forall|i: int| at <= i < s.len() implies precedes(principal@, #[trigger] s[i]) by {
                lemma_precedes_total(s[i], principal@);
            }
            lemma_insert_in_order(s, at as int, principal@);
            assert(views_of(self.members@.insert(at as int, principal)) =~= s.insert(
                at as int,
                principal@,
            ));
        }
        let mut members: Vec<Principal> = Vec::new();
        std::mem::swap(&mut members, &mut self.members);
        members.insert(at, principal);
        self.members = members;
        true
    }

    /// The members as a sequence, in the order in which they are persisted.
    pub fn to_vec(&self) -> (principals: Vec<Principal>)
        ensures
            views_of(principals@) == self.ordered(),
            strictly_increasing(self.ordered()),
    {
        proof {
            use_type_invariant(self);
        }
        let mut principals: Vec<Principal> = Vec::new();
        let mut i: usize = 0;
        while i < self.members.len()
            invariant
                i <= self.members.len(),
                views_of(principals@) == self.ordered().take(i as int),
            decreases self.members.len() - i,
        {
            let member = self.members[i].clone();
            let ghost copied = principals@;
            principals.push(member);
            assert(views_of(principals@) =~= views_of(copied).push(member@));
            i += 1;
            assert(views_of(copied).push(member@) =~= self.ordered().take(i as int));
        }
        assert(self.ordered().take(i as int) =~= self.ordered());
        principals
    }

    /// The set of the given principals, in whatever order and however often
    /// each of them is listed.
    pub fn from_vec(principals: Vec<Principal>) -> (set: AuthorizedSet)
        ensures
            set@ == views_of(principals@).to_set(),
            strictly_increasing(set.ordered()),
    {
        let ghost listed = views_of(principals@);
        let mut set = AuthorizedSet::new();
        let mut i: usize = 0;
        while i < principals.len()
            invariant
                i <= principals.len(),
                listed == views_of(principals@),
                set@ == listed.take(i as int).to_set(),
                strictly_increasing(set.ordered()),
            decreases principals.len() - i,
        {
            set.insert(principals[i].clone());
            proof {
                assert(listed.take(i + 1) =~= listed.take(i as int).push(listed[i as int]));
                listed.take(i as int).lemma_push_to_set_commute(listed[i as int]);
            }
            i += 1;
        }
        assert(listed.take(i as int) =~= listed);
        set
    }
}

impl Clone for AuthorizedSet {
    fn clone(&self) -> (copy: Self)
        ensures
            copy.ordered() == self.ordered(),
            copy@ == self@,
            strictly_increasing(copy.ordered()),
    {
        AuthorizedSet { members: self.to_vec() }
    }
}

/// Why a mutating operation was refused.
#[derive(Debug, Clone, Copy, PartialEq, Eq)]
pub enum AuthError {
    /// The caller is not a member of the authorized set.
    NotAuthorized,
}

/// What [`AuthRegistry::authorize`] answers for `caller` when the authorized
/// principals are `members`.
pub open spec fn authorize_outcome(members: Set<Seq<u8>>, caller: Seq<u8>) -> Result<
    (),
    AuthError,
> {
    if members.contains(caller) {
        Ok(())
    } else {
        Err(AuthError::NotAuthorized)
    }
}

/// The authorized principals after `caller` has asked to grant access to
/// `target`: `target` joins if `caller` is a member, and nothing changes
/// otherwise.
pub open spec fn after_grant(members: Set<Seq<u8>>, caller: Seq<u8>, target: Seq<u8>) -> Set<
    Seq<u8>,
> {
    if members.contains(caller) {
        members.insert(target)
    } else {
        members
    }
}

/// Decides who may perform mutating operations.
#[derive(Debug)]
pub struct AuthRegistry {
    authorized: AuthorizedSet,
}

impl View for AuthRegistry {
    type V = Set<Seq<u8>>;

    open spec fn view(&self) -> Set<Seq<u8>> {
        self.ordered().to_set()
    }
}

impl AuthRegistry {
    /// The authorized principals in the order in which they are persisted.
    pub closed spec fn ordered(&self) -> Seq<Seq<u8>> {
        self.authorized.ordered()
    }

    /// `snapshot` holds exactly the membership of this registry.
    pub open spec fn captured_by(&self, snapshot: AuthorizedSet) -> bool {
        snapshot.ordered() == self.ordered()
    }

    /// A registry in which nobody is authorized yet.
    pub fn new() -> (registry: AuthRegistry)
        ensures
            registry@ == Set::<Seq<u8>>::empty(),
            registry.ordered() == Seq::<Seq<u8>>::empty(),
    {
        AuthRegistry { authorized: AuthorizedSet::new() }
    }

    /// Authorizes the caller that starts the process for the first time.
    pub fn initialize(&mut self, initiating_caller: Principal)
        ensures
            final(self)@ == old(self)@.insert(initiating_caller@),
    {
        self.authorized.insert(initiating_caller);
    }

    /// Succeeds if and only if `caller` is authorized. Changes nothing.
    pub fn authorize(&self, caller: &Principal) -> (outcome: Result<(), AuthError>)
        ensures
            outcome == authorize_outcome(self@, caller@),
    {
        if self.authorized.contains(caller) {
            Ok(())
        } else {
            Err(AuthError::NotAuthorized)
        }
    }

    /// Authorizes `new_principal` on behalf of `caller`.
    ///
    /// If `caller` is not authorized the registry is left as it was and the
    /// refusal is returned. Granting access to a principal that already has it
    /// changes nothing and is no error.
    pub fn grant(&mut self, caller: &Principal, new_principal: Principal) -> (outcome: Result<
        (),
        AuthError,
    >)
        ensures
            outcome == authorize_outcome(old(self)@, caller@),
            final(self)@ == after_grant(old(self)@, caller@, new_principal@),
            outcome is Err || old(self)@.contains(new_principal@) ==> final(self).ordered() == old(
                self,
            ).ordered(),
    {
        match self.authorize(caller) {
            Ok(()) => {
                self.authorized.insert(new_principal);
                Ok(())
            },
            Err(refusal) => Err(refusal),
        }
    }

    /// A copy of the current membership, to be persisted.
    pub fn snapshot(&self) -> (snapshot: AuthorizedSet)
        ensures
            self.captured_by(snapshot),
            snapshot@ == self@,
            strictly_increasing(snapshot.ordered()),
    {
        self.authorized.clone()
    }

    /// Replaces the membership wholesale by a set that was persisted earlier.
    pub fn restore(&mut self, set: AuthorizedSet)
        ensures
            final(self).captured_by(set),
            final(self)@ == set@,
    {
        self.authorized = set;
    }
}

/// A step in the history of a registry.
pub enum RegistryEvent {
    /// [`AuthRegistry::initialize`] with this caller.
    Initialize { caller: Seq<u8> },
    /// [`AuthRegistry::grant`] by `caller` for `target`.
    Grant { caller: Seq<u8>, target: Seq<u8> },
    /// [`AuthRegistry::snapshot`] followed by [`AuthRegistry::restore`] of
    /// that snapshot.
    SnapshotRestore,
}

/// The authorized principals after `event` has happened to `members`.
pub open spec fn after_event(members: Set<Seq<u8>>, event: RegistryEvent) -> Set<Seq<u8>> {
    match event {
        RegistryEvent::Initialize { caller } => members.insert(caller),
        RegistryEvent::Grant { caller, target } => after_grant(members, caller, target),
        RegistryEvent::SnapshotRestore => members,
    }
}

/// The authorized principals after all of `events` have happened to
/// `members`, the first of them first.
pub open spec fn after_events(members: Set<Seq<u8>>, events: Seq<RegistryEvent>) -> Set<Seq<u8>>
    decreases events.len(),
{
    if events.len() == 0 {
        members
    } else {
        after_event(after_events(members, events.drop_last()), events.last())
    }
}

/// `event`, happening to `members`, puts `principal` into the set: it is an
/// initialization by `principal`, or a grant for `principal` by a caller who
/// is a member.
pub open spec fn inserts(members: Set<Seq<u8>>, event: RegistryEvent, principal: Seq<u8>) -> bool {
    match event {
        RegistryEvent::Initialize { caller } => caller == principal,
        RegistryEvent::Grant { caller, target } => members.contains(caller) && target == principal,
        RegistryEvent::SnapshotRestore => false,
    }
}

/// Membership only grows: a principal that is authorized stays authorized
/// whatever happens to the registry afterwards, a snapshot and its
/// restoration included.
pub proof fn lemma_member_stays_authorized(
    members: Set<Seq<u8>>,
    events: Seq<RegistryEvent>,
    principal: Seq<u8>,
)
    requires
        members.contains(principal),
    ensures
        authorize_outcome(after_events(members, events), principal) == Ok::<(), AuthError>(()),
    decreases events.len(),
{
    if events.len() > 0 {
        lemma_member_stays_authorized(members, events.drop_last(), principal);
    }
}

/// A principal that an initialization or a grant has put into the set is
/// authorized from then on.
pub proof fn lemma_inserted_is_authorized(
    members: Set<Seq<u8>>,
    events: Seq<RegistryEvent>,
    at: int,
    principal: Seq<u8>,
)
    requires
        0 <= at < events.len(),
        inserts(after_events(members, events.take(at)), events[at], principal),
    ensures
        authorize_outcome(after_events(members, events), principal) == Ok::<(), AuthError>(()),
    decreases events.len(),
{
    let earlier = events.drop_last();
    if at == events.len() - 1 {
        assert(events.take(at) =~= earlier);
    } else {
        assert(earlier.take(at) =~= events.take(at));
        lemma_inserted_is_authorized(members, earlier, at, principal);
    }
}

/// A principal that was not a member to begin with and that no event has put
/// into the set is refused.
pub proof fn lemma_never_inserted_is_refused(
    members: Set<Seq<u8>>,
    events: Seq<RegistryEvent>,
    principal: Seq<u8>,
)
    requires
        !members.contains(principal),
        forall|at: int|
            0 <= at < events.len() ==> !inserts(
                after_events(members, #[trigger] events.take(at)),
                events[at],
                principal,
            ),
    ensures
        authorize_outcome(after_events(members, events), principal) == Err::<(), AuthError>(
            AuthError::NotAuthorized,
        ),
    decreases events.len(),
{
    if events.len() > 0 {
        let earlier = events.drop_last();
        assert forall|at: int| 0 <= at < earlier.len() implies !inserts(
            after_events(members, #[trigger] earlier.take(at)),
            earlier[at],
            principal,
        ) by {
            assert(earlier.take(at) =~= events.take(at));
        }
        lemma_never_inserted_is_refused(members, earlier, principal);
        assert(events.take(events.len() - 1) =~= earlier);
    }
}

/// Granting access to a member on behalf of a member succeeds and changes
/// nothing.
pub proof fn lemma_grant_to_member_changes_nothing(
    members: Set<Seq<u8>>,
    caller: Seq<u8>,
    target: Seq<u8>,
)
    requires
        members.contains(caller),
        members.contains(target),
    ensures
        authorize_outcome(members, caller) == Ok::<(), AuthError>(()),
        after_grant(members, caller, target) == members,
{
    assert(members.insert(target) =~= members);
}

/// A grant on behalf of a caller who is not a member is refused and changes
/// nothing.
pub proof fn lemma_grant_by_stranger_is_refused(
    members: Set<Seq<u8>>,
    caller: Seq<u8>,
    target: Seq<u8>,
)
    requires
        !members.contains(caller),
    ensures
        authorize_outcome(members, caller) == Err::<(), AuthError>(AuthError::NotAuthorized),
        after_grant(members, caller, target) == members,
{
}

/// A registry restored from its own snapshot answers every caller as it did
/// before.
pub proof fn lemma_snapshot_restore_keeps_answers(
    before: AuthRegistry,
    snapshot: AuthorizedSet,
    after: AuthRegistry,
    caller: Seq<u8>,
)
    requires
        before.captured_by(snapshot),
        after.captured_by(snapshot),
    ensures
        after.ordered() == before.ordered(),
        authorize_outcome(after@, caller) == authorize_outcome(before@, caller),
{
}

/// The order of persistence is fixed by the membership: two strictly
/// increasing sequences with the same elements are the same sequence.
pub proof fn lemma_members_fix_the_order(first: Seq<Seq<u8>>, second: Seq<Seq<u8>>)
    requires
        strictly_increasing(first),
        strictly_increasing(second),
        first.to_set() == second.to_set(),
    ensures
        first == second,
    decreases first.len(),
{
    if first.len() == 0 {
        if second.len() > 0 {
            assert(second.to_set().contains(second[0]));
            assert(first.contains(second[0]));
        }
        assert(first =~= second);
    } else {
        assert(first.to_set().contains(first[0]));
        assert(second.contains(first[0]));
        let k = choose|k: int| 0 <= k < second.len() && second[k] == first[0];
        assert(second.to_set().contains(second[0]));
        assert(first.contains(second[0]));
        let m = choose|m: int| 0 <= m < first.len() && first[m] == second[0];
        if k > 0 && m > 0 {
            assert(precedes(second[0], second[k]));
            assert(precedes(first[0], first[m]));
            lemma_precedes_asymmetric(first[0], second[0]);
        }
        assert(first[0] == second[0]);
        let rest_first = first.drop_first();
        let rest_second = second.drop_first();
        assert(strictly_increasing(rest_first)) by {
            assert forall|i: int, j: int| 0 <= i < j < rest_first.len() implies precedes(
                #[trigger] rest_first[i],
                #[trigger] rest_first[j],
            ) by {
                assert(precedes(first[i + 1], first[j + 1]));
            }
        }
        assert(strictly_increasing(rest_second)) by {
            assert forall|i: int, j: int| 0 <= i < j < rest_second.len() implies precedes(
                #[trigger] rest_second[i],
                #[trigger] rest_second[j],
            ) by {
                assert(precedes(second[i + 1], second[j + 1]));
            }
        }
        lemma_precedes_irreflexive(first[0]);
        assert forall|v: Seq<u8>| rest_first.to_set().contains(v) <==> rest_second.to_set().contains(
            v,
        ) by {
            if rest_first.contains(v) {
                let i = choose|i: int| 0 <= i < rest_first.len() && rest_first[i] == v;
                assert(precedes(first[0], first[i + 1]));
                assert(first.to_set().contains(first[i + 1]));
                assert(second.contains(v));
                let j = choose|j: int| 0 <= j < second.len() && second[j] == v;
                assert(rest_second[j - 1] == v);
            }
            if rest_second.contains(v) {
                let i = choose|i: int| 0 <= i < rest_second.len() && rest_second[i] == v;
                assert(precedes(second[0], second[i + 1]));
                assert(second.to_set().contains(second[i + 1]));
                assert(first.contains(v));
                let j = choose|j: int| 0 <= j < first.len() && first[j] == v;
                assert(rest_first[j - 1] == v);
            }
        }
        assert(rest_first.to_set() =~= rest_second.to_set());
        lemma_members_fix_the_order(rest_first, rest_second);
        assert(first =~= seq![first[0]] + rest_first);
        assert(second =~= seq![second[0]] + rest_second);
    }
}

} // verus!
