//! Caller identities.
//!
//! A [`Principal`] is an opaque byte string of at most
//! [`MAX_PRINCIPAL_LEN`] bytes. Principals are totally ordered: a shorter
//! principal comes before a longer one, and principals of equal length are
//! ordered byte by byte. This is the order in which `candid` keeps its own
//! principals, so a set written out in this order reads back the same way.

use std::cmp::Ordering;
use vstd::prelude::*;

verus! {

/// The largest number of bytes that a principal can hold.
pub const MAX_PRINCIPAL_LEN: usize = 29;

/// `i` is the first index at which `a` and `b` hold different bytes.
pub open spec fn first_difference(a: Seq<u8>, b: Seq<u8>, i: int) -> bool {
    &&& 0 <= i < a.len()
    &&& i < b.len()
    &&& a[i] != b[i]
    &&& forall|j: int| 0 <= j < i ==> a[j] == b[j]
}

/// `a` comes before `b` byte by byte: where they first differ, `a` holds the
/// smaller byte.
pub open spec fn lex_before(a: Seq<u8>, b: Seq<u8>) -> bool {
    exists|i: int| #[trigger] first_difference(a, b, i) && a[i] < b[i]
}

/// `a` comes strictly before `b` in the order of principals.
pub open spec fn precedes(a: Seq<u8>, b: Seq<u8>) -> bool {
    a.len() < b.len() || (a.len() == b.len() && lex_before(a, b))
}

/// How `a` stands to `b` in the order of principals.
pub open spec fn principal_order(a: Seq<u8>, b: Seq<u8>) -> Ordering {
    if a == b {
        Ordering::Equal
    } else if precedes(a, b) {
        Ordering::Less
    } else {
        Ordering::Greater
    }
}

/// The identity of a caller: at most [`MAX_PRINCIPAL_LEN`] opaque bytes.
#[derive(Debug, PartialEq, Eq)]
pub struct Principal {
    bytes: Vec<u8>,
}

impl View for Principal {
    type V = Seq<u8>;

    closed spec fn view(&self) -> Seq<u8> {
        self.bytes@
    }
}

impl Principal {
    #[verifier::type_invariant]
    spec fn within_limit(&self) -> bool {
        self.bytes@.len() <= MAX_PRINCIPAL_LEN
    }

    /// Makes a principal of the given bytes, or `None` if there are more than
    /// [`MAX_PRINCIPAL_LEN`] of them.
    pub fn from_bytes(bytes: Vec<u8>) -> (made: Option<Principal>)
        ensures
            bytes@.len() <= MAX_PRINCIPAL_LEN ==> made is Some && made->0@ == bytes@,
            bytes@.len() > MAX_PRINCIPAL_LEN ==> made is None,
    {
        if bytes.len() <= MAX_PRINCIPAL_LEN {
            Some(Principal { bytes })
        } else {
            None
        }
    }

    /// The bytes of this principal.
    pub fn as_bytes(&self) -> (bytes: &[u8])
        ensures
            bytes@ == self@,
            bytes@.len() <= MAX_PRINCIPAL_LEN,
    {
        proof {
            use_type_invariant(self);
        }
        self.bytes.as_slice()
    }

    /// Whether this principal comes strictly before `other`.
    pub fn comes_before(&self, other: &Principal) -> (before: bool)
        ensures
            before == precedes(self@, other@),
    {
        proof {
            lemma_order_cases(self@, other@);
        }
        match self.compare(other) {
            Ordering::Less => true,
            Ordering::Equal => false,
            Ordering::Greater => false,
        }
    }

    /// Whether this principal and `other` are the same identity.
    pub fn same_as(&self, other: &Principal) -> (same: bool)
        ensures
            same == (self@ == other@),
    {
        proof {
            lemma_order_cases(self@, other@);
        }
        match self.compare(other) {
            Ordering::Less => false,
            Ordering::Equal => true,
            Ordering::Greater => false,
        }
    }

    /// Compares two principals as `candid::Principal` orders them.
    pub fn compare(&self, other: &Principal) -> (order: Ordering)
        ensures
            order == principal_order(self@, other@),
    {
        proof {
            use_type_invariant(self);
            use_type_invariant(other);
        }
        candid_order(self.bytes.as_slice(), other.bytes.as_slice())
    }
}

impl Clone for Principal {
    fn clone(&self) -> (copy: Self)
        ensures
            copy@ == self@,
    {
        proof {
            use_type_invariant(self);
        }
        Principal { bytes: self.bytes.clone() }
    }
}

/// Calls `Ord::cmp` of `candid::Principal` on the principals that
/// `candid::Principal::from_slice` makes of the two byte strings.
///
/// `from_slice` panics on more than 29 bytes, which the precondition excludes.
/// The contract claims that the comparison is by length first and then byte by
/// byte: `candid::Principal` derives `Ord` on its length followed by its bytes,
/// zero-padded to the full width.
#[verifier::external_body]
fn candid_order(a: &[u8], b: &[u8]) -> (order: Ordering)
    requires
        a@.len() <= MAX_PRINCIPAL_LEN,
        b@.len() <= MAX_PRINCIPAL_LEN,
    ensures
        order == principal_order(a@, b@),
{
    candid::Principal::from_slice(a).cmp(&candid::Principal::from_slice(b))
}

/// Two different byte strings of one length have a first index at which they
/// differ.
pub proof fn lemma_first_difference_exists(a: Seq<u8>, b: Seq<u8>)
    requires
        a.len() == b.len(),
        a != b,
    ensures
        exists|i: int| #[trigger] first_difference(a, b, i),
    decreases a.len(),
{
    if a.len() == 0 {
        assert(a =~= b);
    } else if a[0] != b[0] {
        assert(first_difference(a, b, 0));
    } else {
        let ta = a.drop_first();
        let tb = b.drop_first();
        if ta == tb {
            assert(a =~= seq![a[0]] + ta);
            assert(b =~= seq![b[0]] + tb);
        }
        lemma_first_difference_exists(ta, tb);
        let k = choose|k: int| #[trigger] first_difference(ta, tb, k);
        assert forall|j: int| 0 <= j < k + 1 implies a[j] == b[j] by {
            if j > 0 {
                assert(ta[j - 1] == tb[j - 1]);
            }
        }
        assert(first_difference(a, b, k + 1));
    }
}

/// No principal comes before itself.
pub proof fn lemma_precedes_irreflexive(a: Seq<u8>)
    ensures
        !precedes(a, a),
{
}

/// Of two principals at most one comes before the other.
pub proof fn lemma_precedes_asymmetric(a: Seq<u8>, b: Seq<u8>)
    ensures
        !(precedes(a, b) && precedes(b, a)),
{
    if precedes(a, b) && precedes(b, a) {
        let i = choose|i: int| #[trigger] first_difference(a, b, i) && a[i] < b[i];
        let k = choose|k: int| #[trigger] first_difference(b, a, k) && b[k] < a[k];
        if i < k {
            assert(b[i] == a[i]);
        } else if k < i {
            assert(a[k] == b[k]);
        }
    }
}

/// The order of principals is transitive.
pub proof fn lemma_precedes_transitive(a: Seq<u8>, b: Seq<u8>, c: Seq<u8>)
    requires
        precedes(a, b),
        precedes(b, c),
    ensures
        precedes(a, c),
{
    if a.len() == b.len() && b.len() == c.len() {
        let i = choose|i: int| #[trigger] first_difference(a, b, i) && a[i] < b[i];
        let k = choose|k: int| #[trigger] first_difference(b, c, k) && b[k] < c[k];
        let m = if i <= k { i } else { k };
        assert(first_difference(a, c, m));
        assert(a[m] < c[m]);
    }
}

/// Any two different principals are ordered one way or the other.
pub proof fn lemma_precedes_total(a: Seq<u8>, b: Seq<u8>)
    requires
        a != b,
    ensures
        precedes(a, b) || precedes(b, a),
{
    if a.len() == b.len() {
        lemma_first_difference_exists(a, b);
        let i = choose|i: int| #[trigger] first_difference(a, b, i);
        if a[i] < b[i] {
        } else {
            assert(first_difference(b, a, i));
            assert(b[i] < a[i]);
        }
    }
}

/// [`principal_order`] answers `Less` exactly when the first principal comes
/// before the second, `Greater` exactly when the second comes before the
/// first, and `Equal` exactly when they are the same.
pub proof fn lemma_order_cases(a: Seq<u8>, b: Seq<u8>)
    ensures
        principal_order(a, b) == Ordering::Greater <==> precedes(b, a),
        principal_order(a, b) == Ordering::Less <==> precedes(a, b),
        principal_order(a, b) == Ordering::Equal <==> a == b,
{
    lemma_precedes_irreflexive(a);
    lemma_precedes_asymmetric(a, b);
    if a != b {
        lemma_precedes_total(a, b);
    }
}

} // verus!
