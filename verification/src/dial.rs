//! The dialer's decisions: which destinations may be dialed at all, and
//! what a failed attempt amounts to. Opening the connection is the host's
//! part.

use crate::header::Address;
use crate::header::AddressView;
use crate::header::Destination;
use crate::header::DestinationView;
use vstd::prelude::*;

verus! {

/// Why no outbound connection came about.
#[derive(Clone, Copy, Debug, PartialEq, Eq, Structural)]
pub enum DialError {
    /// The configured policy does not allow the destination.
    Forbidden,
    /// The attempt did not finish in time.
    Timeout,
    /// The destination refused the connection or could not be reached.
    Unreachable,
}

/// What the host observed when an attempt to connect failed.
#[derive(Clone, Copy, Debug, PartialEq, Eq, Structural)]
pub enum DialFailure {
    TimedOut,
    Refused,
    NoRoute,
}

/// Which ranges of destinations are off limits.
#[derive(Clone, Copy, Debug, PartialEq, Eq, Structural)]
pub struct DialPolicy {
    /// Refuse 127.0.0.0/8, ::1 and the name `localhost`.
    pub deny_loopback: bool,
    /// Refuse 10.0.0.0/8, 172.16.0.0/12, 192.168.0.0/16 and fc00::/7.
    pub deny_private: bool,
}

/// An ASCII letter in lower case, any other byte as it is.
pub open spec fn lower_spec(b: u8) -> u8 {
    if 65 <= b <= 90 {
        (b + 32) as u8
    } else {
        b
    }
}

/// The bytes of `localhost`.
pub open spec fn localhost_spec() -> Seq<u8> {
    seq![108u8, 111u8, 99u8, 97u8, 108u8, 104u8, 111u8, 115u8, 116u8]
}

/// Whether `name` spells `localhost`, in any mix of upper and lower case.
pub open spec fn is_localhost(name: Seq<u8>) -> bool {
    name.map_values(|b: u8| lower_spec(b)) == localhost_spec()
}

/// Whether the address lies in a loopback range.
pub open spec fn is_loopback(address: AddressView) -> bool {
    match address {
        AddressView::V4(a) => a.len() == 4 && a[0] == 127,
        AddressView::V6(a) => a.len() == 16 && a[15] == 1 && forall|i: int|
            0 <= i < 15 ==> a[i] == 0,
        AddressView::Domain(name) => is_localhost(name),
    }
}

/// Whether the address lies in a range set aside for private networks.
pub open spec fn is_private(address: AddressView) -> bool {
    match address {
        AddressView::V4(a) => a.len() == 4 && (a[0] == 10 || (a[0] == 172 && 16 <= a[1] <= 31) || (
        a[0] == 192 && a[1] == 168)),
        AddressView::V6(a) => a.len() == 16 && (a[0] == 0xfc || a[0] == 0xfd),
        AddressView::Domain(_) => false,
    }
}

impl DialPolicy {
    /// Whether the policy lets `destination` be dialed.
    pub open spec fn allows(self, destination: DestinationView) -> bool {
        &&& self.deny_loopback ==> !is_loopback(destination.address)
        &&& self.deny_private ==> !is_private(destination.address)
    }

    /// The policy that refuses nothing.
    pub fn allow_all() -> (policy: DialPolicy)
        ensures
            policy == (DialPolicy { deny_loopback: false, deny_private: false }),
    {
        DialPolicy { deny_loopback: false, deny_private: false }
    }

    /// Whether the policy lets `destination` be dialed.
    pub fn is_destination_allowed(&self, destination: &Destination) -> (allowed: bool)
        ensures
            allowed == self.allows(destination@),
    {
        if self.deny_loopback && loopback(&destination.address) {
            return false;
        }
        if self.deny_private && private(&destination.address) {
            return false;
        }
        true
    }

    /// Decides before any attempt whether `destination` may be dialed:
    /// a destination outside the policy is forbidden.
    pub fn check_destination(&self, destination: &Destination) -> (verdict: Result<(), DialError>)
        ensures
            verdict == (if self.allows(destination@) {
                Ok::<(), DialError>(())
            } else {
                Err::<(), DialError>(DialError::Forbidden)
            }),
    {
        if self.is_destination_allowed(destination) {
            Ok(())
        } else {
            Err(DialError::Forbidden)
        }
    }
}

/// The error that a failed attempt is reported as.
pub open spec fn classify_spec(failure: DialFailure) -> DialError {
    match failure {
        DialFailure::TimedOut => DialError::Timeout,
        DialFailure::Refused => DialError::Unreachable,
        DialFailure::NoRoute => DialError::Unreachable,
    }
}

/// The error that a failed attempt is reported as: a timeout as such, a
/// refusal or a missing route as unreachable. Nothing is tried again.
pub fn classify_failure(failure: DialFailure) -> (error: DialError)
    ensures
        error == classify_spec(failure),
{
    match failure {
        DialFailure::TimedOut => DialError::Timeout,
        DialFailure::Refused => DialError::Unreachable,
        DialFailure::NoRoute => DialError::Unreachable,
    }
}

/// Whether `name` spells `localhost`, in any mix of upper and lower case.
fn localhost(name: &[u8]) -> (yes: bool)
    ensures
        yes == is_localhost(name@),
{
    let word: [u8; 9] = [108, 111, 99, 97, 108, 104, 111, 115, 116];
    let ghost lowered = name@.map_values(|b: u8| lower_spec(b));
    assert(word@ =~= localhost_spec());
    if name.len() != 9 {
        return false;
    }
    let mut i: usize = 0;
    while i < 9
        invariant
            i <= 9,
            name@.len() == 9,
            word@ == localhost_spec(),
            lowered == name@.map_values(|b: u8| lower_spec(b)),
            forall|j: int| 0 <= j < i ==> lowered[j] == word@[j],
        decreases 9 - i,
    {
        let b = name[i];
        let low = if 65 <= b && b <= 90 {
            b + 32
        } else {
            b
        };
        assert(low == lowered[i as int]);
        if low != word[i] {
            return false;
        }
        i += 1;
    }
    assert(lowered =~= localhost_spec());
    true
}

/// Whether the sixteen bytes spell `::1`.
fn v6_loopback(a: &[u8; 16]) -> (yes: bool)
    ensures
        yes == (a@[15] == 1 && forall|i: int| 0 <= i < 15 ==> a@[i] == 0),
{
    let mut i: usize = 0;
    while i < 15
        invariant
            i <= 15,
            forall|j: int| 0 <= j < i ==> a@[j] == 0,
        decreases 15 - i,
    {
        if a[i] != 0 {
            assert(a@[i as int] != 0);
            return false;
        }
        i += 1;
    }
    a[15] == 1
}

fn loopback(address: &Address) -> (yes: bool)
    ensures
        yes == is_loopback(address@),
{
    match address {
        Address::V4(a) => a[0] == 127,
        Address::V6(a) => v6_loopback(a),
        Address::Domain(name) => localhost(name.as_slice()),
    }
}

fn private(address: &Address) -> (yes: bool)
    ensures
        yes == is_private(address@),
{
    match address {
        Address::V4(a) => a[0] == 10 || (a[0] == 172 && 16 <= a[1] && a[1] <= 31) || (a[0] == 192
            && a[1] == 168),
        Address::V6(a) => a[0] == 0xfc || a[0] == 0xfd,
        Address::Domain(_) => false,
    }
}

} // verus!
