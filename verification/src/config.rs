//! The configuration that every session reads and none writes: routing
//! rules, the credential of each inbound variant, and the dial policy.

use crate::bytes::equal;
use crate::bytes::starts_with;
use crate::dial::DialPolicy;
use crate::header::Credential;
use crate::header::Destination;
use vstd::prelude::*;
use vstd::slice::slice_to_vec;
use vstd::string::StringSliceAdditionalSpecFns;

verus! {

/// Which header format and credential apply to a request.
#[derive(Clone, Copy, Debug, PartialEq, Eq, Structural)]
pub enum InboundVariant {
    /// The tunnel header of [`crate::header`].
    Tunnel,
}

/// A routing rule: requests whose path begins with `prefix` belong to
/// `variant`.
#[derive(Clone, Debug)]
pub struct Route {
    pub prefix: Vec<u8>,
    pub variant: InboundVariant,
}

/// The configuration of the process, made once and then only read.
#[derive(Clone, Debug)]
pub struct Config {
    /// The routing rules; where several match a path, the first one counts.
    pub routes: Vec<Route>,
    /// The credential that tunnel headers must carry.
    pub credential: Credential,
    /// The destinations that may not be dialed.
    pub policy: DialPolicy,
}

/// The bytes of `/link`, the path that hands out connection strings and
/// never leads into a tunnel.
pub open spec fn link_path() -> Seq<u8> {
    seq![47u8, 108u8, 105u8, 110u8, 107u8]
}

/// Rule `i` is the first of `routes` whose prefix begins `path`.
pub open spec fn selects(routes: Seq<Route>, path: Seq<u8>, i: int) -> bool {
    &&& 0 <= i < routes.len()
    &&& routes[i].prefix@.is_prefix_of(path)
    &&& forall|j: int| 0 <= j < i ==> !(#[trigger] routes[j]).prefix@.is_prefix_of(path)
}

/// The variant that the routing rules give to `path`: none for `/link`
/// and for a path that no rule matches, else that of the first rule that
/// matches.
pub open spec fn dispatch_spec(routes: Seq<Route>, path: Seq<u8>) -> Option<InboundVariant> {
    if path != link_path() && exists|i: int| selects(routes, path, i) {
        Some(routes[choose|i: int| selects(routes, path, i)].variant)
    } else {
        None
    }
}

/// At most one rule is the first to match.
pub proof fn lemma_selects_is_unique(routes: Seq<Route>, path: Seq<u8>, i: int, j: int)
    requires
        selects(routes, path, i),
        selects(routes, path, j),
    ensures
        i == j,
{
    if i < j {
        assert(!routes[i].prefix@.is_prefix_of(path));
    } else if j < i {
        assert(!routes[j].prefix@.is_prefix_of(path));
    }
}

/// Whether `path` spells `/link`.
pub fn is_link_path(path: &[u8]) -> (yes: bool)
    ensures
        yes == (path@ == link_path()),
{
    let link: [u8; 5] = [47, 108, 105, 110, 107];
    assert(link@ =~= link_path());
    equal(path, link.as_slice())
}

impl Route {
    /// The rule that gives paths beginning with `prefix` to `variant`.
    pub fn new(prefix: &str, variant: InboundVariant) -> (route: Route)
        ensures
            route.prefix@ == prefix.spec_bytes(),
            route.variant == variant,
    {
        Route { prefix: slice_to_vec(prefix.as_bytes()), variant }
    }
}

impl Config {
    /// A configuration of the given parts.
    pub fn new(routes: Vec<Route>, credential: Credential, policy: DialPolicy) -> (config: Config)
        ensures
            config.routes == routes,
            config.credential == credential,
            config.policy == policy,
    {
        Config { routes, credential, policy }
    }

    /// The variant that a request path belongs to, if any. `/link` belongs
    /// to none, whatever the rules say.
    pub fn dispatch(&self, path: &str) -> (variant: Option<InboundVariant>)
        ensures
            variant == dispatch_spec(self.routes@, path.spec_bytes()),
    {
        self.dispatch_bytes(path.as_bytes())
    }

    /// [`Config::dispatch`] for a path given as bytes.
    pub fn dispatch_bytes(&self, path: &[u8]) -> (variant: Option<InboundVariant>)
        ensures
            variant == dispatch_spec(self.routes@, path@),
    {
        if is_link_path(path) {
            return None;
        }
        let n = self.routes.len();
        let mut i: usize = 0;
        while i < n
            invariant
                i <= n,
                n == self.routes@.len(),
                path@ != link_path(),
                forall|j: int| 0 <= j < i ==> !(#[trigger] self.routes@[j]).prefix@.is_prefix_of(path@),
            decreases n - i,
        {
            if starts_with(path, self.routes[i].prefix.as_slice()) {
                proof {
                    assert(selects(self.routes@, path@, i as int));
                    let k = choose|k: int| selects(self.routes@, path@, k);
                    lemma_selects_is_unique(self.routes@, path@, i as int, k);
                }
                return Some(self.routes[i].variant);
            }
            i += 1;
        }
        proof {
            assert forall|k: int| !selects(self.routes@, path@, k) by {
                if 0 <= k < n {
                    assert(!self.routes@[k].prefix@.is_prefix_of(path@));
                }
            }
        }
        None
    }

    /// The credential that headers of `variant` must carry.
    pub fn credential_for(&self, variant: InboundVariant) -> (credential: Credential)
        ensures
            credential == self.credential,
    {
        match variant {
            InboundVariant::Tunnel => self.credential,
        }
    }

    /// Whether the dial policy lets `destination` be dialed.
    pub fn is_destination_allowed(&self, destination: &Destination) -> (allowed: bool)
        ensures
            allowed == self.policy.allows(destination@),
    {
        self.policy.is_destination_allowed(destination)
    }
}

} // verus!
