//! The password check in front of the tunnel, and the decision on what a
//! request is for.
//!
//! A request is let through when its query string holds the parameter
//! `password=` followed by the configured password, as one of the
//! parameters that `&` separates.

use crate::bytes::append;
use crate::bytes::equal;
use crate::config::dispatch_spec;
use crate::config::is_link_path;
use crate::config::link_path;
use crate::config::Config;
use crate::config::InboundVariant;
use vstd::prelude::*;
use vstd::slice::slice_subrange;
use vstd::string::StringSliceAdditionalSpecFns;

verus! {

/// The byte `&`, which separates the parameters of a query string.
pub const AMPERSAND: u8 = 38;

/// The byte `=`, which separates a parameter's name from its value.
pub const EQUALS: u8 = 61;

/// The bytes of `password=`.
pub open spec fn password_key() -> Seq<u8> {
    seq![112u8, 97u8, 115u8, 115u8, 119u8, 111u8, 114u8, 100u8, 61u8]
}

/// The bytes from `from` up to `to` are one whole parameter of `query`:
/// they hold no `&`, and on either side lies a `&` or an end of the query.
pub open spec fn is_parameter(query: Seq<u8>, from: int, to: int) -> bool {
    &&& 0 <= from <= to <= query.len()
    &&& from == 0 || query[from - 1] == AMPERSAND
    &&& to == query.len() || query[to] == AMPERSAND
    &&& forall|k: int| from <= k < to ==> query[k] != AMPERSAND
}

/// Whether `query` is let through under `password`: the password holds no
/// `=`, and one parameter of the query is `password=` followed by it.
pub open spec fn grants(query: Seq<u8>, password: Seq<u8>) -> bool {
    &&& !password.contains(EQUALS)
    &&& exists|from: int, to: int|
        #![trigger query.subrange(from, to)]
        is_parameter(query, from, to) && query.subrange(from, to) == password_key() + password
}

/// What a request is for.
#[derive(Clone, Copy, Debug, PartialEq, Eq, Structural)]
pub enum Admission {
    /// It asks for a connection string.
    Link,
    /// Its path belongs to no inbound variant: there is nothing here.
    NotFound,
    /// It belongs to an inbound variant and was not let through: it is
    /// asked for the password.
    Challenge,
    /// It belongs to this inbound variant and was let through.
    Tunnel(InboundVariant),
}

/// What the request with this path and query is for.
pub open spec fn route_spec(
    config: Config,
    path: Seq<u8>,
    query: Option<Seq<u8>>,
    password: Seq<u8>,
) -> Admission {
    if path == link_path() {
        Admission::Link
    } else {
        match dispatch_spec(config.routes@, path) {
            None => Admission::NotFound,
            Some(variant) => if query is Some && grants(query->0, password) {
                Admission::Tunnel(variant)
            } else {
                Admission::Challenge
            },
        }
    }
}

/// Whether `text` holds the byte `b`.
fn holds(text: &[u8], b: u8) -> (yes: bool)
    ensures
        yes == text@.contains(b),
{
    let n = text.len();
    let mut i: usize = 0;
    while i < n
        invariant
            i <= n,
            n == text@.len(),
            forall|j: int| 0 <= j < i ==> text@[j] != b,
        decreases n - i,
    {
        if text[i] == b {
            return true;
        }
        i += 1;
    }
    false
}

/// Whether a query string is let through.
pub fn check_query(query: &[u8], password: &[u8]) -> (granted: bool)
    ensures
        granted == grants(query@, password@),
{
    if holds(password, EQUALS) {
        return false;
    }
    let mut wanted: Vec<u8> = Vec::new();
    let key: [u8; 9] = [112, 97, 115, 115, 119, 111, 114, 100, 61];
    assert(key@ =~= password_key());
    append(&mut wanted, key.as_slice());
    append(&mut wanted, password);
    assert(wanted@ =~= password_key() + password@);
    let n = query.len();
    let mut start: usize = 0;
    let mut i: usize = 0;
    while i < n
        invariant
            start <= i <= n,
            n == query@.len(),
            wanted@ == password_key() + password@,
            !password@.contains(EQUALS),
            start == 0 || query@[start - 1] == AMPERSAND,
            forall|k: int| start <= k < i ==> query@[k] != AMPERSAND,
            forall|from: int, to: int|
                #![trigger query@.subrange(from, to)]
                is_parameter(query@, from, to) && to < start ==> query@.subrange(from, to)
                    != wanted@,
        decreases n - i,
    {
        if query[i] == AMPERSAND {
            if equal(slice_subrange(query, start, i), wanted.as_slice()) {
                assert(is_parameter(query@, start as int, i as int));
                return true;
            }
            assert forall|from: int, to: int|
                #![trigger query@.subrange(from, to)]
                is_parameter(query@, from, to) && to < i + 1 implies query@.subrange(from, to)
                != wanted@ by {
                if to >= start {
                    lemma_parameter_start(query@, start as int, from, to);
                    assert(to == i);
                }
            }
            start = i + 1;
        }
        i += 1;
    }
    if equal(slice_subrange(query, start, n), wanted.as_slice()) {
        assert(is_parameter(query@, start as int, n as int));
        return true;
    }
    assert forall|from: int, to: int|
        #![trigger query@.subrange(from, to)]
        is_parameter(query@, from, to) implies query@.subrange(from, to) != wanted@ by {
        if to >= start {
            lemma_parameter_start(query@, start as int, from, to);
            assert(to == n);
        }
    }
    false
}

/// A parameter that ends at or behind a place where a parameter starts
/// also starts there, provided no `&` lies between that place and its end.
proof fn lemma_parameter_start(query: Seq<u8>, start: int, from: int, to: int)
    requires
        is_parameter(query, from, to),
        0 <= start <= to,
        start == 0 || query[start - 1] == AMPERSAND,
        forall|k: int| start <= k < to ==> query[k] != AMPERSAND,
    ensures
        from == start,
{
    if from < start {
        assert(query[start - 1] != AMPERSAND);
    } else if from > start {
        assert(query[from - 1] != AMPERSAND);
    }
}

/// Whether a request is let through: it is when its query string, if it
/// has one, holds the configured password as the value of `password`.
pub fn check_password(query: Option<&str>, password: &str) -> (granted: bool)
    ensures
        granted == match query {
            Some(q) => grants(q.spec_bytes(), password.spec_bytes()),
            None => false,
        },
{
    match query {
        Some(q) => check_query(q.as_bytes(), password.as_bytes()),
        None => false,
    }
}

/// Decides what a request is for: `/link` asks for a connection string and
/// needs no password; any other path leads into a tunnel if the routing
/// rules know it and the query is let through.
pub fn route_request(config: &Config, path: &str, query: Option<&str>, password: &str) -> (admission:
    Admission)
    ensures
        admission == route_spec(
            *config,
            path.spec_bytes(),
            match query {
                Some(q) => Some(q.spec_bytes()),
                None => None,
            },
            password.spec_bytes(),
        ),
{
    if is_link_path(path.as_bytes()) {
        return Admission::Link;
    }
    match config.dispatch(path) {
        None => Admission::NotFound,
        Some(variant) => {
            if check_password(query, password) {
                Admission::Tunnel(variant)
            } else {
                Admission::Challenge
            }
        },
    }
}

} // verus!
