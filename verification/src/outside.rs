//! The node's three windows on the outside world: the wall clock, fresh
//! experience identifiers, and the transport's address syntax. Each is a
//! thin trusted wrapper around an outside crate; everything that depends on
//! what they return is verified against the contracts stated here.
use vstd::prelude::*;

verus! {

/// The peer identifier embedded in a multi-component network address, in
/// its canonical string form, when the string parses as such an address and
/// its trailing component is a peer identifier. A pure function of the
/// string: the parse depends on nothing else.
pub uninterp spec fn peer_id_of(handle: Seq<char>) -> Option<Seq<char>>;

/// Relies on libp2p's `Multiaddr` parser and `PeerId` rendering: when the
/// handle parses as a multiaddress whose last component embeds a peer
/// identifier, returns that identifier as its canonical string; otherwise
/// nothing. The result depends on the handle alone.
#[verifier::external_body]
pub(crate) fn parse_peer_multiaddr(handle: &String) -> (r: Option<String>)
    ensures
        (r is Some) == (peer_id_of(handle@) is Some),
        r matches Some(p) ==> (peer_id_of(handle@) matches Some(q) && p@ == q),
{
    match handle.parse::<libp2p::Multiaddr>() {
        Ok(addr) => match addr.iter().last() {
            Some(libp2p::multiaddr::Protocol::P2p(peer_id)) => Some(peer_id.to_string()),
            _ => None,
        },
        Err(_) => None,
    }
}

/// Relies on chrono's `Utc::now`: the wall clock as seconds since the Unix
/// epoch. Nothing is promised of the value; callers clamp it into the
/// representable range themselves.
#[verifier::external_body]
pub(crate) fn now_epoch_seconds() -> i64 {
    chrono::Utc::now().timestamp()
}

/// Relies on uuid's `Uuid::new_v4` and its `Display` form: a fresh random
/// version-4 identifier rendered in the 36-character hyphenated form. The
/// value is random; only its shape is promised.
#[verifier::external_body]
pub(crate) fn new_experience_id() -> (r: String)
    ensures
        r@.len() == 36,
{
    uuid::Uuid::new_v4().to_string()
}

} // verus!
