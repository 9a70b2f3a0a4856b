//! One browsing session: connected clients, credential, origin checks and stop.
//!
//! An explicit authenticated stop begins graceful shutdown immediately. Closing
//! one of several tabs does not stop the server; after at least one client has
//! connected, loss of the final one starts a short grace period, and a new
//! connection within that window cancels it.

use crate::text::joined;
use vstd::prelude::*;

verus! {

/// How long the session survives after the last connected client disconnects, in
/// nanoseconds.
pub const CLIENT_GRACE_PERIOD: u64 = 5_000_000_000;

/// How often the grace period is checked, in nanoseconds.
pub const MONITOR_INTERVAL: u64 = 1_000_000_000;

/// How long connections have to say goodbye when the server stops, in nanoseconds.
pub const DRAIN_WINDOW: u64 = 500_000_000;

/// How often the connections that are left are counted while the server stops, in
/// nanoseconds.
pub const DRAIN_INTERVAL: u64 = 10_000_000;

/// Header carrying the per-launch session credential on authenticated requests.
pub const SESSION_HEADER: &'static str = "x-mdtree-session";

/// Length, in bytes, of the random session credential before hex encoding.
pub const CREDENTIAL_BYTES: usize = 32;

/// Whether a stopping server waits on, after `waited` nanoseconds: for connections that
/// are left, and no longer than the window.
pub fn keeps_draining(connected: usize, waited: u64) -> (yes: bool)
    ensures
        yes == (connected > 0 && waited < DRAIN_WINDOW),
{
    connected > 0 && waited < DRAIN_WINDOW
}

/// Tracks currently connected clients and when the last one left. Instants are
/// nanoseconds of a clock that does not go backwards.
#[derive(Clone, Copy, Debug, PartialEq, Eq, Structural)]
pub struct ClientActivity {
    pub connected: usize,
    pub ever_connected: bool,
    pub disconnected_at: Option<u64>,
}

impl Default for ClientActivity {
    fn default() -> (activity: ClientActivity)
        ensures
            activity == (ClientActivity {
                connected: 0,
                ever_connected: false,
                disconnected_at: None,
            }),
    {
        ClientActivity { connected: 0, ever_connected: false, disconnected_at: None }
    }
}

impl ClientActivity {
    /// The activity after one more client has connected.
    pub open spec fn joined(self) -> ClientActivity {
        ClientActivity {
            connected: if self.connected == usize::MAX {
                0
            } else {
                (self.connected + 1) as usize
            },
            ever_connected: true,
            disconnected_at: None,
        }
    }

    /// The activity after a client has left at an instant.
    pub open spec fn left(self, now: u64) -> ClientActivity {
        ClientActivity {
            connected: if self.connected == 0 {
                usize::MAX
            } else {
                (self.connected - 1) as usize
            },
            ever_connected: self.ever_connected,
            disconnected_at: if self.connected <= 1 {
                Some(now)
            } else {
                self.disconnected_at
            },
        }
    }

    /// Whether the session ends at an instant: clients have come, none is left,
    /// and the grace period is over.
    pub open spec fn ends_at(self, now: u64) -> bool {
        &&& self.ever_connected
        &&& self.connected == 0
        &&& self.disconnected_at matches Some(since) && now - since > CLIENT_GRACE_PERIOD
    }

    /// Counts a client in.
    pub fn client_connected(&mut self)
        ensures
            *final(self) == old(self).joined(),
    {
        self.connected = self.connected.wrapping_add(1);
        self.ever_connected = true;
        self.disconnected_at = None;
    }

    /// Counts a client out.
    pub fn client_disconnected(&mut self, now: u64)
        ensures
            *final(self) == old(self).left(now),
    {
        let remaining: usize = self.connected.saturating_sub(1);
        self.connected = self.connected.wrapping_sub(1);
        if remaining == 0 {
            self.disconnected_at = Some(now);
        }
    }

    /// Whether the session is to end now.
    pub fn should_shut_down(&self, now: u64) -> (end: bool)
        ensures
            end == self.ends_at(now),
    {
        if !self.ever_connected || self.connected > 0 {
            return false;
        }
        match self.disconnected_at {
            Some(since) => now > since && now - since > CLIENT_GRACE_PERIOD,
            None => false,
        }
    }

    /// Number of currently connected clients.
    pub fn connected(&self) -> (count: usize)
        ensures
            count == self.connected,
    {
        self.connected
    }
}

/// Closing one of several tabs does not end the session.
pub proof fn law_one_of_several_clients_may_leave(activity: ClientActivity, left: u64, now: u64)
    requires
        activity.connected >= 2,
    ensures
        !activity.left(left).ends_at(now),
{
}

/// A session that no client ever joined does not end by itself.
pub proof fn law_unvisited_session_stays(activity: ClientActivity, now: u64)
    requires
        !activity.ever_connected,
    ensures
        !activity.ends_at(now),
{
}

/// When the last client leaves, the session ends exactly when the grace period is
/// over.
pub proof fn law_grace_period(activity: ClientActivity, left: u64, now: u64)
    requires
        activity.connected == 1,
        activity.ever_connected,
    ensures
        activity.left(left).ends_at(now) <==> now - left > CLIENT_GRACE_PERIOD,
{
}

/// A new connection cancels a pending end of the session.
pub proof fn law_new_connection_cancels(activity: ClientActivity, left: u64, now: u64)
    requires
        activity.connected == 1,
    ensures
        !activity.left(left).joined().ends_at(now),
{
}

/// The status of an answered request to stop.
#[derive(Clone, Copy, Debug, PartialEq, Eq, Structural)]
pub enum StopStatus {
    /// The credential was wrong or absent: 403.
    Forbidden,
    /// Shutdown begins: 202.
    Accepted,
}

/// Decides a request to stop: it is accepted exactly when it carries the session
/// credential.
pub fn stop(supplied: &Option<String>, credential: &String) -> (status: StopStatus)
    ensures
        status == match *supplied {
            Some(text) => if text@ == credential@ {
                StopStatus::Accepted
            } else {
                StopStatus::Forbidden
            },
            None => StopStatus::Forbidden,
        },
{
    match supplied {
        Some(text) => {
            if *text == *credential {
                StopStatus::Accepted
            } else {
                StopStatus::Forbidden
            }
        },
        None => StopStatus::Forbidden,
    }
}

/// `rand::Rng::fill_bytes` of the generator of `rand::rng` fills the whole buffer.
/// Which bytes come is left to chance. The first call in a thread panics where the
/// operating system gives no entropy.
#[verifier::external_body]
fn random_bytes(count: usize) -> (bytes: Vec<u8>)
    ensures
        bytes@.len() == count,
{
    let mut bytes = vec![0u8; count];
    rand::Rng::fill_bytes(&mut rand::rng(), &mut bytes);
    bytes
}

/// The lower-case hexadecimal digit with the given value.
pub open spec fn hex_digit(d: int) -> char {
    "0123456789abcdef"@[d]
}

/// Two hexadecimal digits for each byte.
pub open spec fn hex(bytes: Seq<u8>) -> Seq<char> {
    Seq::new(
        2 * bytes.len(),
        |i: int|
            if i % 2 == 0 {
                hex_digit((bytes[i / 2] / 16) as int)
            } else {
                hex_digit((bytes[i / 2] % 16) as int)
            },
    )
}

/// Writes bytes as hexadecimal digits.
pub fn to_hex(bytes: &Vec<u8>) -> (text: String)
    ensures
        text@ == hex(bytes@),
{
    let digits = crate::text::chars_of("0123456789abcdef");
    let mut text = String::new();
    let mut i: usize = 0;
    proof {
        reveal_strlit("0123456789abcdef");
    }
    assert(text@ =~= hex(bytes@.take(0)));
    while i < bytes.len()
        invariant
            i <= bytes.len(),
            digits@ == "0123456789abcdef"@,
            digits.len() == 16,
            text@ == hex(bytes@.take(i as int)),
        decreases bytes.len() - i,
    {
        let ghost before = text@;
        text.push(digits[(bytes[i] / 16) as usize]);
        text.push(digits[(bytes[i] % 16) as usize]);
        proof {
            let part = bytes@.take(i + 1);
            assert(before.len() == 2 * i);
            assert forall|k: int| 0 <= k < 2 * (i + 1) implies text@[k] == #[trigger] hex(part)[k] by {
                if k < 2 * i {
                    assert(text@[k] == before[k]);
                    assert(part[k / 2] == bytes@.take(i as int)[k / 2]);
                } else {
                    assert(k / 2 == i);
                    assert(part[i as int] == bytes@[i as int]);
                }
            }
            assert(text@ =~= hex(part));
        }
        i = i + 1;
    }
    assert(bytes@.take(bytes@.len() as int) =~= bytes@);
    text
}

/// Whether every character is a lower-case hexadecimal digit.
pub open spec fn is_hex(text: Seq<char>) -> bool {
    forall|i: int|
        0 <= i < text.len() ==> "0123456789abcdef"@.contains(#[trigger] text[i])
}

/// Different bytes are written differently.
pub proof fn law_hex_is_injective(a: Seq<u8>, b: Seq<u8>)
    requires
        hex(a) == hex(b),
    ensures
        a == b,
{
    assert(hex(a).len() == 2 * a.len() && hex(b).len() == 2 * b.len());
    reveal_strlit("0123456789abcdef");
    assert forall|i: int| 0 <= i < a.len() implies a[i] == b[i] by {
        let x = a[i];
        let y = b[i];
        assert(hex(a)[2 * i] == hex_digit((x / 16) as int));
        assert(hex(b)[2 * i] == hex_digit((y / 16) as int));
        assert(hex(a)[2 * i + 1] == hex_digit((x % 16) as int)) by {
            assert((2 * i + 1) % 2 == 1 && (2 * i + 1) / 2 == i);
        }
        assert(hex(b)[2 * i + 1] == hex_digit((y % 16) as int)) by {
            assert((2 * i + 1) % 2 == 1 && (2 * i + 1) / 2 == i);
        }
        lemma_digits_distinct((x / 16) as int, (y / 16) as int);
        lemma_digits_distinct((x % 16) as int, (y % 16) as int);
    }
    assert(a =~= b);
}

proof fn lemma_digits_distinct(d: int, e: int)
    requires
        0 <= d < 16,
        0 <= e < 16,
        hex_digit(d) == hex_digit(e),
    ensures
        d == e,
{
    reveal_strlit("0123456789abcdef");
}

/// Generates one unguessable per-launch session credential: random bytes, written
/// as hexadecimal digits. That the bytes cannot be guessed rests on the generator.
pub fn generate_session_credential() -> (credential: String)
    ensures
        credential@.len() == 2 * CREDENTIAL_BYTES,
        is_hex(credential@),
        exists|bytes: Seq<u8>| bytes.len() == CREDENTIAL_BYTES && credential@ == #[trigger] hex(bytes),
{
    let bytes = random_bytes(CREDENTIAL_BYTES);
    let credential = to_hex(&bytes);
    proof {
        reveal_strlit("0123456789abcdef");
        assert forall|i: int| 0 <= i < credential@.len() implies "0123456789abcdef"@.contains(
            #[trigger] credential@[i],
        ) by {
            let d: int = if i % 2 == 0 {
                (bytes@[i / 2] / 16) as int
            } else {
                (bytes@[i / 2] % 16) as int
            };
            assert(credential@[i] == "0123456789abcdef"@[d]);
        }
    }
    credential
}

/// The value of a request header.
#[derive(Debug)]
pub enum HeaderText {
    Absent,
    /// Present, but not visible ASCII text.
    Unreadable,
    Text(String),
}

/// Whether an origin is that of the requested host.
pub fn origin_matches_host(host: &str, origin: &String) -> (yes: bool)
    ensures
        yes == (origin@ == "http://"@ + host@),
{
    let expected = joined("http://", host);
    *origin == expected
}

/// Whether a request may pass: it names no origin, or the origin of the host that
/// it is addressed to. There is no permissive mode.
pub open spec fn is_same_origin(origin: HeaderText, host: HeaderText) -> bool {
    match origin {
        HeaderText::Absent => true,
        HeaderText::Unreadable => false,
        HeaderText::Text(o) => match host {
            HeaderText::Text(h) => o@ == "http://"@ + h@,
            _ => false,
        },
    }
}

/// Decides whether a request may pass.
pub fn enforce_same_origin(origin: &HeaderText, host: &HeaderText) -> (pass: bool)
    ensures
        pass == is_same_origin(*origin, *host),
{
    match origin {
        HeaderText::Absent => true,
        HeaderText::Unreadable => false,
        HeaderText::Text(o) => match host {
            HeaderText::Text(h) => origin_matches_host(h.as_str(), o),
            _ => false,
        },
    }
}

} // verus!
