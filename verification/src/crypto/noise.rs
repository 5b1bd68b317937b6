//! Noise XX handshake and transport via `snow`.

use snow::params::NoiseParams;
use snow::{HandshakeState, TransportState};
use vstd::prelude::*;

use crate::crypto::keys::IdentitySecret;
use crate::NOISE_PARAMS;

verus! {

/// AEAD tag length of every `snow` cipher (ChaChaPoly here).
pub const NOISE_TAG_LEN: usize = 16;

/// Largest Noise message (bytes).
pub const NOISE_MAX_MSG: usize = 65535;

/// Smallest output buffer for writing an XX handshake message: an ephemeral
/// key, then an encrypted static key with its tag. `snow` checks the room
/// for the static key alone before writing it with its tag, so a shorter
/// buffer can make it index past the end.
pub const NOISE_HS_MIN_OUT: usize = 80;

#[verifier::external_type_specification]
#[verifier::external_body]
pub struct ExNoiseParams(NoiseParams);

#[verifier::external_type_specification]
#[verifier::external_body]
pub struct ExHandshakeState(HandshakeState);

#[verifier::external_type_specification]
#[verifier::external_body]
pub struct ExTransportState(TransportState);

/// Parses a Noise protocol name with `snow`'s `FromStr` for `NoiseParams`;
/// the error is handed back as its message. Nothing is claimed.
#[verifier::external_body]
fn snow_params(name: &str) -> Result<NoiseParams, String> {
    match name.parse::<NoiseParams>() {
        Ok(p) => Ok(p),
        Err(e) => Err(format!("{e}")),
    }
}

/// Calls `snow::Builder::new(params).local_private_key(key).build_initiator()`.
/// Nothing is claimed.
#[verifier::external_body]
fn snow_initiator(params: NoiseParams, key: &[u8; 32]) -> Result<HandshakeState, String> {
    match snow::Builder::new(params).local_private_key(key).build_initiator() {
        Ok(h) => Ok(h),
        Err(e) => Err(format!("{e}")),
    }
}

/// Calls `snow::Builder::new(params).local_private_key(key).build_responder()`.
/// Nothing is claimed.
#[verifier::external_body]
fn snow_responder(params: NoiseParams, key: &[u8; 32]) -> Result<HandshakeState, String> {
    match snow::Builder::new(params).local_private_key(key).build_responder() {
        Ok(h) => Ok(h),
        Err(e) => Err(format!("{e}")),
    }
}

/// The Noise protocol name this library speaks: XX over X25519,
/// ChaChaPoly and BLAKE2s.
pub open spec fn xx_name() -> Seq<char> {
    "Noise_XX_25519_ChaChaPoly_BLAKE2s"@
}

/// Parses `name` into `NoiseParams`, builds an initiator with the static
/// key `key` (`snow::Builder::new(..).local_private_key(..).build_initiator()`)
/// and writes its first handshake message, with an empty payload, into
/// `out` (`HandshakeState::write_message`). Claims what `snow`'s source
/// shows for [`xx_name`], all of whose parts its default resolver provides:
/// building cannot fail, and the first XX message (the ephemeral key alone)
/// is written whenever `out` has room for the key and a tag, 48 bytes,
/// and is 32 bytes long. Of other names nothing is claimed.
#[verifier::external_body]
fn snow_xx_initiator_hello(name: &str, key: &[u8; 32], out: &mut [u8]) -> (r: Result<(HandshakeState, usize), String>)
    ensures
        final(out)@.len() == old(out)@.len(),
        r matches Ok((_, n)) ==> n <= old(out)@.len(),
        name@ == xx_name() && old(out)@.len() >= 48 ==> (r matches Ok((_, n)) && n == 32),
{
    let params = match name.parse::<NoiseParams>() {
        Ok(p) => p,
        Err(e) => return Err(format!("{e}")),
    };
    let mut hs = match snow::Builder::new(params).local_private_key(key).build_initiator() {
        Ok(h) => h,
        Err(e) => return Err(format!("{e}")),
    };
    match hs.write_message(&[], out) {
        Ok(n) => Ok((hs, n)),
        Err(e) => Err(format!("{e}")),
    }
}

/// Parses `name`, builds a responder with the static key `key`, reads the
/// initiator's first message `msg` (its payload lands in `scratch`) and
/// writes the reply, with an empty payload, into `out`
/// (`HandshakeState::read_message`, then `write_message`). Claims what
/// `snow`'s source shows for [`xx_name`]: building cannot fail; the first
/// XX message is taken exactly when it holds at least the 32-byte ephemeral
/// key and at most the Noise message limit; the reply (ephemeral key,
/// encrypted static key, tag) is then written whenever `out` has 96 bytes,
/// and is 96 bytes long. Asks for a scratch buffer as long as the message
/// and an output buffer of [`NOISE_HS_MIN_OUT`] bytes, on which the calls
/// do not panic.
#[verifier::external_body]
fn snow_xx_responder_reply(name: &str, key: &[u8; 32], msg: &[u8], scratch: &mut [u8], out: &mut [u8]) -> (r: Result<
    (HandshakeState, usize),
    String,
>)
    requires
        msg@.len() <= old(scratch)@.len(),
        old(out)@.len() >= NOISE_HS_MIN_OUT,
    ensures
        final(scratch)@.len() == old(scratch)@.len(),
        final(out)@.len() == old(out)@.len(),
        r matches Ok((_, n)) ==> n <= old(out)@.len(),
        name@ == xx_name() && old(out)@.len() >= 96 ==> (r is Ok <==> 32 <= msg@.len() <= NOISE_MAX_MSG),
        name@ == xx_name() ==> (r matches Ok((_, n)) ==> n == 96),
{
    let params = match name.parse::<NoiseParams>() {
        Ok(p) => p,
        Err(e) => return Err(format!("{e}")),
    };
    let mut hs = match snow::Builder::new(params).local_private_key(key).build_responder() {
        Ok(h) => h,
        Err(e) => return Err(format!("{e}")),
    };
    if let Err(e) = hs.read_message(msg, scratch) {
        return Err(format!("{e}"));
    }
    match hs.write_message(&[], out) {
        Ok(n) => Ok((hs, n)),
        Err(e) => Err(format!("{e}")),
    }
}

/// Calls `HandshakeState::write_message`. Claims only that the count it
/// returns fits the output buffer, whose length does not change. Asks for a
/// buffer of at least [`NOISE_HS_MIN_OUT`] bytes, on which the call does
/// not panic; what is written is left unsaid (opaque handshake state).
#[verifier::external_body]
fn snow_hs_write(hs: &mut HandshakeState, payload: &[u8], out: &mut [u8]) -> (r: Result<usize, String>)
    requires
        old(out)@.len() >= NOISE_HS_MIN_OUT,
    ensures
        final(out)@.len() == old(out)@.len(),
        r matches Ok(n) ==> n <= old(out)@.len(),
{
    match hs.write_message(payload, out) {
        Ok(n) => Ok(n),
        Err(e) => Err(format!("{e}")),
    }
}

/// Calls `HandshakeState::read_message`. Claims only that the count it
/// returns fits the output buffer, whose length does not change. Asks for a
/// buffer at least as long as the message: a payload that is not yet
/// encrypted is copied into it unchecked. What is read is left unsaid.
#[verifier::external_body]
fn snow_hs_read(hs: &mut HandshakeState, msg: &[u8], out: &mut [u8]) -> (r: Result<usize, String>)
    requires
        msg@.len() <= old(out)@.len(),
    ensures
        final(out)@.len() == old(out)@.len(),
        r matches Ok(n) ==> n <= old(out)@.len(),
{
    match hs.read_message(msg, out) {
        Ok(n) => Ok(n),
        Err(e) => Err(format!("{e}")),
    }
}

/// Calls `HandshakeState::is_handshake_finished`. Nothing is claimed.
#[verifier::external_body]
fn snow_hs_finished(hs: &HandshakeState) -> bool {
    hs.is_handshake_finished()
}

/// Calls `HandshakeState::into_transport_mode`. Nothing is claimed.
#[verifier::external_body]
fn snow_into_transport(hs: HandshakeState) -> Result<TransportState, String> {
    match hs.into_transport_mode() {
        Ok(t) => Ok(t),
        Err(e) => Err(format!("{e}")),
    }
}

/// Calls `TransportState::write_message`. Claims what its source shows: a
/// payload whose sealed form (payload plus the 16-byte tag) exceeds the
/// output buffer or the Noise message limit is refused, and a sealed
/// message is exactly that long. The output buffer keeps its length.
#[verifier::external_body]
fn snow_ts_write(ts: &mut TransportState, payload: &[u8], out: &mut [u8]) -> (r: Result<usize, String>)
    ensures
        final(out)@.len() == old(out)@.len(),
        payload@.len() + NOISE_TAG_LEN > old(out)@.len() || payload@.len() + NOISE_TAG_LEN > NOISE_MAX_MSG ==> r is Err,
        r matches Ok(n) ==> n == payload@.len() + NOISE_TAG_LEN,
{
    match ts.write_message(payload, out) {
        Ok(n) => Ok(n),
        Err(e) => Err(format!("{e}")),
    }
}

/// Calls `TransportState::read_message`. Claims what its source shows: a
/// message shorter than the tag, longer than the Noise limit, or whose
/// plaintext would not fit the output buffer is refused, and an opened
/// message yields its length minus the 16-byte tag. The output buffer keeps
/// its length.
#[verifier::external_body]
fn snow_ts_read(ts: &mut TransportState, msg: &[u8], out: &mut [u8]) -> (r: Result<usize, String>)
    ensures
        final(out)@.len() == old(out)@.len(),
        msg@.len() < NOISE_TAG_LEN || msg@.len() > NOISE_MAX_MSG || old(out)@.len() + NOISE_TAG_LEN < msg@.len() ==> r is Err,
        r matches Ok(n) ==> n + NOISE_TAG_LEN == msg@.len(),
{
    match ts.read_message(msg, out) {
        Ok(n) => Ok(n),
        Err(e) => Err(format!("{e}")),
    }
}

/// Calls `HandshakeState::get_remote_static` and copies the key out.
/// Nothing is claimed.
#[verifier::external_body]
fn snow_hs_remote(hs: &HandshakeState) -> Option<Vec<u8>> {
    match hs.get_remote_static() {
        Some(k) => Some(k.to_vec()),
        None => None,
    }
}

/// Calls `TransportState::get_remote_static` and copies the key out.
/// Nothing is claimed.
#[verifier::external_body]
fn snow_ts_remote(ts: &TransportState) -> Option<Vec<u8>> {
    match ts.get_remote_static() {
        Some(k) => Some(k.to_vec()),
        None => None,
    }
}

/// Handshake role.
#[derive(Clone, Copy, Debug, PartialEq, Eq, Structural)]
pub enum HandshakeRole {
    /// Sends the first Noise message.
    Initiator,
    /// Responds to the first Noise message.
    Responder,
}

/// Noise-layer errors.
#[derive(Clone, Debug, PartialEq, Eq)]
pub enum NoiseError {
    /// Parameter / builder failure.
    Setup(String),
    /// Handshake or transport crypto failure.
    Crypto(String),
    /// Operation not valid in the current state.
    BadState,
    /// The remote static key is not the pinned one.
    PinMismatch,
}

/// Whether `a` and `b` hold the same bytes, looking at every byte of both
/// whatever they hold (no early exit).
pub fn bytes_equal(a: &[u8], b: &[u8]) -> (r: bool)
    ensures
        r == (a@ == b@),
{
    if a.len() != b.len() {
        return false;
    }
    let n = a.len();
    let mut diff: u8 = 0;
    let mut i: usize = 0;
    while i < n
        invariant
            n == a@.len(),
            n == b@.len(),
            i <= n,
            (diff == 0) == (forall|j: int| 0 <= j < i ==> a@[j] == b@[j]),
        decreases n - i,
    {
        let ai: u8 = a[i];
        let bi: u8 = b[i];
        let x: u8 = ai ^ bi;
        proof {
            assert((x == 0) == (ai == bi)) by (bit_vector)
                requires
                    x == ai ^ bi,
            ;
            assert(((diff | x) == 0) == (diff == 0 && x == 0)) by (bit_vector);
        }
        diff = diff | x;
        i = i + 1;
    }
    if diff == 0 {
        assert(a@ =~= b@);
    }
    diff == 0
}

/// The answer of a pin check on the remote key as `remote_static` gave it:
/// its error as it is, else whether the key is the expected one.
pub open spec fn pin_outcome(remote: Result<[u8; 32], NoiseError>, expected: Seq<u8>) -> Result<(), NoiseError> {
    match remote {
        Ok(k) => if k@ == expected {
            Ok(())
        } else {
            Err(NoiseError::PinMismatch)
        },
        Err(e) => Err(e),
    }
}

/// Check a remote static key, as `remote_static` gave it, against a pin.
pub fn check_pin(remote: Result<[u8; 32], NoiseError>, expected: &[u8; 32]) -> (r: Result<(), NoiseError>)
    ensures
        r == pin_outcome(remote, expected@),
{
    match remote {
        Ok(k) => if bytes_equal(&k, expected) {
            Ok(())
        } else {
            Err(NoiseError::PinMismatch)
        },
        Err(e) => Err(e),
    }
}

/// Noise XX session (handshake then transport).
pub struct NoiseSession {
    handshake: Option<HandshakeState>,
    transport: Option<TransportState>,
}

impl NoiseSession {
    /// Still handshaking.
    pub closed spec fn in_handshake(&self) -> bool {
        self.handshake is Some
    }

    /// In transport mode.
    pub closed spec fn transport_mode(&self) -> bool {
        self.transport is Some
    }

    /// Never both handshaking and in transport mode.
    pub closed spec fn wf(&self) -> bool {
        !(self.handshake is Some && self.transport is Some)
    }

    /// Start a new Noise XX session with a local static key.
    pub fn new(role: HandshakeRole, local: &IdentitySecret) -> (r: Result<Self, NoiseError>)
        ensures
            r matches Ok(s) ==> s.wf() && s.in_handshake() && !s.transport_mode(),
            r matches Err(e) ==> e is Setup,
    {
        let params = match snow_params(NOISE_PARAMS) {
            Ok(p) => p,
            Err(m) => return Err(NoiseError::Setup(m)),
        };
        let static_key = local.to_bytes();
        let built = match role {
            HandshakeRole::Initiator => snow_initiator(params, &static_key),
            HandshakeRole::Responder => snow_responder(params, &static_key),
        };
        match built {
            Ok(hs) => Ok(Self { handshake: Some(hs), transport: None }),
            Err(m) => Err(NoiseError::Setup(m)),
        }
    }

    /// Start an XX handshake as initiator: the session, and the length of
    /// the first message (the ephemeral key) written into `out`, which
    /// succeeds whenever `out` holds 48 bytes.
    pub fn initiate(local: &IdentitySecret, out: &mut [u8]) -> (r: Result<(NoiseSession, usize), NoiseError>)
        ensures
            final(out)@.len() == old(out)@.len(),
            old(out)@.len() >= 48 ==> (r matches Ok((_, n)) && n == 32),
            r matches Ok((s, n)) ==> s.wf() && s.in_handshake() && !s.transport_mode() && n <= old(out)@.len(),
            r matches Err(e) ==> e is Crypto,
    {
        let key = local.to_bytes();
        assert(NOISE_PARAMS@ == xx_name());
        match snow_xx_initiator_hello(NOISE_PARAMS, &key, out) {
            Ok((hs, n)) => Ok((NoiseSession { handshake: Some(hs), transport: None }, n)),
            Err(m) => Err(NoiseError::Crypto(m)),
        }
    }

    /// Answer an initiator's first XX message `msg` as responder: the
    /// session, and the length of the reply written into `out`. The
    /// message is taken exactly when it holds at least the 32-byte ephemeral
    /// key and at most the Noise message limit; the reply is 96 bytes.
    pub fn respond(local: &IdentitySecret, msg: &[u8], scratch: &mut [u8], out: &mut [u8]) -> (r: Result<(NoiseSession, usize), NoiseError>)
        requires
            msg@.len() <= old(scratch)@.len(),
            old(out)@.len() >= NOISE_HS_MIN_OUT,
        ensures
            final(scratch)@.len() == old(scratch)@.len(),
            final(out)@.len() == old(out)@.len(),
            old(out)@.len() >= 96 ==> (r is Ok <==> 32 <= msg@.len() <= NOISE_MAX_MSG),
            r matches Ok((s, n)) ==> s.wf() && s.in_handshake() && !s.transport_mode() && n == 96 && n <= old(out)@.len(),
            r matches Err(e) ==> e is Crypto,
    {
        let key = local.to_bytes();
        assert(NOISE_PARAMS@ == xx_name());
        match snow_xx_responder_reply(NOISE_PARAMS, &key, msg, scratch, out) {
            Ok((hs, n)) => Ok((NoiseSession { handshake: Some(hs), transport: None }, n)),
            Err(m) => Err(NoiseError::Crypto(m)),
        }
    }

    /// Whether transport mode is active.
    pub fn is_transport(&self) -> (b: bool)
        ensures
            b == self.transport_mode(),
    {
        self.transport.is_some()
    }

    /// Write the next handshake message; after the last one the session
    /// switches to transport mode.
    pub fn write_handshake(&mut self, payload: &[u8], out: &mut [u8]) -> (r: Result<usize, NoiseError>)
        requires
            old(self).wf(),
            old(out)@.len() >= NOISE_HS_MIN_OUT,
        ensures
            final(self).wf(),
            final(out)@.len() == old(out)@.len(),
            !old(self).in_handshake() ==> r == Err::<usize, NoiseError>(NoiseError::BadState) && *final(self) == *old(self),
            r matches Ok(n) ==> n <= old(out)@.len() && old(self).in_handshake(),
            r is Ok ==> final(self).in_handshake() || final(self).transport_mode(),
    {
        let res = match &mut self.handshake {
            Some(hs) => snow_hs_write(hs, payload, out),
            None => return Err(NoiseError::BadState),
        };
        let n = match res {
            Ok(n) => n,
            Err(m) => return Err(NoiseError::Crypto(m)),
        };
        self.maybe_finish()?;
        Ok(n)
    }

    /// Read the next handshake message; after the last one the session
    /// switches to transport mode.
    pub fn read_handshake(&mut self, msg: &[u8], out: &mut [u8]) -> (r: Result<usize, NoiseError>)
        requires
            old(self).wf(),
            msg@.len() <= old(out)@.len(),
        ensures
            final(self).wf(),
            final(out)@.len() == old(out)@.len(),
            !old(self).in_handshake() ==> r == Err::<usize, NoiseError>(NoiseError::BadState) && *final(self) == *old(self),
            r matches Ok(n) ==> n <= old(out)@.len() && old(self).in_handshake(),
            r is Ok ==> final(self).in_handshake() || final(self).transport_mode(),
    {
        let res = match &mut self.handshake {
            Some(hs) => snow_hs_read(hs, msg, out),
            None => return Err(NoiseError::BadState),
        };
        let n = match res {
            Ok(n) => n,
            Err(m) => return Err(NoiseError::Crypto(m)),
        };
        self.maybe_finish()?;
        Ok(n)
    }

    /// Switch to transport mode once the handshake has finished.
    fn maybe_finish(&mut self) -> (r: Result<(), NoiseError>)
        requires
            old(self).wf(),
            old(self).in_handshake(),
        ensures
            final(self).wf(),
            r is Ok ==> final(self).in_handshake() || final(self).transport_mode(),
            r is Ok ==> *final(self) == *old(self) || (final(self).transport_mode() && !final(self).in_handshake()),
            r matches Err(e) ==> e is Crypto && !final(self).in_handshake() && !final(self).transport_mode(),
    {
        let finished = match &self.handshake {
            Some(hs) => snow_hs_finished(hs),
            None => false,
        };
        if finished {
            let hs = match self.handshake.take() {
                Some(h) => h,
                None => return Err(NoiseError::BadState),
            };
            match snow_into_transport(hs) {
                Ok(ts) => {
                    self.transport = Some(ts);
                },
                Err(m) => return Err(NoiseError::Crypto(m)),
            }
        }
        Ok(())
    }

    /// Encrypt an application payload in transport mode.
    pub fn seal(&mut self, plaintext: &[u8], out: &mut [u8]) -> (r: Result<usize, NoiseError>)
        requires
            old(self).wf(),
        ensures
            final(self).wf(),
            final(self).transport_mode() == old(self).transport_mode(),
            final(self).in_handshake() == old(self).in_handshake(),
            final(out)@.len() == old(out)@.len(),
            !old(self).transport_mode() ==> r == Err::<usize, NoiseError>(NoiseError::BadState),
            plaintext@.len() + NOISE_TAG_LEN > old(out)@.len() ==> r is Err,
            r matches Ok(n) ==> n == plaintext@.len() + NOISE_TAG_LEN,
            r matches Err(e) ==> e is BadState || e is Crypto,
            old(self).transport_mode() ==> (r matches Err(e) ==> e is Crypto),
    {
        let res = match &mut self.transport {
            Some(ts) => snow_ts_write(ts, plaintext, out),
            None => return Err(NoiseError::BadState),
        };
        match res {
            Ok(n) => Ok(n),
            Err(m) => Err(NoiseError::Crypto(m)),
        }
    }

    /// Decrypt an application payload in transport mode.
    pub fn open(&mut self, ciphertext: &[u8], out: &mut [u8]) -> (r: Result<usize, NoiseError>)
        requires
            old(self).wf(),
        ensures
            final(self).wf(),
            final(self).transport_mode() == old(self).transport_mode(),
            final(self).in_handshake() == old(self).in_handshake(),
            final(out)@.len() == old(out)@.len(),
            !old(self).transport_mode() ==> r == Err::<usize, NoiseError>(NoiseError::BadState),
            r matches Ok(n) ==> n + NOISE_TAG_LEN == ciphertext@.len(),
            r matches Err(e) ==> e is BadState || e is Crypto,
    {
        let res = match &mut self.transport {
            Some(ts) => snow_ts_read(ts, ciphertext, out),
            None => return Err(NoiseError::BadState),
        };
        match res {
            Ok(n) => Ok(n),
            Err(m) => Err(NoiseError::Crypto(m)),
        }
    }

    /// The remote static key, once the handshake has received it: refused
    /// with [`NoiseError::BadState`] when the session has no key state or no
    /// 32-byte remote key yet.
    pub fn remote_static(&self) -> (r: Result<[u8; 32], NoiseError>)
        ensures
            !self.in_handshake() && !self.transport_mode() ==> r == Err::<[u8; 32], NoiseError>(NoiseError::BadState),
            r matches Err(e) ==> e is BadState,
    {
        let k = match &self.transport {
            Some(ts) => snow_ts_remote(ts),
            None => match &self.handshake {
                Some(hs) => snow_hs_remote(hs),
                None => return Err(NoiseError::BadState),
            },
        };
        match k {
            Some(v) => if v.len() == 32 {
                Ok([
                    v[0], v[1], v[2], v[3], v[4], v[5], v[6], v[7], v[8], v[9], v[10], v[11], v[12], v[13], v[14], v[15],
                    v[16], v[17], v[18], v[19], v[20], v[21], v[22], v[23], v[24], v[25], v[26], v[27], v[28], v[29],
                    v[30], v[31],
                ])
            } else {
                Err(NoiseError::BadState)
            },
            None => Err(NoiseError::BadState),
        }
    }

    /// Require the remote static key to be `expected`: the key that
    /// `remote_static` reads is compared over all 32 bytes with
    /// [`check_pin`]. Which key that is rests on `snow`'s state and is not
    /// stated.
    pub fn pin_remote(&self, expected: &[u8; 32]) -> (r: Result<(), NoiseError>)
        ensures
            !self.in_handshake() && !self.transport_mode() ==> r == Err::<(), NoiseError>(NoiseError::BadState),
            r matches Err(e) ==> e is BadState || e is PinMismatch,
    {
        check_pin(self.remote_static(), expected)
    }
}

} // verus!
