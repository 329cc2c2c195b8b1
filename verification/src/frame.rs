//! The signed transport frame: canonical signable encoding, HMAC-SHA256
//! signatures, the bounded nonce window against replay, and the admission
//! check every incoming frame passes before its payload is looked at.
use vstd::prelude::*;

use crate::b64::{b64_decode_spec, b64_encode_spec};
use crate::jsontext::{dec_i64_spec, jstr_spec, push_json_string};
use crate::paths::strs_view_of;
use crate::session::{has_peer, FriendLinkSessionRecord, FriendPeerRecord};
use crate::trusted::hmac_sha256_of;

verus! {

/// Widest clock skew between peers a frame may carry, in milliseconds.
pub const MAX_CLOCK_SKEW_MS: i64 = 120_000;

/// Most nonces the replay window remembers.
pub const MAX_SEEN_NONCES: usize = 4096;

/// One frame on the wire. The payload is carried as JSON text and embedded
/// verbatim in the canonical encoding.
pub struct SignedFrame {
    pub group_id: String,
    pub from_peer_id: String,
    pub timestamp_ms: i64,
    pub nonce: String,
    pub payload_type: String,
    pub payload: String,
    pub signature: String,
}

/// A `hello` payload.
pub struct HelloPayload {
    pub peer_id: String,
    pub display_name: String,
    pub endpoint: String,
}

/// One peer as listed in a `hello_ack`.
pub struct PeerSummary {
    pub peer_id: String,
    pub display_name: String,
    pub endpoint: String,
    pub online: bool,
}

/// A `hello_ack` payload.
pub struct HelloAckPayload {
    pub peer_id: String,
    pub display_name: String,
    pub endpoint: String,
    pub peers: Vec<PeerSummary>,
}

/// A `state_request` payload.
pub struct StateRequestPayload {}

/// A `state_response` payload.
pub struct StateResponsePayload {
    pub peer_id: String,
    pub display_name: String,
    pub endpoint: String,
    pub state: crate::state::SyncState,
}

/// A `file_request` payload.
pub struct FileRequestPayload {
    pub key: String,
}

/// A `file_response` payload.
pub struct FileResponsePayload {
    pub key: String,
    pub found: bool,
    pub sha256: Option<String>,
    pub bytes_b64: Option<String>,
    pub message: Option<String>,
}

/// The canonical text both sides sign: the frame without its signature,
/// fields in a fixed order, the payload embedded verbatim.
pub open spec fn signable_json(
    group_id: Seq<char>,
    from_peer_id: Seq<char>,
    timestamp_ms: int,
    nonce: Seq<char>,
    payload_type: Seq<char>,
    payload: Seq<char>,
) -> Seq<char> {
    "{\"group_id\":"@ + jstr_spec(group_id) + ",\"from_peer_id\":"@ + jstr_spec(from_peer_id)
        + ",\"timestamp_ms\":"@ + dec_i64_spec(timestamp_ms) + ",\"nonce\":"@ + jstr_spec(nonce)
        + ",\"payload_type\":"@ + jstr_spec(payload_type) + ",\"payload\":"@ + payload + seq![
        '}',
    ]
}

/// The signature a frame must carry: standard base64 of the HMAC-SHA256 tag
/// over the canonical signable text, keyed with the decoded shared secret.
pub open spec fn signature_spec(
    secret: Seq<u8>,
    group_id: Seq<char>,
    from_peer_id: Seq<char>,
    timestamp_ms: int,
    nonce: Seq<char>,
    payload_type: Seq<char>,
    payload: Seq<char>,
) -> Seq<char> {
    b64_encode_spec(
        hmac_sha256_of(
            secret,
            vstd::utf8::encode_utf8(
                signable_json(group_id, from_peer_id, timestamp_ms, nonce, payload_type, payload),
            ),
        ),
        false,
        true,
    )
}

/// Build the canonical signable text of a frame.
pub fn encode_signable(frame: &SignedFrame) -> (r: String)
    ensures
        r@ == signable_json(
            frame.group_id@,
            frame.from_peer_id@,
            frame.timestamp_ms as int,
            frame.nonce@,
            frame.payload_type@,
            frame.payload@,
        ),
{
    let mut j: Vec<char> = Vec::new();
    crate::text::push_str_chars(&mut j, "{\"group_id\":");
    push_json_string(&mut j, frame.group_id.as_str());
    crate::text::push_str_chars(&mut j, ",\"from_peer_id\":");
    push_json_string(&mut j, frame.from_peer_id.as_str());
    crate::text::push_str_chars(&mut j, ",\"timestamp_ms\":");
    crate::jsontext::push_dec_i64(&mut j, frame.timestamp_ms);
    crate::text::push_str_chars(&mut j, ",\"nonce\":");
    push_json_string(&mut j, frame.nonce.as_str());
    crate::text::push_str_chars(&mut j, ",\"payload_type\":");
    push_json_string(&mut j, frame.payload_type.as_str());
    crate::text::push_str_chars(&mut j, ",\"payload\":");
    crate::text::push_str_chars(&mut j, frame.payload.as_str());
    j.push('}');
    proof {
        assert(j@ =~= signable_json(
            frame.group_id@,
            frame.from_peer_id@,
            frame.timestamp_ms as int,
            frame.nonce@,
            frame.payload_type@,
            frame.payload@,
        ));
    }
    crate::text::string_from_chars(&j)
}

/// Compute a frame's signature; fails only when the shared secret is not
/// valid base64.
pub fn make_signature(secret_b64: &str, frame: &SignedFrame) -> (r: Result<String, String>)
    ensures
        match r {
            Ok(sig) => match b64_decode_spec(secret_b64@, false, true) {
                Option::Some(secret) => sig@ == signature_spec(
                    secret,
                    frame.group_id@,
                    frame.from_peer_id@,
                    frame.timestamp_ms as int,
                    frame.nonce@,
                    frame.payload_type@,
                    frame.payload@,
                ),
                Option::None => false,
            },
            Err(_) => b64_decode_spec(secret_b64@, false, true) is None,
        },
{
    let secret = match crate::b64::b64std_decode(secret_b64) {
        Option::Some(s) => s,
        Option::None => {
            return Err(crate::state::lit_string("decode shared secret failed"));
        },
    };
    let signable = encode_signable(frame);
    let tag = crate::trusted::hmac_sha256(secret.as_slice(), signable.as_str().as_bytes());
    Ok(crate::b64::b64std_encode(&tag))
}

/// Sign a frame in place.
pub fn sign_frame(secret_b64: &str, frame: &mut SignedFrame) -> (r: Result<(), String>)
    ensures
        match r {
            Ok(_) => match b64_decode_spec(secret_b64@, false, true) {
                Option::Some(secret) => final(frame).signature@ == signature_spec(
                    secret,
                    old(frame).group_id@,
                    old(frame).from_peer_id@,
                    old(frame).timestamp_ms as int,
                    old(frame).nonce@,
                    old(frame).payload_type@,
                    old(frame).payload@,
                ),
                Option::None => false,
            },
            Err(_) => b64_decode_spec(secret_b64@, false, true) is None,
        },
        *final(frame) == (SignedFrame { signature: final(frame).signature, ..*old(frame) }),
{
    let sig = match make_signature(secret_b64, frame) {
        Ok(s) => s,
        Err(e) => {
            return Err(e);
        },
    };
    frame.signature = sig;
    Ok(())
}

/// When frame verification succeeds: the timestamp lies within the skew
/// window around `now_ms`, the secret decodes, and the carried signature is
/// exactly the recomputed one.
pub open spec fn frame_verifies(secret_b64: Seq<char>, frame: &SignedFrame, now_ms: int) -> bool {
    &&& -MAX_CLOCK_SKEW_MS as int <= now_ms - frame.timestamp_ms as int <= MAX_CLOCK_SKEW_MS as int
    &&& match b64_decode_spec(secret_b64, false, true) {
        Option::Some(secret) => frame.signature@ == signature_spec(
            secret,
            frame.group_id@,
            frame.from_peer_id@,
            frame.timestamp_ms as int,
            frame.nonce@,
            frame.payload_type@,
            frame.payload@,
        ),
        Option::None => false,
    }
}

/// Verify a frame's timestamp and signature at time `now_ms`.
pub fn verify_frame(secret_b64: &str, frame: &SignedFrame, now_ms: i64) -> (r: Result<(), String>)
    ensures
        r is Ok <==> frame_verifies(secret_b64@, frame, now_ms as int),
{
    if frame.timestamp_ms > now_ms {
        if frame.timestamp_ms as i128 - now_ms as i128 > MAX_CLOCK_SKEW_MS as i128 {
            return Err(crate::state::lit_string("frame timestamp outside allowed skew window"));
        }
    } else {
        if now_ms as i128 - frame.timestamp_ms as i128 > MAX_CLOCK_SKEW_MS as i128 {
            return Err(crate::state::lit_string("frame timestamp outside allowed skew window"));
        }
    }
    let expected = match make_signature(secret_b64, frame) {
        Ok(s) => s,
        Err(e) => {
            return Err(e);
        },
    };
    if crate::text::str_eq(&expected, &frame.signature) {
        Ok(())
    } else {
        Err(crate::state::lit_string("invalid frame signature"))
    }
}

/// A correctly signed frame within the skew window verifies; a frame with
/// any other signature text, or a timestamp outside the window, does not.
pub proof fn lemma_sign_verify(secret_b64: Seq<char>, frame: &SignedFrame, now_ms: int)
    ensures
        ({
            let skew_ok = -MAX_CLOCK_SKEW_MS as int <= now_ms - frame.timestamp_ms as int
                <= MAX_CLOCK_SKEW_MS as int;
            match b64_decode_spec(secret_b64, false, true) {
                Option::Some(secret) => {
                    let right = signature_spec(
                        secret,
                        frame.group_id@,
                        frame.from_peer_id@,
                        frame.timestamp_ms as int,
                        frame.nonce@,
                        frame.payload_type@,
                        frame.payload@,
                    );
                    &&& (frame.signature@ == right && skew_ok) ==> frame_verifies(
                        secret_b64,
                        frame,
                        now_ms,
                    )
                    &&& frame.signature@ != right ==> !frame_verifies(secret_b64, frame, now_ms)
                    &&& !skew_ok ==> !frame_verifies(secret_b64, frame, now_ms)
                },
                Option::None => !frame_verifies(secret_b64, frame, now_ms),
            }
        }),
{
}

/// The bounded set of recently seen nonces.
pub struct NonceWindow {
    pub seen: Vec<String>,
}

impl NonceWindow {
    /// The nonces currently remembered.
    pub open spec fn view_seen(&self) -> Seq<Seq<char>> {
        strs_view_of(self.seen@)
    }

    /// The window never remembers more than `MAX_SEEN_NONCES` nonces.
    pub open spec fn wf(&self) -> bool {
        self.seen@.len() <= MAX_SEEN_NONCES
    }

    /// An empty window.
    pub fn new() -> (r: NonceWindow)
        ensures
            r.wf(),
            r.view_seen().len() == 0,
    {
        NonceWindow { seen: Vec::new() }
    }

    /// Record a nonce: `true` when it was fresh, `false` when it was seen
    /// before and the frame must be rejected. A fresh nonce is remembered;
    /// when the window is over its bound, one old nonce is evicted.
    pub fn observe(&mut self, nonce: &str) -> (fresh: bool)
        requires
            old(self).wf(),
        ensures
            final(self).wf(),
            fresh == !old(self).view_seen().contains(nonce@),
            fresh ==> final(self).view_seen().contains(nonce@),
            !fresh ==> *final(self) == *old(self),
    {
        let probe = crate::state::lit_string(nonce);
        let mut i: usize = 0;
        while i < self.seen.len()
            invariant
                *self == *old(self),
                self.seen@.len() <= MAX_SEEN_NONCES,
                probe@ == nonce@,
                i <= self.seen@.len(),
                forall|m: int| 0 <= m < i ==> #[trigger] strs_view_of(self.seen@)[m] != nonce@,
            decreases self.seen@.len() - i,
        {
            proof {
                assert(strs_view_of(self.seen@)[i as int] == self.seen@[i as int]@);
            }
            if crate::text::str_eq(&self.seen[i], &probe) {
                proof {
                    assert(old(self).view_seen().contains(nonce@)) by {
                        assert(strs_view_of(self.seen@)[i as int] == nonce@);
                    }
                }
                return false;
            }
            i = i + 1;
        }
        proof {
            if old(self).view_seen().contains(nonce@) {
                let w = choose|w: int|
                    0 <= w < old(self).view_seen().len() && old(self).view_seen()[w] == nonce@;
                assert(false);
            }
        }
        self.seen.push(probe);
        proof {
            assert(self.view_seen().contains(nonce@)) by {
                assert(strs_view_of(self.seen@)[self.seen@.len() - 1] == nonce@);
            }
        }
        if self.seen.len() > MAX_SEEN_NONCES {
            let ghost pre = self.seen@;
            let _evicted = self.seen.remove(0);
            proof {
                assert(self.seen@ == pre.remove(0));
                assert(self.seen@[self.seen@.len() - 1] == pre[pre.len() - 1]);
                assert(self.view_seen().contains(nonce@)) by {
                    assert(strs_view_of(self.seen@)[self.seen@.len() - 1] == self.seen@[self.seen@.len() - 1]@);
                    assert(self.seen@[self.seen@.len() - 1]@ == nonce@);
                }
            }
        }
        true
    }
}

/// Why an incoming frame was turned away.
pub enum FrameError {
    GroupMismatch,
    StaleTimestamp,
    BadSignature,
    ReplayedNonce,
}

/// The admission check every incoming frame passes before its payload is
/// read: the group id must match, the timestamp must sit inside the skew
/// window, the signature must verify, and the nonce must be fresh. Only a
/// frame that passes everything else consumes a slot in the nonce window.
pub fn admit_frame(
    local_group_id: &str,
    secret_b64: &str,
    frame: &SignedFrame,
    now_ms: i64,
    nonces: &mut NonceWindow,
) -> (r: Result<(), FrameError>)
    requires
        old(nonces).wf(),
    ensures
        final(nonces).wf(),
        r matches Err(e) ==> *final(nonces) == *old(nonces) || (e is ReplayedNonce),
        r is Ok <==> (frame.group_id@ == local_group_id@ && frame_verifies(
            secret_b64@,
            frame,
            now_ms as int,
        ) && !old(nonces).view_seen().contains(frame.nonce@)),
        r is Ok ==> final(nonces).view_seen().contains(frame.nonce@),
        frame.group_id@ != local_group_id@ ==> r == Result::<(), FrameError>::Err(
            FrameError::GroupMismatch,
        ),
{
    let lv = crate::text::chars_vec(local_group_id);
    let gv = crate::text::chars_vec(frame.group_id.as_str());
    if !crate::text::chars_eq(&gv, &lv) {
        return Err(FrameError::GroupMismatch);
    }
    let skew_ok = if frame.timestamp_ms > now_ms {
        frame.timestamp_ms as i128 - now_ms as i128 <= MAX_CLOCK_SKEW_MS as i128
    } else {
        now_ms as i128 - frame.timestamp_ms as i128 <= MAX_CLOCK_SKEW_MS as i128
    };
    if !skew_ok {
        return Err(FrameError::StaleTimestamp);
    }
    match verify_frame(secret_b64, frame, now_ms) {
        Ok(_) => {},
        Err(_) => {
            return Err(FrameError::BadSignature);
        },
    }
    let fresh = nonces.observe(frame.nonce.as_str());
    if !fresh {
        return Err(FrameError::ReplayedNonce);
    }
    Ok(())
}

/// Admit a `hello` into the session: refresh a known peer, or add a new one
/// while the group, the local peer included, stays within its cap of
/// `MAX_PEERS`. A hello that would make the group larger is turned away.
pub fn admit_hello(
    session: &mut FriendLinkSessionRecord,
    peer_id: String,
    display_name: String,
    endpoint: String,
    seen_at: String,
) -> (r: Result<(), String>)
    ensures
        r is Err <==> (!has_peer(old(session).peers@, peer_id@) && old(session).peers@.len() + 1
            >= crate::MAX_PEERS),
        r is Ok ==> has_peer(final(session).peers@, peer_id@),
        r is Ok && has_peer(old(session).peers@, peer_id@) ==> final(session).peers@.len() == old(
            session,
        ).peers@.len(),
        r is Ok && !has_peer(old(session).peers@, peer_id@) ==> final(session).peers@.len() == old(
            session,
        ).peers@.len() + 1 && old(session).peers@.len() + 1 < crate::MAX_PEERS,
        r is Err ==> *final(session) == *old(session),
        *final(session) == (FriendLinkSessionRecord { peers: final(session).peers, ..*old(session) }),
{
    let mut i: usize = 0;
    while i < session.peers.len()
        invariant
            *session == *old(session),
            i <= session.peers@.len(),
            forall|m: int| 0 <= m < i ==> (#[trigger] session.peers@[m]).peer_id@ != peer_id@,
        decreases session.peers@.len() - i,
    {
        if crate::text::str_eq(&session.peers[i].peer_id, &peer_id) {
            proof {
                assert(has_peer(old(session).peers@, peer_id@)) by {
                    assert(old(session).peers@[i as int].peer_id@ == peer_id@);
                }
            }
            let ghost pid = peer_id@;
            let updated = FriendPeerRecord {
                peer_id,
                display_name,
                endpoint,
                added_at: crate::state::clone_string(&session.peers[i].added_at),
                last_seen_at: Option::Some(seen_at),
                online: true,
                last_state_hash: match &session.peers[i].last_state_hash {
                    Option::Some(h) => Option::Some(crate::state::clone_string(h)),
                    Option::None => Option::None,
                },
            };
            session.peers[i] = updated;
            proof {
                assert(has_peer(session.peers@, pid)) by {
                    assert(session.peers@[i as int].peer_id@ == pid);
                }
            }
            return Ok(());
        }
        i = i + 1;
    }
    proof {
        if has_peer(session.peers@, peer_id@) {
            let w = choose|w: int|
                0 <= w < session.peers@.len() && (#[trigger] session.peers@[w]).peer_id@
                    == peer_id@;
            assert(false);
        }
    }
    if session.peers.len() >= crate::MAX_PEERS - 1 {
        return Err(crate::state::lit_string("group is full (max 8 peers)"));
    }
    let ghost pid = peer_id@;
    session.peers.push(
        FriendPeerRecord {
            peer_id,
            display_name,
            endpoint,
            added_at: crate::state::clone_string(&seen_at),
            last_seen_at: Option::Some(seen_at),
            online: true,
            last_state_hash: Option::None,
        },
    );
    proof {
        assert(has_peer(session.peers@, pid)) by {
            assert(session.peers@[session.peers@.len() - 1].peer_id@ == pid);
        }
    }
    Ok(())
}

} // verus!

verus! {

/// Format a listener endpoint from the local address and a bound port.
pub fn endpoint_for_port(local_ip: &str, port: u16) -> (r: String)
    ensures
        r@ == local_ip@ + seq![':'] + crate::text::dec_spec(port as nat),
{
    let mut out: Vec<char> = Vec::new();
    crate::text::push_str_chars(&mut out, local_ip);
    out.push(':');
    let d = crate::text::dec_u64(port as u64);
    crate::text::push_all(&mut out, &d);
    proof {
        assert(out@ =~= local_ip@ + seq![':'] + crate::text::dec_spec(port as nat));
    }
    crate::text::string_from_chars(&out)
}

} // verus!
