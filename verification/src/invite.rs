//! Invite tokens: an opaque URL-safe base64 rendering of a canonical JSON
//! payload carrying the group id, the bootstrap endpoint, the shared
//! secret, an expiry timestamp, the protocol version and the issuer's
//! peer id.
use vstd::prelude::*;

use crate::b64::{b64_decode_spec, b64_encode_spec};
use crate::jsontext::{jstr_spec, lit_at, parse_jstr_spec, push_json_string};
use crate::text::{dec_spec, digit_val_spec, parse_dec_spec, trim_spec};

verus! {

/// The decoded contents of an invite token.
pub struct InvitePayload {
    pub group_id: String,
    pub bootstrap_peer_endpoint: String,
    pub shared_secret: String,
    pub expires_at: String,
    pub protocol_version: u32,
    pub host_peer_id: String,
}

/// An issued invite, as handed to the caller.
pub struct FriendLinkInvite {
    pub invite_code: String,
    pub group_id: String,
    pub expires_at: String,
    pub bootstrap_peer_endpoint: String,
    pub protocol_version: u32,
}

/// The field views of an invite payload.
pub ghost struct InviteFields {
    pub group_id: Seq<char>,
    pub endpoint: Seq<char>,
    pub secret: Seq<char>,
    pub expires_at: Seq<char>,
    pub protocol_version: nat,
    pub host_peer_id: Seq<char>,
}

/// The canonical JSON text of an invite payload.
pub open spec fn invite_json(f: InviteFields) -> Seq<char> {
    "{\"group_id\":"@ + jstr_spec(f.group_id) + ",\"bootstrap_peer_endpoint\":"@ + jstr_spec(
        f.endpoint,
    ) + ",\"shared_secret\":"@ + jstr_spec(f.secret) + ",\"expires_at\":"@ + jstr_spec(
        f.expires_at,
    ) + ",\"protocol_version\":"@ + dec_spec(f.protocol_version) + ",\"host_peer_id\":"@
        + jstr_spec(f.host_peer_id) + seq!['}']
}

/// The first index at or past `i` holding a non-digit, or the end.
pub open spec fn digits_end_spec(t: Seq<char>, i: int) -> int
    decreases t.len() - i,
{
    if i < 0 || i >= t.len() {
        i
    } else if digit_val_spec(t[i]) is Some {
        digits_end_spec(t, i + 1)
    } else {
        i
    }
}

/// Read the canonical invite JSON: each labelled string field in order,
/// then the decimal protocol version, then the closing brace.
pub open spec fn invite_fields_spec(t: Seq<char>) -> Option<InviteFields> {
    if !lit_at(t, 0, "{\"group_id\":"@) {
        Option::None
    } else {
        let p1 = "{\"group_id\":"@.len() as int;
        match parse_jstr_spec(t.skip(p1)) {
            Option::None => Option::None,
            Option::Some((group_id, n1)) => {
                let p2 = p1 + n1;
                if !lit_at(t, p2, ",\"bootstrap_peer_endpoint\":"@) {
                    Option::None
                } else {
                    let p3 = p2 + ",\"bootstrap_peer_endpoint\":"@.len();
                    match parse_jstr_spec(t.skip(p3)) {
                        Option::None => Option::None,
                        Option::Some((endpoint, n2)) => {
                            let p4 = p3 + n2;
                            if !lit_at(t, p4, ",\"shared_secret\":"@) {
                                Option::None
                            } else {
                                let p5 = p4 + ",\"shared_secret\":"@.len();
                                match parse_jstr_spec(t.skip(p5)) {
                                    Option::None => Option::None,
                                    Option::Some((secret, n3)) => {
                                        let p6 = p5 + n3;
                                        invite_fields_tail(t, p6, group_id, endpoint, secret)
                                    },
                                }
                            }
                        },
                    }
                }
            },
        }
    }
}

/// The tail of the invite grammar: expiry, version, host id, close.
pub open spec fn invite_fields_tail(
    t: Seq<char>,
    p6: int,
    group_id: Seq<char>,
    endpoint: Seq<char>,
    secret: Seq<char>,
) -> Option<InviteFields> {
    if !lit_at(t, p6, ",\"expires_at\":"@) {
        Option::None
    } else {
        let p7 = p6 + ",\"expires_at\":"@.len();
        match parse_jstr_spec(t.skip(p7)) {
            Option::None => Option::None,
            Option::Some((expires_at, n4)) => {
                let p8 = p7 + n4;
                if !lit_at(t, p8, ",\"protocol_version\":"@) {
                    Option::None
                } else {
                    let p9 = p8 + ",\"protocol_version\":"@.len();
                    let p10 = digits_end_spec(t, p9);
                    match parse_dec_spec(t.subrange(p9, p10)) {
                        Option::None => Option::None,
                        Option::Some(ver) => {
                            if ver > u32::MAX {
                                Option::None
                            } else if !lit_at(t, p10, ",\"host_peer_id\":"@) {
                                Option::None
                            } else {
                                let p11 = p10 + ",\"host_peer_id\":"@.len();
                                match parse_jstr_spec(t.skip(p11)) {
                                    Option::None => Option::None,
                                    Option::Some((host, n5)) => {
                                        let p12 = p11 + n5;
                                        if p12 + 1 == t.len() && t[p12] == '}' {
                                            Option::Some(
                                                InviteFields {
                                                    group_id,
                                                    endpoint,
                                                    secret,
                                                    expires_at,
                                                    protocol_version: ver,
                                                    host_peer_id: host,
                                                },
                                            )
                                        } else {
                                            Option::None
                                        }
                                    },
                                }
                            }
                        },
                    }
                }
            },
        }
    }
}

/// What a whole invite code stands for: URL-safe base64 of UTF-8 text in
/// the canonical invite grammar.
pub open spec fn invite_code_fields(code: Seq<char>) -> Option<InviteFields> {
    match b64_decode_spec(trim_spec(code), true, false) {
        Option::None => Option::None,
        Option::Some(bytes) => {
            if vstd::utf8::valid_utf8(bytes) {
                invite_fields_spec(vstd::utf8::decode_utf8(bytes))
            } else {
                Option::None
            }
        },
    }
}

/// Build an invite for a session: the token encodes the canonical JSON of
/// the session's group, the given endpoint, its secret, an expiry 24 hours
/// past `now_ms`, the protocol version and the local peer id.
#[verifier::rlimit(50)]
pub fn build_invite(session: &crate::session::FriendLinkSessionRecord, fallback_endpoint: &str, now_ms: i64) -> (r:
    FriendLinkInvite)
    requires
        0 <= now_ms < 253_402_300_800_000 - 86_400_000,
    ensures
        ({
            let endpoint = match session.listener_endpoint {
                Option::Some(e) => e@,
                Option::None => fallback_endpoint@,
            };
            let f = InviteFields {
                group_id: session.group_id@,
                endpoint,
                secret: session.shared_secret_b64@,
                expires_at: crate::trusted::rfc3339_utc_of(now_ms + 86_400_000),
                protocol_version: crate::PROTOCOL_VERSION as nat,
                host_peer_id: session.local_peer_id@,
            };
            &&& r.invite_code@ == b64_encode_spec(
                vstd::utf8::encode_utf8(invite_json(f)),
                true,
                false,
            )
            &&& r.group_id@ == session.group_id@
            &&& r.bootstrap_peer_endpoint@ == endpoint
            &&& r.expires_at@ == crate::trusted::rfc3339_utc_of(now_ms + 86_400_000)
            &&& crate::trusted::rfc3339_parse_ms_of(r.expires_at@) == Option::<int>::Some(
                now_ms + 86_400_000,
            )
            &&& r.protocol_version == crate::PROTOCOL_VERSION
        }),
{
    let endpoint: String = match &session.listener_endpoint {
        Option::Some(e) => crate::state::clone_string(e),
        Option::None => crate::state::lit_string(fallback_endpoint),
    };
    let expires_at = crate::trusted::format_rfc3339_ms(now_ms + 86_400_000);
    let mut j: Vec<char> = Vec::new();
    crate::text::push_str_chars(&mut j, "{\"group_id\":");
    push_json_string(&mut j, session.group_id.as_str());
    crate::text::push_str_chars(&mut j, ",\"bootstrap_peer_endpoint\":");
    push_json_string(&mut j, endpoint.as_str());
    crate::text::push_str_chars(&mut j, ",\"shared_secret\":");
    push_json_string(&mut j, session.shared_secret_b64.as_str());
    crate::text::push_str_chars(&mut j, ",\"expires_at\":");
    push_json_string(&mut j, expires_at.as_str());
    crate::text::push_str_chars(&mut j, ",\"protocol_version\":");
    crate::jsontext::push_dec_u64(&mut j, crate::PROTOCOL_VERSION as u64);
    crate::text::push_str_chars(&mut j, ",\"host_peer_id\":");
    push_json_string(&mut j, session.local_peer_id.as_str());
    j.push('}');
    let ghost f = InviteFields {
        group_id: session.group_id@,
        endpoint: endpoint@,
        secret: session.shared_secret_b64@,
        expires_at: expires_at@,
        protocol_version: crate::PROTOCOL_VERSION as nat,
        host_peer_id: session.local_peer_id@,
    };
    proof {
        assert(j@ =~= invite_json(f));
    }
    let text = crate::text::string_from_chars(&j);
    let bytes = text.as_str().as_bytes_vec();
    let code = crate::b64::b64url_encode(&bytes);
    FriendLinkInvite {
        invite_code: code,
        group_id: crate::state::clone_string(&session.group_id),
        expires_at,
        bootstrap_peer_endpoint: endpoint,
        protocol_version: crate::PROTOCOL_VERSION,
    }
}

/// Whether structurally sound fields pass invite validation at time `now`:
/// the group, endpoint and secret must not be blank, and the expiry must
/// parse and lie in the future.
pub open spec fn invite_fields_valid(f: InviteFields, now_ms: int) -> bool {
    &&& trim_spec(f.group_id).len() > 0
    &&& trim_spec(f.endpoint).len() > 0
    &&& trim_spec(f.secret).len() > 0
    &&& match crate::trusted::rfc3339_parse_ms_of(f.expires_at) {
        Option::Some(t) => t >= now_ms,
        Option::None => false,
    }
}

/// Parse and validate an invite code at time `now_ms`: succeeds exactly on
/// a canonical token whose fields validate, and returns those fields.
/// Read the wire form of an invite code without validating its fields.
#[verifier::rlimit(100)]
fn parse_invite_wire(code: &str) -> (r: Result<InvitePayload, String>)
    ensures
        match r {
            Ok(p) => match invite_code_fields(code@) {
                Option::Some(f) => {
                    &&& p.group_id@ == f.group_id
                    &&& p.bootstrap_peer_endpoint@ == f.endpoint
                    &&& p.shared_secret@ == f.secret
                    &&& p.expires_at@ == f.expires_at
                    &&& p.protocol_version as nat == f.protocol_version
                    &&& p.host_peer_id@ == f.host_peer_id
                },
                Option::None => false,
            },
            Err(_) => invite_code_fields(code@) is None,
        },
{
    let trimmed = crate::text::trim_string(code);
    let bytes = match crate::b64::b64url_decode(trimmed.as_str()) {
        Option::Some(b) => b,
        Option::None => {
            return Err(crate::state::lit_string("decode invite code failed"));
        },
    };
    let text = match crate::trusted::utf8_to_string(bytes) {
        Ok(t) => t,
        Err(_) => {
            return Err(crate::state::lit_string("parse invite payload failed"));
        },
    };
    let v = crate::text::chars_vec(text.as_str());
    proof {
        vstd::utf8::encode_utf8_decode_utf8(text@);
    }
    let p1 = match crate::jsontext::expect_lit(&v, 0, "{\"group_id\":") {
        Option::Some(n) => n,
        Option::None => {
            return Err(crate::state::lit_string("parse invite payload failed"));
        },
    };
    let (group_id, p2) = match crate::jsontext::parse_json_string_at(&v, p1) {
        Option::Some(x) => x,
        Option::None => {
            return Err(crate::state::lit_string("parse invite payload failed"));
        },
    };
    let p3 = match crate::jsontext::expect_lit(&v, p2, ",\"bootstrap_peer_endpoint\":") {
        Option::Some(n) => n,
        Option::None => {
            return Err(crate::state::lit_string("parse invite payload failed"));
        },
    };
    let (endpoint, p4) = match crate::jsontext::parse_json_string_at(&v, p3) {
        Option::Some(x) => x,
        Option::None => {
            return Err(crate::state::lit_string("parse invite payload failed"));
        },
    };
    let p5 = match crate::jsontext::expect_lit(&v, p4, ",\"shared_secret\":") {
        Option::Some(n) => n,
        Option::None => {
            return Err(crate::state::lit_string("parse invite payload failed"));
        },
    };
    let (secret, p6) = match crate::jsontext::parse_json_string_at(&v, p5) {
        Option::Some(x) => x,
        Option::None => {
            return Err(crate::state::lit_string("parse invite payload failed"));
        },
    };
    let p7 = match crate::jsontext::expect_lit(&v, p6, ",\"expires_at\":") {
        Option::Some(n) => n,
        Option::None => {
            return Err(crate::state::lit_string("parse invite payload failed"));
        },
    };
    let (expires_at, p8) = match crate::jsontext::parse_json_string_at(&v, p7) {
        Option::Some(x) => x,
        Option::None => {
            return Err(crate::state::lit_string("parse invite payload failed"));
        },
    };
    let p9 = match crate::jsontext::expect_lit(&v, p8, ",\"protocol_version\":") {
        Option::Some(n) => n,
        Option::None => {
            return Err(crate::state::lit_string("parse invite payload failed"));
        },
    };
    let p10 = scan_digits(&v, p9);
    proof {
        lemma_digits_end(v@, p9 as int, p10 as int);
    }
    let ver = match crate::text::parse_dec_bounded(&v, p9, p10, 4_294_967_295u64) {
        Option::Some(n) => n,
        Option::None => {
            return Err(crate::state::lit_string("parse invite payload failed"));
        },
    };
    let p11 = match crate::jsontext::expect_lit(&v, p10, ",\"host_peer_id\":") {
        Option::Some(n) => n,
        Option::None => {
            return Err(crate::state::lit_string("parse invite payload failed"));
        },
    };
    let (host, p12) = match crate::jsontext::parse_json_string_at(&v, p11) {
        Option::Some(x) => x,
        Option::None => {
            return Err(crate::state::lit_string("parse invite payload failed"));
        },
    };
    if p12 >= v.len() || v.len() - p12 != 1 {
        return Err(crate::state::lit_string("parse invite payload failed"));
    }
    if v[p12] != '}' {
        return Err(crate::state::lit_string("parse invite payload failed"));
    }
    let group_s = crate::text::string_from_chars(&group_id);
    let endpoint_s = crate::text::string_from_chars(&endpoint);
    let secret_s = crate::text::string_from_chars(&secret);
    let expires_s = crate::text::string_from_chars(&expires_at);
    let host_s = crate::text::string_from_chars(&host);
    Ok(
        InvitePayload {
            group_id: group_s,
            bootstrap_peer_endpoint: endpoint_s,
            shared_secret: secret_s,
            expires_at: expires_s,
            protocol_version: ver as u32,
            host_peer_id: host_s,
        },
    )
}

/// Parse and validate an invite code at time `now_ms`: succeeds exactly on
/// a canonical token whose fields validate, and returns those fields.
pub fn parse_invite(code: &str, now_ms: i64) -> (r: Result<InvitePayload, String>)
    ensures
        match r {
            Ok(p) => match invite_code_fields(code@) {
                Option::Some(f) => {
                    &&& p.group_id@ == f.group_id
                    &&& p.bootstrap_peer_endpoint@ == f.endpoint
                    &&& p.shared_secret@ == f.secret
                    &&& p.expires_at@ == f.expires_at
                    &&& p.protocol_version as nat == f.protocol_version
                    &&& p.host_peer_id@ == f.host_peer_id
                    &&& invite_fields_valid(f, now_ms as int)
                },
                Option::None => false,
            },
            Err(_) => match invite_code_fields(code@) {
                Option::Some(f) => !invite_fields_valid(f, now_ms as int),
                Option::None => true,
            },
        },
{
    let payload = match parse_invite_wire(code) {
        Ok(p) => p,
        Err(e) => {
            return Err(e);
        },
    };
    let g_t = crate::text::trim_string(payload.group_id.as_str());
    if g_t.as_str().is_empty() {
        return Err(crate::state::lit_string("Invite is missing group id"));
    }
    let e_t = crate::text::trim_string(payload.bootstrap_peer_endpoint.as_str());
    if e_t.as_str().is_empty() {
        return Err(crate::state::lit_string("Invite is missing bootstrap endpoint"));
    }
    let s_t = crate::text::trim_string(payload.shared_secret.as_str());
    if s_t.as_str().is_empty() {
        return Err(crate::state::lit_string("Invite is missing shared secret"));
    }
    let expires_ms = match crate::trusted::parse_rfc3339_ms(payload.expires_at.as_str()) {
        Option::Some(t) => t,
        Option::None => {
            return Err(crate::state::lit_string("invalid invite expiration timestamp"));
        },
    };
    if expires_ms < now_ms {
        return Err(crate::state::lit_string("Invite code has expired"));
    }
    Ok(payload)
}

/// The first index at or past `start` holding a non-digit character.
fn scan_digits(v: &Vec<char>, start: usize) -> (r: usize)
    requires
        start <= v@.len(),
    ensures
        start <= r <= v@.len(),
        forall|m: int| start <= m < r ==> digit_val_spec(v@[m]) is Some,
        r == v@.len() || digit_val_spec(v@[r as int]) is None,
{
    let mut p: usize = start;
    while p < v.len()
        invariant
            start <= p <= v@.len(),
            forall|m: int| start <= m < p ==> digit_val_spec(v@[m]) is Some,
        decreases v@.len() - p,
    {
        let d = v[p];
        let is_digit = d == '0' || d == '1' || d == '2' || d == '3' || d == '4' || d == '5' || d
            == '6' || d == '7' || d == '8' || d == '9';
        if !is_digit {
            return p;
        }
        p = p + 1;
    }
    p
}

/// The digit scan stops exactly where the spec says digits end.
proof fn lemma_digits_end(t: Seq<char>, start: int, stop: int)
    requires
        0 <= start <= stop <= t.len(),
        forall|m: int| start <= m < stop ==> digit_val_spec(t[m]) is Some,
        stop == t.len() || digit_val_spec(t[stop]) is None,
    ensures
        digits_end_spec(t, start) == stop,
    decreases stop - start,
{
    if start < stop {
        lemma_digits_end(t, start + 1, stop);
    }
}

} // verus!

verus! {

/// Reading an issued invite token back yields exactly the fields it was
/// built from: the invite code round-trips.
#[verifier::rlimit(100)]
pub proof fn lemma_invite_roundtrip(f: InviteFields)
    requires
        f.protocol_version <= u32::MAX,
    ensures
        invite_code_fields(
            crate::b64::b64_encode_spec(vstd::utf8::encode_utf8(invite_json(f)), true, false),
        ) == Option::Some(f),
{
    let j = invite_json(f);
    let bytes = vstd::utf8::encode_utf8(j);
    let code = crate::b64::b64_encode_spec(bytes, true, false);
    // The code holds no whitespace, so trimming leaves it unchanged.
    crate::b64::lemma_b64_encode_no_space(bytes, true, false);
    crate::text::lemma_trim_no_space(code);
    // Decoding the code restores the UTF-8 bytes, and those decode to the
    // canonical JSON text.
    crate::b64::lemma_b64_roundtrip(bytes, true, false);
    assert(crate::b64::b64_decode_spec(trim_spec(code), true, false) == Option::Some(bytes));
    vstd::utf8::encode_utf8_valid_utf8(j);
    vstd::utf8::encode_utf8_decode_utf8(j);
    lemma_invite_json_parses(f);
}

/// The canonical invite JSON parses back to its fields.
#[verifier::rlimit(100)]
proof fn lemma_invite_json_parses(f: InviteFields)
    requires
        f.protocol_version <= u32::MAX,
    ensures
        invite_fields_spec(invite_json(f)) == Option::Some(f),
{
    let t = invite_json(f);
    let l1 = "{\"group_id\":"@;
    let l2 = ",\"bootstrap_peer_endpoint\":"@;
    let l3 = ",\"shared_secret\":"@;
    let l4 = ",\"expires_at\":"@;
    let l5 = ",\"protocol_version\":"@;
    let l6 = ",\"host_peer_id\":"@;
    let g = jstr_spec(f.group_id);
    let e = jstr_spec(f.endpoint);
    let s = jstr_spec(f.secret);
    let x = jstr_spec(f.expires_at);
    let d = dec_spec(f.protocol_version);
    let h = jstr_spec(f.host_peer_id);
    let rest3 = l4 + x + l5 + d + l6 + h + seq!['}'];
    let rest2 = l3 + s + rest3;
    let rest1 = l2 + e + rest2;
    assert(t =~= l1 + (g + rest1));
    let p1 = l1.len() as int;
    let p2 = p1 + g.len();
    assert(crate::jsontext::lit_at(t, 0, l1)) by {
        assert(t.subrange(0, p1) =~= l1);
    }
    assert(t.skip(p1) =~= g + rest1);
    crate::jsontext::lemma_parse_jstr_roundtrip(f.group_id, rest1);
    assert(parse_jstr_spec(t.skip(p1)) == Option::<(Seq<char>, nat)>::Some(
        (f.group_id, g.len() as nat),
    ));
    assert(t.skip(p2) =~= rest1);
    assert(t.skip(p2) =~= l2 + e + l3 + s + (l4 + x + l5 + d + l6 + h + seq!['}']));
    lemma_invite_strings_parse(f, t, p2);
    let p6 = p2 + l2.len() + e.len() + l3.len() + s.len();
    assert(t.skip(p6) =~= l4 + x + l5 + d + l6 + h + seq!['}']);
    lemma_invite_tail_parses(f, t, p6);
    assert(invite_fields_spec(t) == invite_fields_tail(t, p6, f.group_id, f.endpoint, f.secret));
}

/// The endpoint and secret fields of the canonical invite JSON parse at
/// their positions.
#[verifier::rlimit(100)]
proof fn lemma_invite_strings_parse(f: InviteFields, t: Seq<char>, p2: int)
    requires
        0 <= p2 <= t.len(),
        t.skip(p2) == ",\"bootstrap_peer_endpoint\":"@ + jstr_spec(f.endpoint)
            + ",\"shared_secret\":"@ + jstr_spec(f.secret) + (",\"expires_at\":"@ + jstr_spec(
            f.expires_at,
        ) + ",\"protocol_version\":"@ + dec_spec(f.protocol_version) + ",\"host_peer_id\":"@
            + jstr_spec(f.host_peer_id) + seq!['}']),
    ensures
        ({
            let l2 = ",\"bootstrap_peer_endpoint\":"@;
            let l3 = ",\"shared_secret\":"@;
            let e = jstr_spec(f.endpoint);
            let s = jstr_spec(f.secret);
            let p3 = p2 + l2.len();
            let p4 = p3 + e.len();
            let p5 = p4 + l3.len();
            let p6 = p5 + s.len();
            &&& crate::jsontext::lit_at(t, p2, l2)
            &&& parse_jstr_spec(t.skip(p3)) == Option::<(Seq<char>, nat)>::Some(
                (f.endpoint, e.len() as nat),
            )
            &&& crate::jsontext::lit_at(t, p4, l3)
            &&& parse_jstr_spec(t.skip(p5)) == Option::<(Seq<char>, nat)>::Some(
                (f.secret, s.len() as nat),
            )
            &&& t.skip(p6) == ",\"expires_at\":"@ + jstr_spec(f.expires_at)
                + ",\"protocol_version\":"@ + dec_spec(f.protocol_version)
                + ",\"host_peer_id\":"@ + jstr_spec(f.host_peer_id) + seq!['}']
        }),
{
    let l2 = ",\"bootstrap_peer_endpoint\":"@;
    let l3 = ",\"shared_secret\":"@;
    let e = jstr_spec(f.endpoint);
    let s = jstr_spec(f.secret);
    let rest3 = ",\"expires_at\":"@ + jstr_spec(f.expires_at) + ",\"protocol_version\":"@
        + dec_spec(f.protocol_version) + ",\"host_peer_id\":"@ + jstr_spec(f.host_peer_id)
        + seq!['}'];
    let rest2 = l3 + s + rest3;
    let rest1 = t.skip(p2);
    assert(rest1 =~= l2 + (e + rest2));
    let p3 = p2 + l2.len();
    let p4 = p3 + e.len();
    let p5 = p4 + l3.len();
    let p6 = p5 + s.len();
    assert(crate::jsontext::lit_at(t, p2, l2)) by {
        assert(t.subrange(p2, p2 + l2.len() as int) =~= rest1.subrange(0, l2.len() as int));
        assert(rest1.subrange(0, l2.len() as int) =~= l2);
    }
    assert(t.skip(p3) =~= e + rest2) by {
        assert(t.skip(p3) =~= rest1.skip(l2.len() as int));
        assert(rest1.skip(l2.len() as int) =~= e + rest2);
    }
    crate::jsontext::lemma_parse_jstr_roundtrip(f.endpoint, rest2);
    let after_e = t.skip(p4);
    assert(after_e =~= rest2) by {
        assert(t.skip(p4) =~= (e + rest2).skip(e.len() as int));
        assert((e + rest2).skip(e.len() as int) =~= rest2);
    }
    assert(crate::jsontext::lit_at(t, p4, l3)) by {
        assert(t.subrange(p4, p4 + l3.len() as int) =~= after_e.subrange(0, l3.len() as int));
        assert(after_e.subrange(0, l3.len() as int) =~= l3);
    }
    assert(t.skip(p5) =~= s + rest3) by {
        assert(t.skip(p5) =~= after_e.skip(l3.len() as int));
        assert(after_e.skip(l3.len() as int) =~= s + rest3);
    }
    crate::jsontext::lemma_parse_jstr_roundtrip(f.secret, rest3);
    assert(t.skip(p6) =~= rest3) by {
        assert(t.skip(p6) =~= (s + rest3).skip(s.len() as int));
        assert((s + rest3).skip(s.len() as int) =~= rest3);
    }
    assert(t.skip(p6) =~= ",\"expires_at\":"@ + jstr_spec(f.expires_at)
        + ",\"protocol_version\":"@ + dec_spec(f.protocol_version) + ",\"host_peer_id\":"@
        + jstr_spec(f.host_peer_id) + seq!['}']);
}

/// The tail of the canonical invite JSON parses back to its fields.
#[verifier::rlimit(100)]
proof fn lemma_invite_tail_parses(f: InviteFields, t: Seq<char>, p6: int)
    requires
        f.protocol_version <= u32::MAX,
        0 <= p6 <= t.len(),
        t.skip(p6) == ",\"expires_at\":"@ + jstr_spec(f.expires_at) + ",\"protocol_version\":"@
            + dec_spec(f.protocol_version) + ",\"host_peer_id\":"@ + jstr_spec(f.host_peer_id)
            + seq!['}'],
    ensures
        invite_fields_tail(t, p6, f.group_id, f.endpoint, f.secret) == Option::Some(f),
{
    let l4 = ",\"expires_at\":"@;
    let l5 = ",\"protocol_version\":"@;
    let l6 = ",\"host_peer_id\":"@;
    reveal_strlit(",\"expires_at\":");
    reveal_strlit(",\"protocol_version\":");
    reveal_strlit(",\"host_peer_id\":");
    let x = jstr_spec(f.expires_at);
    let d = dec_spec(f.protocol_version);
    let h = jstr_spec(f.host_peer_id);
    let rest5 = l5 + d + l6 + h + seq!['}'];
    let rest6 = l6 + h + seq!['}'];
    let tail = t.skip(p6);
    assert(tail =~= l4 + (x + rest5));
    assert(t.len() == p6 + tail.len());
    let p7 = p6 + l4.len();
    let p8 = p7 + x.len();
    let p9 = p8 + l5.len();
    let p10 = p9 + d.len();
    let p11 = p10 + l6.len();
    let p12 = p11 + h.len();
    assert(crate::jsontext::lit_at(t, p6, l4)) by {
        assert(t.subrange(p6, p6 + l4.len() as int) =~= tail.subrange(0, l4.len() as int));
        assert(tail.subrange(0, l4.len() as int) =~= l4);
    }
    assert(t.skip(p7) =~= x + rest5) by {
        assert(t.skip(p7) =~= tail.skip(l4.len() as int));
        assert(tail.skip(l4.len() as int) =~= x + rest5);
    }
    crate::jsontext::lemma_parse_jstr_roundtrip(f.expires_at, rest5);
    assert(parse_jstr_spec(t.skip(p7)) == Option::<(Seq<char>, nat)>::Some(
        (f.expires_at, x.len() as nat),
    ));
    let after_x = t.skip(p8);
    assert(after_x =~= rest5) by {
        assert(t.skip(p8) =~= (x + rest5).skip(x.len() as int));
        assert((x + rest5).skip(x.len() as int) =~= rest5);
    }
    assert(after_x =~= l5 + d + rest6);
    assert(crate::jsontext::lit_at(t, p8, l5)) by {
        assert(t.subrange(p8, p8 + l5.len() as int) =~= after_x.subrange(0, l5.len() as int));
        assert(after_x.subrange(0, l5.len() as int) =~= l5);
    }
    crate::text::lemma_dec_all_digits(f.protocol_version);
    assert forall|m: int| p9 <= m < p10 implies digit_val_spec(t[m]) is Some by {
        assert(t[m] == after_x[m - p8]);
        assert(after_x[m - p8] == d[m - p9]);
    }
    assert(t[p10] == after_x[p10 - p8]);
    assert(after_x == l5 + d + rest6);
    assert((l5 + d + rest6)[(l5.len() + d.len()) as int] == rest6[0]) by {
        assert((l5 + d).len() == l5.len() + d.len());
    }
    assert(after_x[p10 - p8] == rest6[0]);
    assert(rest6[0] == (l6 + h)[0]);
    assert((l6 + h)[0] == l6[0]);
    assert(rest6[0] == l6[0]);
    assert(digit_val_spec(l6[0]) is None) by {
        reveal_strlit(",\"host_peer_id\":");
        assert(l6[0] == ',');
    }
    lemma_digits_end(t, p9, p10);
    assert(t.subrange(p9, p10) =~= d) by {
        assert(forall|k: int|
            0 <= k < d.len() ==> #[trigger] t.subrange(p9, p10)[k] == after_x[l5.len() + k]);
        assert(forall|k: int| 0 <= k < d.len() ==> #[trigger] after_x[l5.len() + k] == d[k]);
    }
    crate::text::lemma_dec_roundtrip(f.protocol_version);
    assert(parse_dec_spec(t.subrange(p9, p10)) == Option::Some(f.protocol_version));
    assert(crate::jsontext::lit_at(t, p10, l6)) by {
        assert(t.subrange(p10, p10 + l6.len() as int) =~= after_x.subrange(
            (l5.len() + d.len()) as int,
            (l5.len() + d.len() + l6.len()) as int,
        ));
        assert(after_x.subrange(
            (l5.len() + d.len()) as int,
            (l5.len() + d.len() + l6.len()) as int,
        ) =~= rest6.subrange(0, l6.len() as int));
        assert(rest6.subrange(0, l6.len() as int) =~= l6);
    }
    assert(t.skip(p11) =~= h + seq!['}']) by {
        assert(rest6.skip(l6.len() as int) =~= h + seq!['}']);
        assert forall|k: int| 0 <= k < t.skip(p11).len() implies t.skip(p11)[k] == rest6.skip(
            l6.len() as int,
        )[k] by {
            assert(t.skip(p11)[k] == t[p11 + k]);
            assert(after_x[(p11 - p8) + k] == t[p8 + ((p11 - p8) + k)]);
            assert(after_x[(p11 - p8) + k] == rest6[l6.len() + k]);
            assert(rest6.skip(l6.len() as int)[k] == rest6[l6.len() + k]);
        }
        assert(t.skip(p11) =~= rest6.skip(l6.len() as int));
    }
    crate::jsontext::lemma_parse_jstr_roundtrip(f.host_peer_id, seq!['}']);
    assert(t.skip(p11) == h + seq!['}']);
    assert(parse_jstr_spec(h + seq!['}']) == Option::<(Seq<char>, nat)>::Some(
        (f.host_peer_id, (jstr_spec(f.host_peer_id).len() + 0) as nat),
    )) by {
        assert(jstr_spec(f.host_peer_id).len() as nat == (jstr_spec(f.host_peer_id).len()
            + 0) as nat);
    }
    assert(parse_jstr_spec(t.skip(p11)) == Option::<(Seq<char>, nat)>::Some(
        (f.host_peer_id, h.len() as nat),
    ));
    assert(t[p12] == t.skip(p11)[h.len() as int]);
    assert((h + seq!['}'])[h.len() as int] == '}');
    assert(t[p12] == '}');
    assert(p12 + 1 == t.len());
    assert(invite_fields_tail(t, p6, f.group_id, f.endpoint, f.secret) == Option::Some(
        InviteFields {
            group_id: f.group_id,
            endpoint: f.endpoint,
            secret: f.secret,
            expires_at: f.expires_at,
            protocol_version: f.protocol_version,
            host_peer_id: f.host_peer_id,
        },
    ));
}

/// A token whose expiry timestamp lies before `now` never validates.
pub proof fn lemma_invite_expired_fails(f: InviteFields, now_ms: int)
    requires
        match crate::trusted::rfc3339_parse_ms_of(f.expires_at) {
            Option::Some(t) => t < now_ms,
            Option::None => true,
        },
    ensures
        !invite_fields_valid(f, now_ms),
{
}

} // verus!
