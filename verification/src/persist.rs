//! Persistence gateway: the durable snapshot of the application state.  The
//! codec is exact — a snapshot encodes to bytes whose decoding is proved to
//! give the state back — and reading is total: a missing or corrupted
//! snapshot falls back to the default state rather than failing.

use vstd::prelude::*;

verus! {

use vstd::bytes::lemma_auto_spec_u64_to_from_le_bytes;
use vstd::bytes::spec_u64_from_le_bytes;
use vstd::bytes::spec_u64_to_le_bytes;
use vstd::bytes::u64_from_le_bytes;
use vstd::bytes::u64_to_le_bytes;
use vstd::slice::slice_index_get;
use vstd::slice::slice_subrange;
use vstd::utf8::decode_utf8;
use vstd::utf8::encode_utf8;
use vstd::utf8::encode_utf8_decode_utf8;
use vstd::utf8::encode_utf8_valid_utf8;
use vstd::utf8::valid_utf8;
use crate::identity::CredModel;
use crate::identity::Credentials;

/// The durable subset of application state: the window label and the
/// credentials.  Ephemeral interface state is deliberately excluded, and so
/// is the message store: messages are reconstructed from peers.
pub struct PersistedState {
    pub label: String,
    pub credentials: Credentials,
}

/// Abstract value of the persisted state.
pub ghost struct StateModel {
    pub label: Seq<char>,
    pub credentials: CredModel,
}

impl View for PersistedState {
    type V = StateModel;

    open spec fn view(&self) -> StateModel {
        StateModel { label: self.label@, credentials: self.credentials@ }
    }
}

impl Clone for PersistedState {
    fn clone(&self) -> (r: Self)
        ensures
            r@ == self@,
    {
        PersistedState { label: self.label.clone(), credentials: self.credentials.clone() }
    }
}

/// The state a first run, or a run after a lost snapshot, starts from.
pub open spec fn default_model() -> StateModel {
    StateModel {
        label: "Dotti"@,
        credentials: CredModel {
            space_id: Seq::empty(),
            shared_token: Seq::empty(),
            cloud_sync_enabled: true,
            custom_auth_endpoint: None,
        },
    }
}

/// The default persisted state: the stock label, empty credentials, cloud
/// relay participation on.
pub fn default_state() -> (r: PersistedState)
    ensures
        r@ == default_model(),
{
    PersistedState {
        label: String::from_str("Dotti"),
        credentials: Credentials {
            space_id: String::new(),
            shared_token: String::new(),
            cloud_sync_enabled: true,
            custom_auth_endpoint: None,
        },
    }
}

/// A length-prefixed string: eight little-endian length bytes, then the
/// UTF-8 encoding.
pub open spec fn enc_str(s: Seq<char>) -> Seq<u8> {
    spec_u64_to_le_bytes(encode_utf8(s).len() as u64) + encode_utf8(s)
}

/// The snapshot encoding: a three-byte header, the label, the space
/// identifier, the shared token, the cloud flag, then the optional endpoint
/// behind a presence tag.
pub open spec fn spec_encode(m: StateModel) -> Seq<u8> {
    seq![0xD0u8, 0x77u8, 1u8] + enc_str(m.label) + enc_str(m.credentials.space_id) + enc_str(
        m.credentials.shared_token,
    ) + seq![if m.credentials.cloud_sync_enabled { 1u8 } else { 0u8 }] + (
    match m.credentials.custom_auth_endpoint {
        None => seq![0u8],
        Some(e) => seq![1u8] + enc_str(e),
    })
}

/// Reads one length-prefixed string at `pos`; `None` on truncation or bytes
/// that are not UTF-8.
pub open spec fn take_str(b: Seq<u8>, pos: int) -> Option<(Seq<char>, int)> {
    if pos + 8 > b.len() {
        None
    } else {
        let n = spec_u64_from_le_bytes(b.subrange(pos, pos + 8)) as int;
        if pos + 8 + n > b.len() {
            None
        } else {
            let body = b.subrange(pos + 8, pos + 8 + n);
            if valid_utf8(body) {
                Some((decode_utf8(body), pos + 8 + n))
            } else {
                None
            }
        }
    }
}

/// The snapshot decoding: `None` for anything but a complete, well-formed
/// snapshot — a bad header, a truncated field, an invalid flag or tag,
/// bytes that are not UTF-8, or trailing garbage.
pub open spec fn spec_decode(b: Seq<u8>) -> Option<StateModel> {
    if b.len() < 3 || b[0] != 0xD0u8 || b[1] != 0x77u8 || b[2] != 1u8 {
        None
    } else {
        match take_str(b, 3) {
            None => None,
            Some((label, p1)) => match take_str(b, p1) {
                None => None,
                Some((space_id, p2)) => match take_str(b, p2) {
                    None => None,
                    Some((token, p3)) => if p3 + 2 > b.len() || (b[p3] != 0u8 && b[p3] != 1u8) {
                        None
                    } else {
                        let cloud = b[p3] == 1u8;
                        if b[p3 + 1] == 0u8 {
                            if p3 + 2 == b.len() {
                                Some(
                                    StateModel {
                                        label,
                                        credentials: CredModel {
                                            space_id,
                                            shared_token: token,
                                            cloud_sync_enabled: cloud,
                                            custom_auth_endpoint: None,
                                        },
                                    },
                                )
                            } else {
                                None
                            }
                        } else if b[p3 + 1] == 1u8 {
                            match take_str(b, p3 + 2) {
                                None => None,
                                Some((endpoint, p4)) => if p4 == b.len() {
                                    Some(
                                        StateModel {
                                            label,
                                            credentials: CredModel {
                                                space_id,
                                                shared_token: token,
                                                cloud_sync_enabled: cloud,
                                                custom_auth_endpoint: Some(endpoint),
                                            },
                                        },
                                    )
                                } else {
                                    None
                                },
                            }
                        } else {
                            None
                        }
                    },
                },
            },
        }
    }
}

/// Relies on `String::from_utf8`: it succeeds exactly on valid UTF-8, and
/// the returned string holds those very bytes.
#[verifier::external_body]
fn utf8_to_string(v: &[u8]) -> (r: Option<String>)
    ensures
        r is Some <==> valid_utf8(v@),
        r matches Some(s) ==> encode_utf8(s@) == v@,
{
    String::from_utf8(v.to_vec()).ok()
}

fn write_str(out: &mut Vec<u8>, s: &String)
    ensures
        final(out)@ == old(out)@ + enc_str(s@),
        encode_utf8(s@).len() < 0x1_0000_0000_0000_0000,
{
    let bytes = s.as_str().as_bytes_vec();
    let blen: usize = bytes.len();
    let len64: u64 = blen as u64;
    proof {
        assert(encode_utf8(s@).len() == len64 as nat);
    }
    let mut lenb = u64_to_le_bytes(len64);
    let mut body = bytes;
    out.append(&mut lenb);
    out.append(&mut body);
}

/// Serializes the state.  The contract carries the round trip: decoding the
/// produced bytes gives this very state back, so nothing is lost across a
/// shutdown and restart.
pub fn encode(state: &PersistedState) -> (r: Vec<u8>)
    ensures
        r@ == spec_encode(state@),
        spec_decode(r@) == Some(state@),
{
    let mut out: Vec<u8> = Vec::new();
    out.push(0xD0u8);
    out.push(0x77u8);
    out.push(1u8);
    proof {
        assert(out@ =~= seq![0xD0u8, 0x77u8, 1u8]);
    }
    write_str(&mut out, &state.label);
    write_str(&mut out, &state.credentials.space_id);
    write_str(&mut out, &state.credentials.shared_token);
    if state.credentials.cloud_sync_enabled {
        out.push(1u8);
    } else {
        out.push(0u8);
    }
    match &state.credentials.custom_auth_endpoint {
        None => {
            out.push(0u8);
            proof {
                assert(out@ =~= spec_encode(state@));
            }
        },
        Some(e) => {
            out.push(1u8);
            write_str(&mut out, e);
            proof {
                assert(out@ =~= spec_encode(state@));
            }
        },
    }
    proof {
        lemma_round_trip(state@);
    }
    out
}

fn read_str(b: &[u8], pos: usize) -> (r: Option<(String, usize)>)
    requires
        pos <= b@.len(),
    ensures
        match r {
            Some(p) => take_str(b@, pos as int) == Some((p.0@, p.1 as int)) && pos < p.1 <= b@.len(),
            None => take_str(b@, pos as int) is None,
        },
{
    let blen = b.len();
    if blen - pos < 8 {
        return None;
    }
    let lenb = slice_subrange(b, pos, pos + 8);
    let n64 = u64_from_le_bytes(lenb);
    let avail = blen - (pos + 8);
    if n64 > avail as u64 {
        return None;
    }
    let n = n64 as usize;
    let body = slice_subrange(b, pos + 8, pos + 8 + n);
    match utf8_to_string(body) {
        None => None,
        Some(s) => {
            proof {
                encode_utf8_decode_utf8(s@);
            }
            Some((s, pos + 8 + n))
        },
    }
}

/// Deserializes a snapshot.  Total: a well-formed snapshot decodes to the
/// state it was encoded from, and anything else — truncated, mangled, or
/// from a different format — yields the default state.
pub fn decode(bytes: &[u8]) -> (r: PersistedState)
    ensures
        spec_decode(bytes@) matches Some(m) ==> r@ == m,
        spec_decode(bytes@) is None ==> r@ == default_model(),
{
    let blen = bytes.len();
    if blen < 3 {
        return default_state();
    }
    if *slice_index_get(bytes, 0) != 0xD0u8 || *slice_index_get(bytes, 1) != 0x77u8
        || *slice_index_get(bytes, 2) != 1u8 {
        return default_state();
    }
    let (label, p1) = match read_str(bytes, 3) {
        None => {
            return default_state();
        },
        Some(p) => p,
    };
    let (space_id, p2) = match read_str(bytes, p1) {
        None => {
            return default_state();
        },
        Some(p) => p,
    };
    let (token, p3) = match read_str(bytes, p2) {
        None => {
            return default_state();
        },
        Some(p) => p,
    };
    if blen - p3 < 2 {
        return default_state();
    }
    let cloud_byte = *slice_index_get(bytes, p3);
    if cloud_byte != 0u8 && cloud_byte != 1u8 {
        return default_state();
    }
    let cloud = cloud_byte == 1u8;
    let tag = *slice_index_get(bytes, p3 + 1);
    if tag == 0u8 {
        if blen - p3 == 2 {
            return PersistedState {
                label,
                credentials: Credentials {
                    space_id,
                    shared_token: token,
                    cloud_sync_enabled: cloud,
                    custom_auth_endpoint: None,
                },
            };
        }
        return default_state();
    }
    if tag != 1u8 {
        return default_state();
    }
    let (endpoint, p4) = match read_str(bytes, p3 + 2) {
        None => {
            return default_state();
        },
        Some(p) => p,
    };
    if p4 == blen {
        return PersistedState {
            label,
            credentials: Credentials {
                space_id,
                shared_token: token,
                cloud_sync_enabled: cloud,
                custom_auth_endpoint: Some(endpoint),
            },
        };
    }
    default_state()
}

/// Restores the state at startup.  A missing snapshot and a corrupted one
/// are treated identically: start fresh from the default state; loading
/// never fails.
pub fn load(snapshot: Option<&[u8]>) -> (r: PersistedState)
    ensures
        snapshot matches Some(b) ==> r@ == (match spec_decode(b@) {
            Some(m) => m,
            None => default_model(),
        }),
        snapshot is None ==> r@ == default_model(),
{
    match snapshot {
        None => default_state(),
        Some(b) => decode(b),
    }
}

proof fn lemma_take_str_at(p: Seq<u8>, s: Seq<char>, rest: Seq<u8>)
    requires
        encode_utf8(s).len() < 0x1_0000_0000_0000_0000,
    ensures
        take_str(p + enc_str(s) + rest, p.len() as int) == Some(
            (s, p.len() + enc_str(s).len() as int),
        ),
{
    lemma_auto_spec_u64_to_from_le_bytes();
    encode_utf8_valid_utf8(s);
    encode_utf8_decode_utf8(s);
    let b = p + enc_str(s) + rest;
    let pos = p.len() as int;
    let n64: u64 = encode_utf8(s).len() as u64;
    assert(spec_u64_to_le_bytes(n64).len() == 8);
    assert(b.subrange(pos, pos + 8) =~= spec_u64_to_le_bytes(n64));
    assert(spec_u64_from_le_bytes(b.subrange(pos, pos + 8)) == n64);
    assert(n64 as int == encode_utf8(s).len());
    assert(b.subrange(pos + 8, pos + 8 + n64 as int) =~= encode_utf8(s));
}

/// Round trip: decoding an encoded snapshot gives the snapshot back, for
/// every state whose fields fit the length prefix (anything a real string
/// can hold does).
#[verifier::rlimit(60)]
pub proof fn lemma_round_trip(m: StateModel)
    requires
        encode_utf8(m.label).len() < 0x1_0000_0000_0000_0000,
        encode_utf8(m.credentials.space_id).len() < 0x1_0000_0000_0000_0000,
        encode_utf8(m.credentials.shared_token).len() < 0x1_0000_0000_0000_0000,
        m.credentials.custom_auth_endpoint matches Some(e) ==> encode_utf8(e).len()
            < 0x1_0000_0000_0000_0000,
    ensures
        spec_decode(spec_encode(m)) == Some(m),
{
    let h = seq![0xD0u8, 0x77u8, 1u8];
    let l1 = enc_str(m.label);
    let l2 = enc_str(m.credentials.space_id);
    let l3 = enc_str(m.credentials.shared_token);
    let cb = seq![if m.credentials.cloud_sync_enabled { 1u8 } else { 0u8 }];
    let tail = match m.credentials.custom_auth_endpoint {
        None => seq![0u8],
        Some(e) => seq![1u8] + enc_str(e),
    };
    let b = spec_encode(m);
    assert(b =~= h + l1 + (l2 + l3 + cb + tail));
    lemma_take_str_at(h, m.label, l2 + l3 + cb + tail);
    let p1 = 3 + l1.len() as int;
    assert(take_str(b, 3) == Some((m.label, p1)));
    assert(b =~= (h + l1) + l2 + (l3 + cb + tail));
    lemma_take_str_at(h + l1, m.credentials.space_id, l3 + cb + tail);
    let p2 = p1 + l2.len() as int;
    assert(take_str(b, p1) == Some((m.credentials.space_id, p2)));
    assert(b =~= (h + l1 + l2) + l3 + (cb + tail));
    lemma_take_str_at(h + l1 + l2, m.credentials.shared_token, cb + tail);
    let p3 = p2 + l3.len() as int;
    assert(take_str(b, p2) == Some((m.credentials.shared_token, p3)));
    assert(b[p3] == cb[0]);
    assert(b[p3 + 1] == tail[0]);
    match m.credentials.custom_auth_endpoint {
        None => {
            assert(p3 + 2 == b.len());
        },
        Some(e) => {
            assert(b =~= (h + l1 + l2 + l3 + cb + seq![1u8]) + enc_str(e) + Seq::<u8>::empty());
            lemma_take_str_at(h + l1 + l2 + l3 + cb + seq![1u8], e, Seq::<u8>::empty());
            assert(take_str(b, p3 + 2) == Some((e, b.len() as int)));
        },
    }
}

} // verus!
