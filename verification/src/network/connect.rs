//! Finding the address under which a peer is reachable from outside, by
//! asking a STUN server (RFC 5389) for the XOR-MAPPED-ADDRESS it sees.
use vstd::prelude::*;

verus! {

/// Why the public address could not be found.
#[derive(Debug)]
pub enum ConnectionError {
    /// The STUN server's reply held no usable XOR-MAPPED-ADDRESS.
    StunFailed,
}

/// The size of a STUN message header.
pub const STUN_HEADER_SIZE: usize = 20;

/// The type of the XOR-MAPPED-ADDRESS attribute.
pub const ATTR_XOR_MAPPED_ADDRESS: u16 = 0x0020;

/// The address family code of IPv4 in an address attribute.
pub const FAMILY_IPV4: u16 = 0x0001;

/// The address family code of IPv6 in an address attribute.
pub const FAMILY_IPV6: u16 = 0x0002;

/// The STUN magic cookie, 0x2112A442, in network byte order.
pub open spec fn magic_cookie_bytes() -> Seq<u8> {
    seq![0x21u8, 0x12u8, 0xa4u8, 0x42u8]
}

/// The address family of a peer address.
#[derive(Clone, Copy, Debug, PartialEq, Eq, Structural)]
pub enum IpFamily {
    V4,
    V6,
}

/// What a peer address is: its family, its address bytes (4 for IPv4, 16
/// for IPv6) and its port.
#[verifier::ext_equal]
pub struct PeerAddressView {
    pub family: IpFamily,
    pub octets: Seq<u8>,
    pub port: u16,
}

/// An IP address and port.
#[derive(Clone, Debug, PartialEq, Eq)]
pub struct PeerAddress {
    pub family: IpFamily,
    pub octets: Vec<u8>,
    pub port: u16,
}

impl View for PeerAddress {
    type V = PeerAddressView;

    open spec fn view(&self) -> PeerAddressView {
        PeerAddressView { family: self.family, octets: self.octets@, port: self.port }
    }
}

/// One attribute of a STUN message: its type and its value bytes.
pub struct StunAttribute {
    pub kind: u16,
    pub value: Vec<u8>,
}

/// A decoded STUN message: its transaction id and its attributes in order.
pub struct StunMessage {
    pub transaction_id: [u8; 12],
    pub attributes: Vec<StunAttribute>,
}

impl View for StunMessage {
    type V = (Seq<u8>, Seq<(u16, Seq<u8>)>);

    open spec fn view(&self) -> (Seq<u8>, Seq<(u16, Seq<u8>)>) {
        (self.transaction_id@, self.attributes@.map_values(|a: StunAttribute| (a.kind, a.value@)))
    }
}

/// The transaction id and the attributes that the stun crate decodes from
/// `bytes`, or `None` when it refuses them.
pub uninterp spec fn stun_decoded(bytes: Seq<u8>) -> Option<(Seq<u8>, Seq<(u16, Seq<u8>)>)>;

/// Calls `stun::message::Message::unmarshal_binary` on `bytes` and hands out
/// the decoded transaction id and attributes (type and value of each, in
/// order). Claimed: the result is the named `stun_decoded(bytes)`; a buffer
/// shorter than the 20-byte header, or whose bytes 4..8 are not the magic
/// cookie, is refused; a decoded message's transaction id is bytes 8..20.
/// What else decides acceptance (the length field, the attribute layout) is
/// left to the name.
#[verifier::external_body]
fn stun_decode(bytes: &[u8]) -> (r: Option<StunMessage>)
    ensures
        r is Some <==> stun_decoded(bytes@) is Some,
        r matches Some(m) ==> stun_decoded(bytes@) == Some(m@),
        r matches Some(m) ==> m.transaction_id@ == bytes@.subrange(8, 20),
        bytes@.len() < STUN_HEADER_SIZE ==> r is None,
        bytes@.len() >= STUN_HEADER_SIZE && bytes@.subrange(4, 8) != magic_cookie_bytes() ==> r is None,
{
    let mut m = stun::message::Message::new();
    match m.unmarshal_binary(bytes) {
        Ok(()) => Some(StunMessage {
            transaction_id: m.transaction_id.0,
            attributes: m.attributes.0.into_iter().map(|a| StunAttribute { kind: a.typ.0, value: a.value }).collect(),
        }),
        Err(_) => None,
    }
}

/// Builds a Binding request with `stun::message::Message::build` from a new
/// random `stun::agent::TransactionId` and `BINDING_REQUEST`, and hands out
/// its raw bytes. Claimed: 20 bytes, starting with the Binding request type
/// 0x0001, the length 0 and the magic cookie. The remaining 12 bytes are the
/// random transaction id, of which nothing is said.
#[verifier::external_body]
fn stun_binding_request() -> (r: Vec<u8>)
    ensures
        r@.len() == STUN_HEADER_SIZE,
        r@.subrange(0, 4) == seq![0u8, 1u8, 0u8, 0u8],
        r@.subrange(4, 8) == magic_cookie_bytes(),
{
    let mut m = stun::message::Message::new();
    let _ = m.build(&[Box::new(stun::agent::TransactionId::new()), Box::new(stun::message::BINDING_REQUEST)]);
    m.raw
}

/// The big-endian `u16` made of two bytes.
pub open spec fn be_u16(hi: u8, lo: u8) -> u16 {
    (hi as int * 256 + lo as int) as u16
}

/// The bytes that an XOR-MAPPED-ADDRESS is masked with: the magic cookie
/// followed by the transaction id.
pub open spec fn xor_key(transaction_id: Seq<u8>) -> Seq<u8> {
    magic_cookie_bytes() + transaction_id
}

/// The address that an XOR-MAPPED-ADDRESS value `v` stands for in the
/// message with the given transaction id: `None` when the value has no
/// address bytes, names another family, or has more address bytes than its
/// family holds. The port is masked with the cookie's first two bytes, the
/// address bytes with the key; missing address bytes are zero.
pub open spec fn xor_mapped_address(transaction_id: Seq<u8>, v: Seq<u8>) -> Option<PeerAddressView> {
    if v.len() <= 4 {
        None
    } else {
        let family = be_u16(v[0], v[1]);
        if family != FAMILY_IPV4 && family != FAMILY_IPV6 {
            None
        } else {
            let ip_len: int = if family == FAMILY_IPV4 { 4 } else { 16 };
            if v.len() - 4 > ip_len {
                None
            } else {
                Some(PeerAddressView {
                    family: if family == FAMILY_IPV4 { IpFamily::V4 } else { IpFamily::V6 },
                    octets: Seq::new(
                        ip_len as nat,
                        |i: int| if i < v.len() - 4 { v[4 + i] ^ xor_key(transaction_id)[i] } else { 0u8 },
                    ),
                    port: be_u16(v[2], v[3]) ^ 0x2112u16,
                })
            }
        }
    }
}

/// The value of the first attribute of the given type, if any.
pub open spec fn first_value_of(attributes: Seq<(u16, Seq<u8>)>, kind: u16) -> Option<Seq<u8>>
    decreases attributes.len(),
{
    if attributes.len() == 0 {
        None
    } else if attributes[0].0 == kind {
        Some(attributes[0].1)
    } else {
        first_value_of(attributes.drop_first(), kind)
    }
}

/// The address that a decoded message reports: the one in its first
/// XOR-MAPPED-ADDRESS attribute, when that attribute is well formed.
pub open spec fn reported_address(msg: (Seq<u8>, Seq<(u16, Seq<u8>)>)) -> Option<PeerAddressView> {
    match first_value_of(msg.1, ATTR_XOR_MAPPED_ADDRESS) {
        Some(v) => xor_mapped_address(msg.0, v),
        None => None,
    }
}

/// The address that a reply reports, when it decodes at all.
pub open spec fn reply_address(decoded: Option<(Seq<u8>, Seq<(u16, Seq<u8>)>)>) -> Option<PeerAddressView> {
    match decoded {
        Some(m) => reported_address(m),
        None => None,
    }
}

/// The bytes of a STUN Binding request with a fresh random transaction id.
pub fn binding_request() -> (r: Vec<u8>)
    ensures
        r@.len() == STUN_HEADER_SIZE,
        r@.subrange(0, 4) == seq![0u8, 1u8, 0u8, 0u8],
        r@.subrange(4, 8) == magic_cookie_bytes(),
{
    stun_binding_request()
}

fn key_byte(transaction_id: &[u8; 12], i: usize) -> (r: u8)
    requires
        i < 16,
    ensures
        r == xor_key(transaction_id@)[i as int],
{
    if i < 4 {
        let cookie: [u8; 4] = [0x21u8, 0x12u8, 0xa4u8, 0x42u8];
        proof {
            assert(cookie@ =~= magic_cookie_bytes());
        }
        cookie[i]
    } else {
        transaction_id[i - 4]
    }
}

/// Reads an XOR-MAPPED-ADDRESS value of the message with the given
/// transaction id, as `xor_mapped_address` says.
pub fn decode_xor_mapped_address(transaction_id: &[u8; 12], v: &Vec<u8>) -> (r: Option<PeerAddress>)
    ensures
        r is Some <==> xor_mapped_address(transaction_id@, v@) is Some,
        r matches Some(p) ==> xor_mapped_address(transaction_id@, v@) == Some(p@),
{
    if v.len() <= 4 {
        return None;
    }
    let family: u16 = (v[0] as u16) * 256 + v[1] as u16;
    if family != FAMILY_IPV4 && family != FAMILY_IPV6 {
        return None;
    }
    let ip_len: usize = if family == FAMILY_IPV4 { 4 } else { 16 };
    if v.len() - 4 > ip_len {
        return None;
    }
    let port: u16 = ((v[2] as u16) * 256 + v[3] as u16) ^ 0x2112u16;
    let mut octets: Vec<u8> = Vec::new();
    let mut i: usize = 0;
    while i < ip_len
        invariant
            i <= ip_len,
            ip_len <= 16,
            4 < v@.len() <= ip_len + 4,
            octets@.len() == i,
            forall|j: int|
                0 <= j < i ==> #[trigger] octets@[j] == (if j < v@.len() - 4 {
                    v@[4 + j] ^ xor_key(transaction_id@)[j]
                } else {
                    0u8
                }),
        decreases ip_len - i,
    {
        let b: u8 = if i < v.len() - 4 {
            v[4 + i] ^ key_byte(transaction_id, i)
        } else {
            0
        };
        octets.push(b);
        i = i + 1;
    }
    let address = PeerAddress {
        family: if family == FAMILY_IPV4 { IpFamily::V4 } else { IpFamily::V6 },
        octets,
        port,
    };
    proof {
        assert(address@ =~= xor_mapped_address(transaction_id@, v@).unwrap());
    }
    Some(address)
}

/// The address that a decoded STUN message reports: the one in its first
/// XOR-MAPPED-ADDRESS attribute; `StunFailed` when there is none or it is
/// malformed.
pub fn mapped_address_from_message(msg: &StunMessage) -> (r: Result<PeerAddress, ConnectionError>)
    ensures
        r is Ok <==> reported_address(msg@) is Some,
        r matches Ok(p) ==> reported_address(msg@) == Some(p@),
{
    let ghost attrs = msg@.1;
    let mut i: usize = 0;
    proof {
        assert(attrs.skip(0) =~= attrs);
    }
    while i < msg.attributes.len()
        invariant
            i <= msg.attributes@.len(),
            attrs == msg@.1,
            first_value_of(attrs, ATTR_XOR_MAPPED_ADDRESS) == first_value_of(attrs.skip(i as int), ATTR_XOR_MAPPED_ADDRESS),
        decreases msg.attributes@.len() - i,
    {
        proof {
            assert(attrs.skip(i as int).drop_first() =~= attrs.skip(i + 1));
        }
        if msg.attributes[i].kind == ATTR_XOR_MAPPED_ADDRESS {
            return match decode_xor_mapped_address(&msg.transaction_id, &msg.attributes[i].value) {
                Some(p) => Ok(p),
                None => Err(ConnectionError::StunFailed),
            };
        }
        i = i + 1;
    }
    proof {
        assert(attrs.skip(i as int) =~= Seq::<(u16, Seq<u8>)>::empty());
    }
    Err(ConnectionError::StunFailed)
}

/// The address that a STUN server's reply reports; `StunFailed` when the
/// reply does not decode or holds no well-formed XOR-MAPPED-ADDRESS.
pub fn mapped_address(response: &[u8]) -> (r: Result<PeerAddress, ConnectionError>)
    ensures
        r is Ok <==> reply_address(stun_decoded(response@)) is Some,
        r matches Ok(p) ==> reply_address(stun_decoded(response@)) == Some(p@),
        response@.len() < STUN_HEADER_SIZE ==> r is Err,
        stun_decoded(response@) matches Some(m) ==> m.0 == response@.subrange(8, 20),
{
    match stun_decode(response) {
        Some(msg) => mapped_address_from_message(&msg),
        None => Err(ConnectionError::StunFailed),
    }
}

/// The first attribute of a type in `p + q` is the first one in `p`, or,
/// when `p` has none, the first one in `q`.
proof fn lemma_first_value_of_append(p: Seq<(u16, Seq<u8>)>, q: Seq<(u16, Seq<u8>)>, kind: u16)
    ensures
        first_value_of(p + q, kind) == (if first_value_of(p, kind) is Some {
            first_value_of(p, kind)
        } else {
            first_value_of(q, kind)
        }),
    decreases p.len(),
{
    if p.len() == 0 {
        assert(p + q =~= q);
    } else {
        assert((p + q).drop_first() =~= p.drop_first() + q);
        assert((p + q)[0] == p[0]);
        lemma_first_value_of_append(p.drop_first(), q, kind);
    }
}

proof fn lemma_first_value_of_absent(attributes: Seq<(u16, Seq<u8>)>, kind: u16)
    requires
        forall|i: int| 0 <= i < attributes.len() ==> #[trigger] attributes[i].0 != kind,
    ensures
        first_value_of(attributes, kind) is None,
    decreases attributes.len(),
{
    if attributes.len() > 0 {
        assert(attributes[0].0 != kind);
        assert forall|i: int| 0 <= i < attributes.drop_first().len() implies #[trigger] attributes.drop_first()[i].0
            != kind by {
            assert(attributes.drop_first()[i] == attributes[i + 1]);
        }
        lemma_first_value_of_absent(attributes.drop_first(), kind);
    }
}

/// Attributes of other types than XOR-MAPPED-ADDRESS, inserted anywhere in
/// a message, do not change the address it reports.
pub proof fn lemma_other_attributes_ignored(
    transaction_id: Seq<u8>,
    before: Seq<(u16, Seq<u8>)>,
    others: Seq<(u16, Seq<u8>)>,
    after: Seq<(u16, Seq<u8>)>,
)
    requires
        forall|i: int| 0 <= i < others.len() ==> #[trigger] others[i].0 != ATTR_XOR_MAPPED_ADDRESS,
    ensures
        reported_address((transaction_id, before + others + after)) == reported_address(
            (transaction_id, before + after),
        ),
{
    lemma_first_value_of_absent(others, ATTR_XOR_MAPPED_ADDRESS);
    lemma_first_value_of_append(before + others, after, ATTR_XOR_MAPPED_ADDRESS);
    lemma_first_value_of_append(before, others, ATTR_XOR_MAPPED_ADDRESS);
    lemma_first_value_of_append(before, after, ATTR_XOR_MAPPED_ADDRESS);
}

/// The first XOR-MAPPED-ADDRESS attribute decides: whatever attributes of
/// other types come before it and whatever comes after it, a message
/// reports the address that this attribute's value stands for.
pub proof fn lemma_first_xor_mapped_decides(
    transaction_id: Seq<u8>,
    before: Seq<(u16, Seq<u8>)>,
    value: Seq<u8>,
    after: Seq<(u16, Seq<u8>)>,
)
    requires
        forall|i: int| 0 <= i < before.len() ==> #[trigger] before[i].0 != ATTR_XOR_MAPPED_ADDRESS,
    ensures
        reported_address((transaction_id, before.push((ATTR_XOR_MAPPED_ADDRESS, value)) + after))
            == xor_mapped_address(transaction_id, value),
{
    let first = seq![(ATTR_XOR_MAPPED_ADDRESS, value)];
    assert(before.push((ATTR_XOR_MAPPED_ADDRESS, value)) =~= before + first);
    lemma_first_value_of_absent(before, ATTR_XOR_MAPPED_ADDRESS);
    lemma_first_value_of_append(before + first, after, ATTR_XOR_MAPPED_ADDRESS);
    lemma_first_value_of_append(before, first, ATTR_XOR_MAPPED_ADDRESS);
    assert(first[0].0 == ATTR_XOR_MAPPED_ADDRESS);
}

/// The reported address depends on the reply alone: two replies that the
/// stun crate decodes alike report the same address.
pub proof fn lemma_reply_decides(reply1: Seq<u8>, reply2: Seq<u8>)
    requires
        stun_decoded(reply1) == stun_decoded(reply2),
    ensures
        reply_address(stun_decoded(reply1)) == reply_address(stun_decoded(reply2)),
{
}

/// A decoded reply reports the address in its first XOR-MAPPED-ADDRESS
/// attribute, wherever that attribute stands among the reply's attributes:
/// attributes of other types before it and anything after it do not matter,
/// and the value is unmasked with the reply's own transaction id.
pub proof fn lemma_reply_reports_first_xor_mapped(
    transaction_id: Seq<u8>,
    before: Seq<(u16, Seq<u8>)>,
    value: Seq<u8>,
    after: Seq<(u16, Seq<u8>)>,
)
    requires
        forall|i: int| 0 <= i < before.len() ==> #[trigger] before[i].0 != ATTR_XOR_MAPPED_ADDRESS,
    ensures
        reply_address(Some((transaction_id, before.push((ATTR_XOR_MAPPED_ADDRESS, value)) + after)))
            == xor_mapped_address(transaction_id, value),
{
    lemma_first_xor_mapped_decides(transaction_id, before, value, after);
}

/// A decoded reply without any XOR-MAPPED-ADDRESS attribute reports no
/// address.
pub proof fn lemma_reply_without_xor_mapped(transaction_id: Seq<u8>, attributes: Seq<(u16, Seq<u8>)>)
    requires
        forall|i: int| 0 <= i < attributes.len() ==> #[trigger] attributes[i].0 != ATTR_XOR_MAPPED_ADDRESS,
    ensures
        reply_address(Some((transaction_id, attributes))) is None,
{
    lemma_first_value_of_absent(attributes, ATTR_XOR_MAPPED_ADDRESS);
}

/// An IPv4 XOR-MAPPED-ADDRESS value (family 1, two port bytes, four
/// address bytes) stands for the port XORed with 0x2112 and the address
/// bytes XORed with the magic cookie 21 12 a4 42.
pub proof fn lemma_xor_mapped_ipv4(transaction_id: Seq<u8>, v: Seq<u8>)
    requires
        v.len() == 8,
        v[0] == 0,
        v[1] == 1,
    ensures
        xor_mapped_address(transaction_id, v) == Some(
            PeerAddressView {
                family: IpFamily::V4,
                octets: seq![v[4] ^ 0x21u8, v[5] ^ 0x12u8, v[6] ^ 0xa4u8, v[7] ^ 0x42u8],
                port: ((v[2] as int * 256 + v[3] as int) as u16) ^ 0x2112u16,
            },
        ),
{
    let p = xor_mapped_address(transaction_id, v).unwrap();
    assert(p.octets =~= seq![v[4] ^ 0x21u8, v[5] ^ 0x12u8, v[6] ^ 0xa4u8, v[7] ^ 0x42u8]);
}

/// An IPv6 XOR-MAPPED-ADDRESS value (family 2, two port bytes, sixteen
/// address bytes) stands for the port XORed with 0x2112 and the address
/// bytes XORed with the magic cookie 21 12 a4 42 followed by the message's
/// own twelve-byte transaction id.
pub proof fn lemma_xor_mapped_ipv6(transaction_id: Seq<u8>, v: Seq<u8>)
    requires
        transaction_id.len() == 12,
        v.len() == 20,
        v[0] == 0,
        v[1] == 2,
    ensures
        xor_mapped_address(transaction_id, v) matches Some(p) && p.family == IpFamily::V6
            && p.port == ((v[2] as int * 256 + v[3] as int) as u16) ^ 0x2112u16
            && p.octets.len() == 16
            && p.octets[0] == v[4] ^ 0x21u8 && p.octets[1] == v[5] ^ 0x12u8
            && p.octets[2] == v[6] ^ 0xa4u8 && p.octets[3] == v[7] ^ 0x42u8
            && forall|i: int| 4 <= i < 16 ==> #[trigger] p.octets[i] == v[4 + i] ^ transaction_id[i - 4],
{
    let p = xor_mapped_address(transaction_id, v).unwrap();
    let key = xor_key(transaction_id);
    assert(key[0] == 0x21u8 && key[1] == 0x12u8 && key[2] == 0xa4u8 && key[3] == 0x42u8);
    assert forall|i: int| 4 <= i < 16 implies #[trigger] p.octets[i] == v[4 + i] ^ transaction_id[i - 4] by {
        assert(key[i] == transaction_id[i - 4]);
    }
}

} // verus!
