use vstd::prelude::*;
use vstd::utf8::*;
use vstd::string::StrSliceExecFns;
use vstd::string::StringExecFns;

use sha2::Digest;

use crate::codec::ProtocolError;
use crate::text::{
    ascii_string_from_bytes, bytes_to_chars, chars_to_bytes, eat_prefix, find_char, find_char_in,
    is_ascii_bytes, lemma_ascii_char, lemma_ascii_chars_bytes_id, lemma_ascii_encode_utf8,
    lemma_find_char, lemma_rfind_char, parse_u128, parse_u32, parse_u64, rfind_char,
    rfind_char_in, spec_decimal, spec_parse_decimal, u128_to_string, u32_to_string, u64_to_string,
};

verus! {

// ---------------------------------------------------------------------------
// Hashing, through the outside crates
// ---------------------------------------------------------------------------

/// The SHA-256 digest of a byte sequence. Left uninterpreted: nothing but
/// the hash function itself defines these 32 bytes.
pub uninterp spec fn sha256_of(data: Seq<u8>) -> Seq<u8>;

/// Relies on sha2::Sha256: the digest depends on the input bytes alone and
/// is 32 bytes long.
#[verifier::external_body]
pub(crate) fn sha256_digest(data: &[u8]) -> (r: Vec<u8>)
    ensures
        r@ == sha256_of(data@),
        r@.len() == 32,
{
    sha2::Sha256::digest(data).to_vec()
}

/// Lowercase hex digit for a value below sixteen.
pub open spec fn hex_digit_char(d: int) -> char {
    if d < 10 {
        ((0x30 + d) as u32) as char
    } else {
        ((0x57 + d) as u32) as char
    }
}

/// Two lowercase hex digits per byte, high nibble first.
pub open spec fn hex_of(b: Seq<u8>) -> Seq<char> {
    Seq::new(
        b.len() * 2,
        |i: int|
            if i % 2 == 0 {
                hex_digit_char((b[i / 2] >> 4) as int)
            } else {
                hex_digit_char((b[i / 2] & 0x0f) as int)
            },
    )
}

/// Relies on hex::encode: two lowercase hex digits per byte, high first.
#[verifier::external_body]
pub(crate) fn hex_encode(b: &Vec<u8>) -> (r: String)
    ensures
        r@ == hex_of(b@),
{
    hex::encode(b.as_slice())
}

/// Every character of a hex rendering is a lowercase hex digit, hence ASCII.
pub proof fn lemma_hex_props(b: Seq<u8>)
    ensures
        hex_of(b).len() == b.len() * 2,
        is_ascii_chars(hex_of(b)),
        forall|i: int|
            0 <= i < hex_of(b).len() ==> {
                let u = (#[trigger] hex_of(b)[i]) as u32;
                (0x30 <= u <= 0x39) || (0x61 <= u <= 0x66)
            },
        is_ascii_bytes(chars_to_bytes(hex_of(b))),
        bytes_to_chars(chars_to_bytes(hex_of(b))) =~= hex_of(b),
{
    let h = hex_of(b);
    assert forall|i: int| 0 <= i < h.len() implies {
        let u = (#[trigger] h[i]) as u32;
        (0x30 <= u <= 0x39) || (0x61 <= u <= 0x66)
    } by {
        let x = b[i / 2];
        assert(x >> 4 <= 15) by (bit_vector);
        assert(x & 0x0f <= 15) by (bit_vector);
        if i % 2 == 0 {
            let d = (x >> 4) as int;
            assert(h[i] == hex_digit_char(d));
            if d < 10 {
                assert((hex_digit_char(d) as u32) == 0x30 + d);
            } else {
                assert((hex_digit_char(d) as u32) == 0x57 + d);
            }
        } else {
            let d = (x & 0x0f) as int;
            assert(h[i] == hex_digit_char(d));
            if d < 10 {
                assert((hex_digit_char(d) as u32) == 0x30 + d);
            } else {
                assert((hex_digit_char(d) as u32) == 0x57 + d);
            }
        }
    }
    assert forall|i: int| 0 <= i < h.len() implies '\0' <= #[trigger] h[i] <= '\u{7f}' by {
        lemma_ascii_char(h[i]);
    }
    lemma_ascii_chars_bytes_id(h);
}

// ---------------------------------------------------------------------------
// Blocks
// ---------------------------------------------------------------------------

/// One sealed unit of the ledger. `prev_hash` and `hash` hold the bytes of
/// lowercase hex digest text.
#[derive(Debug)]
pub struct Block {
    pub index: u32,
    pub payload: String,
    pub timestamp: u128,
    pub nonce: u64,
    pub prev_hash: Vec<u8>,
    pub hash: Vec<u8>,
}

pub struct BlockView {
    pub index: u32,
    pub payload: Seq<char>,
    pub timestamp: u128,
    pub nonce: u64,
    pub prev_hash: Seq<u8>,
    pub hash: Seq<u8>,
}

impl View for Block {
    type V = BlockView;

    open spec fn view(&self) -> BlockView {
        BlockView {
            index: self.index,
            payload: self.payload@,
            timestamp: self.timestamp,
            nonce: self.nonce,
            prev_hash: self.prev_hash@,
            hash: self.hash@,
        }
    }
}

pub(crate) fn clone_bytes(v: &Vec<u8>) -> (r: Vec<u8>)
    ensures
        r@ == v@,
{
    let mut out: Vec<u8> = Vec::new();
    let mut i: usize = 0;
    while i < v.len()
        invariant
            i <= v@.len(),
            out@ =~= v@.subrange(0, i as int),
        decreases v@.len() - i,
    {
        out.push(v[i]);
        i = i + 1;
        proof {
            assert(out@ =~= v@.subrange(0, i as int));
        }
    }
    proof {
        assert(out@ =~= v@);
    }
    out
}

impl Block {
    /// A fresh block whose hash is not yet computed (sixteen zero bytes, as
    /// a placeholder).
    pub fn new(index: u32, payload: String, timestamp: u128, nonce: u64, prev_hash: Vec<u8>) -> (r:
        Block)
        ensures
            r@.index == index,
            r@.payload == payload@,
            r@.timestamp == timestamp,
            r@.nonce == nonce,
            r@.prev_hash == prev_hash@,
            r@.hash =~= Seq::new(16, |_j: int| 0u8),
    {
        let mut h: Vec<u8> = Vec::new();
        let mut i: usize = 0;
        while i < 16
            invariant
                i <= 16,
                h@ =~= Seq::new(i as nat, |_j: int| 0u8),
            decreases 16 - i,
        {
            h.push(0);
            i = i + 1;
            proof {
                assert(h@ =~= Seq::new(i as nat, |_j: int| 0u8));
            }
        }
        Block { index, payload, timestamp, nonce, prev_hash, hash: h }
    }

    /// A field-for-field copy.
    pub fn duplicate(&self) -> (r: Block)
        ensures
            r@ == self@,
    {
        let r = Block {
            index: self.index,
            payload: self.payload.clone(),
            timestamp: self.timestamp,
            nonce: self.nonce,
            prev_hash: clone_bytes(&self.prev_hash),
            hash: clone_bytes(&self.hash),
        };
        proof {
            assert(r@ == self@);
        }
        r
    }
}

// ---------------------------------------------------------------------------
// Block wire text
// ---------------------------------------------------------------------------

/// The serialized form:
/// `id:<n>;prev_hash:<text>;timestamp:<n>;payload:<text>;nonce:<n>;hash:<text>`.
pub open spec fn spec_block_text(b: BlockView) -> Seq<char> {
    ("id:")@ + spec_decimal(b.index as nat) + seq![';'] + ("prev_hash:")@ + bytes_to_chars(
        b.prev_hash,
    ) + seq![';'] + ("timestamp:")@ + spec_decimal(b.timestamp as nat) + seq![';'] + ("payload:")@
        + b.payload + seq![';'] + ("nonce:")@ + spec_decimal(b.nonce as nat) + seq![';'] + (
    "hash:")@ + bytes_to_chars(b.hash)
}

pub open spec fn spec_eat_prefix(s: Seq<char>, p: Seq<char>) -> Option<Seq<char>> {
    if p.len() <= s.len() && s.subrange(0, p.len() as int) == p {
        Some(s.subrange(p.len() as int, s.len() as int))
    } else {
        None
    }
}

pub open spec fn spec_take_until(s: Seq<char>, c: char) -> Option<(Seq<char>, Seq<char>)> {
    let j = find_char(s, c);
    if 0 <= j < s.len() {
        Some((s.subrange(0, j), s.subrange(j + 1, s.len() as int)))
    } else {
        None
    }
}

pub open spec fn spec_split_last(s: Seq<char>, c: char) -> Option<(Seq<char>, Seq<char>)> {
    let j = rfind_char(s, c);
    if 0 <= j < s.len() {
        Some((s.subrange(0, j), s.subrange(j + 1, s.len() as int)))
    } else {
        None
    }
}

/// The front of the serialized form: the `id`, `prev_hash` and `timestamp`
/// fields, read left to right; the remainder follows the `payload:` key.
pub open spec fn spec_parse_block_front(s: Seq<char>) -> Option<
    (Seq<char>, Seq<char>, Seq<char>, Seq<char>),
> {
    match spec_eat_prefix(s, ("id:")@) {
        None => None,
        Some(r1) => match spec_take_until(r1, ';') {
            None => None,
            Some((idtxt, r2)) => match spec_eat_prefix(r2, ("prev_hash:")@) {
                None => None,
                Some(r3) => match spec_take_until(r3, ';') {
                    None => None,
                    Some((prevtxt, r4)) => match spec_eat_prefix(r4, ("timestamp:")@) {
                        None => None,
                        Some(r5) => match spec_take_until(r5, ';') {
                            None => None,
                            Some((tstxt, r6)) => match spec_eat_prefix(r6, ("payload:")@) {
                                None => None,
                                Some(r7) => Some((idtxt, prevtxt, tstxt, r7)),
                            },
                        },
                    },
                },
            },
        },
    }
}

/// The rear of the serialized form: the `hash` and `nonce` fields are found
/// from the end, so that the payload between them may itself contain
/// separators.
pub open spec fn spec_parse_block_rear(r7: Seq<char>) -> Option<
    (Seq<char>, Seq<char>, Seq<char>),
> {
    match spec_split_last(r7, ';') {
        None => None,
        Some((mid, hfield)) => match spec_eat_prefix(hfield, ("hash:")@) {
            None => None,
            Some(hashtxt) => match spec_split_last(mid, ';') {
                None => None,
                Some((payload, nfield)) => match spec_eat_prefix(nfield, ("nonce:")@) {
                    None => None,
                    Some(noncetxt) => Some((payload, noncetxt, hashtxt)),
                },
            },
        },
    }
}

/// The parse of the serialized form. The numeric fields are read from the
/// front; the `nonce` and `hash` fields are found from the rear, so that a
/// payload may itself contain separators.
pub open spec fn spec_parse_block(s: Seq<char>) -> Option<BlockView> {
    match spec_parse_block_front(s) {
        None => None,
        Some((idtxt, prevtxt, tstxt, r7)) => match spec_parse_block_rear(r7) {
            None => None,
            Some((payload, noncetxt, hashtxt)) => spec_parse_block_fields(
                idtxt,
                prevtxt,
                tstxt,
                payload,
                noncetxt,
                hashtxt,
            ),
        },
    }
}

pub open spec fn spec_parse_block_fields(
    idtxt: Seq<char>,
    prevtxt: Seq<char>,
    tstxt: Seq<char>,
    payload: Seq<char>,
    noncetxt: Seq<char>,
    hashtxt: Seq<char>,
) -> Option<BlockView> {
    match spec_parse_decimal(idtxt) {
        None => None,
        Some(iv) => {
            if iv > u32::MAX {
                None
            } else {
                match spec_parse_decimal(tstxt) {
                    None => None,
                    Some(tv) => {
                        if tv > u128::MAX {
                            None
                        } else {
                            match spec_parse_decimal(noncetxt) {
                                None => None,
                                Some(nv) => {
                                    if nv > u64::MAX {
                                        None
                                    } else {
                                        Some(
                                            BlockView {
                                                index: iv as u32,
                                                payload,
                                                timestamp: tv as u128,
                                                nonce: nv as u64,
                                                prev_hash: encode_utf8(prevtxt),
                                                hash: encode_utf8(hashtxt),
                                            },
                                        )
                                    }
                                },
                            }
                        }
                    },
                }
            }
        },
    }
}

proof fn lemma_eat_prefix_concat(p: Seq<char>, rest: Seq<char>)
    ensures
        spec_eat_prefix(p + rest, p) == Some(rest),
{
    let s = p + rest;
    assert(s.subrange(0, p.len() as int) =~= p);
    assert(s.subrange(p.len() as int, s.len() as int) =~= rest);
}

proof fn lemma_take_until_concat(a: Seq<char>, rest: Seq<char>, c: char)
    requires
        forall|i: int| 0 <= i < a.len() ==> a[i] != c,
    ensures
        spec_take_until(a + seq![c] + rest, c) == Some((a, rest)),
{
    let s = a + seq![c] + rest;
    assert(s[a.len() as int] == c);
    assert forall|i: int| 0 <= i < a.len() implies s[i] != c by {
        assert(s[i] == a[i]);
    }
    crate::text::lemma_find_char_at(s, c, a.len() as int);
    assert(s.subrange(0, a.len() as int) =~= a);
    assert(s.subrange(a.len() as int + 1, s.len() as int) =~= rest);
}

proof fn lemma_split_last_concat(a: Seq<char>, rest: Seq<char>, c: char)
    requires
        forall|i: int| 0 <= i < rest.len() ==> rest[i] != c,
    ensures
        spec_split_last(a + seq![c] + rest, c) == Some((a, rest)),
{
    let s = a + seq![c] + rest;
    assert(s[a.len() as int] == c);
    assert forall|i: int| a.len() < i < s.len() implies s[i] != c by {
        assert(s[i] == rest[i - a.len() - 1]);
    }
    crate::text::lemma_rfind_char_at(s, c, a.len() as int);
    assert(s.subrange(0, a.len() as int) =~= a);
    assert(s.subrange(a.len() as int + 1, s.len() as int) =~= rest);
}

/// The remainder of a block's serialized text after the `payload:` key.
pub open spec fn spec_block_text_rear(b: BlockView) -> Seq<char> {
    b.payload + seq![';'] + ("nonce:")@ + spec_decimal(b.nonce as nat) + seq![';'] + ("hash:")@
        + bytes_to_chars(b.hash)
}

proof fn lemma_block_text_front(b: BlockView)
    requires
        forall|i: int|
            0 <= i < b.prev_hash.len() ==> #[trigger] bytes_to_chars(b.prev_hash)[i] != ';',
    ensures
        spec_parse_block_front(spec_block_text(b)) == Some(
            (
                spec_decimal(b.index as nat),
                bytes_to_chars(b.prev_hash),
                spec_decimal(b.timestamp as nat),
                spec_block_text_rear(b),
            ),
        ),
{
    let text = spec_block_text(b);
    let d1 = spec_decimal(b.index as nat);
    let pv = bytes_to_chars(b.prev_hash);
    let d2 = spec_decimal(b.timestamp as nat);
    let r7 = spec_block_text_rear(b);
    let r6 = ("payload:")@ + r7;
    let r5 = d2 + seq![';'] + r6;
    let r4 = ("timestamp:")@ + r5;
    let r3 = pv + seq![';'] + r4;
    let r2 = ("prev_hash:")@ + r3;
    let r1 = d1 + seq![';'] + r2;
    assert(spec_eat_prefix(text, ("id:")@) == Some(r1)) by {
        assert(text =~= ("id:")@ + r1);
        lemma_eat_prefix_concat(("id:")@, r1);
    }
    assert(spec_take_until(r1, ';') == Some((d1, r2))) by {
        crate::text::lemma_decimal_value(b.index as nat);
        assert forall|i: int| 0 <= i < d1.len() implies d1[i] != ';' by {
            assert(crate::text::digit_char(d1[i]));
        }
        lemma_take_until_concat(d1, r2, ';');
    }
    assert(spec_eat_prefix(r2, ("prev_hash:")@) == Some(r3)) by {
        lemma_eat_prefix_concat(("prev_hash:")@, r3);
    }
    assert(spec_take_until(r3, ';') == Some((pv, r4))) by {
        lemma_take_until_concat(pv, r4, ';');
    }
    assert(spec_eat_prefix(r4, ("timestamp:")@) == Some(r5)) by {
        lemma_eat_prefix_concat(("timestamp:")@, r5);
    }
    assert(spec_take_until(r5, ';') == Some((d2, r6))) by {
        crate::text::lemma_decimal_value(b.timestamp as nat);
        assert forall|i: int| 0 <= i < d2.len() implies d2[i] != ';' by {
            assert(crate::text::digit_char(d2[i]));
        }
        lemma_take_until_concat(d2, r6, ';');
    }
    assert(spec_eat_prefix(r6, ("payload:")@) == Some(r7)) by {
        lemma_eat_prefix_concat(("payload:")@, r7);
    }
}

proof fn lemma_block_text_rear(b: BlockView)
    requires
        forall|i: int| 0 <= i < b.hash.len() ==> #[trigger] bytes_to_chars(b.hash)[i] != ';',
    ensures
        spec_parse_block_rear(spec_block_text_rear(b)) == Some(
            (b.payload, spec_decimal(b.nonce as nat), bytes_to_chars(b.hash)),
        ),
{
    reveal_strlit("nonce:");
    reveal_strlit("hash:");
    let r7 = spec_block_text_rear(b);
    let d3 = spec_decimal(b.nonce as nat);
    let hx = bytes_to_chars(b.hash);
    let nfield = ("nonce:")@ + d3;
    let hfield = ("hash:")@ + hx;
    let mid = b.payload + seq![';'] + nfield;
    assert(spec_split_last(r7, ';') == Some((mid, hfield))) by {
        assert forall|i: int| 0 <= i < hfield.len() implies hfield[i] != ';' by {
            assert(("hash:")@.len() == 5);
            if i < 5 {
                assert(hfield[i] == ("hash:")@[i]);
            } else {
                assert(hfield[i] == hx[i - 5]);
            }
        }
        assert(r7 =~= mid + seq![';'] + hfield);
        lemma_split_last_concat(mid, hfield, ';');
    }
    assert(spec_eat_prefix(hfield, ("hash:")@) == Some(hx)) by {
        lemma_eat_prefix_concat(("hash:")@, hx);
    }
    assert(spec_split_last(mid, ';') == Some((b.payload, nfield))) by {
        crate::text::lemma_decimal_value(b.nonce as nat);
        assert forall|i: int| 0 <= i < nfield.len() implies nfield[i] != ';' by {
            assert(("nonce:")@.len() == 6);
            if i < 6 {
                assert(nfield[i] == ("nonce:")@[i]);
            } else {
                assert(nfield[i] == d3[i - 6]);
                assert(crate::text::digit_char(d3[i - 6]));
            }
        }
        lemma_split_last_concat(b.payload, nfield, ';');
    }
    assert(spec_eat_prefix(nfield, ("nonce:")@) == Some(d3)) by {
        lemma_eat_prefix_concat(("nonce:")@, d3);
    }
}

/// Serialization round trip for blocks: parsing the serialized text yields
/// the block back, whenever the two hash fields hold ASCII text free of the
/// record separator — as every hash this engine produces is. The payload
/// may contain anything, separators included.
pub proof fn lemma_block_text_round_trip(b: BlockView)
    requires
        is_ascii_bytes(b.prev_hash),
        is_ascii_bytes(b.hash),
        forall|i: int|
            0 <= i < b.prev_hash.len() ==> #[trigger] bytes_to_chars(b.prev_hash)[i] != ';',
        forall|i: int| 0 <= i < b.hash.len() ==> #[trigger] bytes_to_chars(b.hash)[i] != ';',
    ensures
        spec_parse_block(spec_block_text(b)) == Some(b),
{
    lemma_block_text_front(b);
    lemma_block_text_rear(b);
    let d1 = spec_decimal(b.index as nat);
    let pv = bytes_to_chars(b.prev_hash);
    let d2 = spec_decimal(b.timestamp as nat);
    let d3 = spec_decimal(b.nonce as nat);
    let hx = bytes_to_chars(b.hash);
    assert(spec_parse_block_fields(d1, pv, d2, b.payload, d3, hx) == Some(b)) by {
        crate::text::lemma_decimal_value(b.index as nat);
        crate::text::lemma_decimal_value(b.timestamp as nat);
        crate::text::lemma_decimal_value(b.nonce as nat);
        crate::text::lemma_ascii_bytes_chars_id(b.prev_hash);
        crate::text::lemma_ascii_bytes_chars_id(b.hash);
        lemma_ascii_encode_utf8(pv);
        lemma_ascii_encode_utf8(hx);
        assert(encode_utf8(pv) == b.prev_hash);
        assert(encode_utf8(hx) == b.hash);
    }
}

fn take_until<'a>(s: &'a str, c: char) -> (r: Option<(&'a str, &'a str)>)
    ensures
        match r {
            Some(t) => spec_take_until(s@, c) == Some((t.0@, t.1@)),
            None => spec_take_until(s@, c) is None,
        },
{
    let n = s.unicode_len();
    match find_char_in(s, c) {
        None => None,
        Some(j) => {
            proof {
                lemma_find_char(s@, c);
            }
            Some((s.substring_char(0, j), s.substring_char(j + 1, n)))
        },
    }
}

fn split_last<'a>(s: &'a str, c: char) -> (r: Option<(&'a str, &'a str)>)
    ensures
        match r {
            Some(t) => spec_split_last(s@, c) == Some((t.0@, t.1@)),
            None => spec_split_last(s@, c) is None,
        },
{
    let n = s.unicode_len();
    match rfind_char_in(s, c) {
        None => None,
        Some(j) => {
            proof {
                lemma_rfind_char(s@, c);
            }
            Some((s.substring_char(0, j), s.substring_char(j + 1, n)))
        },
    }
}

impl Block {
    /// The serialized text, for transmission inside a payload. The hash
    /// fields must hold ASCII text, which holds of every block the library
    /// builds or accepts.
    pub fn to_wire_text(&self) -> (r: String)
        requires
            is_ascii_bytes(self@.prev_hash),
            is_ascii_bytes(self@.hash),
        ensures
            r@ == spec_block_text(self@),
    {
        let mut out = String::from_str("id:");
        let part = u32_to_string(self.index);
        out.append(part.as_str());
        out.append(";prev_hash:");
        let prev = ascii_string_from_bytes(clone_bytes(&self.prev_hash));
        out.append(prev.as_str());
        out.append(";timestamp:");
        let ts = u128_to_string(self.timestamp);
        out.append(ts.as_str());
        out.append(";payload:");
        out.append(self.payload.as_str());
        out.append(";nonce:");
        let non = u64_to_string(self.nonce);
        out.append(non.as_str());
        out.append(";hash:");
        let hx = ascii_string_from_bytes(clone_bytes(&self.hash));
        out.append(hx.as_str());
        proof {
            reveal_strlit(";prev_hash:");
            reveal_strlit("prev_hash:");
            reveal_strlit(";timestamp:");
            reveal_strlit("timestamp:");
            reveal_strlit(";payload:");
            reveal_strlit("payload:");
            reveal_strlit(";nonce:");
            reveal_strlit("nonce:");
            reveal_strlit(";hash:");
            reveal_strlit("hash:");
            assert((";prev_hash:")@ =~= seq![';'] + ("prev_hash:")@);
            assert((";timestamp:")@ =~= seq![';'] + ("timestamp:")@);
            assert((";payload:")@ =~= seq![';'] + ("payload:")@);
            assert((";nonce:")@ =~= seq![';'] + ("nonce:")@);
            assert((";hash:")@ =~= seq![';'] + ("hash:")@);
            assert(out@ =~= spec_block_text(self@));
        }
        out
    }

    /// Parses the serialized text; any malformed field is a payload error.
    pub fn from_wire_text(s: &str) -> (r: Result<Block, ProtocolError>)
        ensures
            r is Ok <==> spec_parse_block(s@) is Some,
            r matches Ok(b) ==> spec_parse_block(s@) == Some(b@),
            r matches Err(e) ==> e == ProtocolError::BadPayload,
    {
        let r1 = match eat_prefix(s, "id:") {
            Some(t) => t,
            None => {
                return Err(ProtocolError::BadPayload);
            },
        };
        let (idtxt, r2) = match take_until(r1, ';') {
            Some(t) => t,
            None => {
                return Err(ProtocolError::BadPayload);
            },
        };
        let r3 = match eat_prefix(r2, "prev_hash:") {
            Some(t) => t,
            None => {
                return Err(ProtocolError::BadPayload);
            },
        };
        let (prevtxt, r4) = match take_until(r3, ';') {
            Some(t) => t,
            None => {
                return Err(ProtocolError::BadPayload);
            },
        };
        let r5 = match eat_prefix(r4, "timestamp:") {
            Some(t) => t,
            None => {
                return Err(ProtocolError::BadPayload);
            },
        };
        let (tstxt, r6) = match take_until(r5, ';') {
            Some(t) => t,
            None => {
                return Err(ProtocolError::BadPayload);
            },
        };
        let r7 = match eat_prefix(r6, "payload:") {
            Some(t) => t,
            None => {
                return Err(ProtocolError::BadPayload);
            },
        };
        let (mid, hfield) = match split_last(r7, ';') {
            Some(t) => t,
            None => {
                return Err(ProtocolError::BadPayload);
            },
        };
        let hashtxt = match eat_prefix(hfield, "hash:") {
            Some(t) => t,
            None => {
                return Err(ProtocolError::BadPayload);
            },
        };
        let (payload, nfield) = match split_last(mid, ';') {
            Some(t) => t,
            None => {
                return Err(ProtocolError::BadPayload);
            },
        };
        let noncetxt = match eat_prefix(nfield, "nonce:") {
            Some(t) => t,
            None => {
                return Err(ProtocolError::BadPayload);
            },
        };
        let index = match parse_u32(idtxt) {
            Some(v) => v,
            None => {
                proof {
                    if spec_parse_decimal(idtxt@) is Some {
                        crate::text::lemma_digits_value_nonneg(idtxt@);
                    }
                }
                return Err(ProtocolError::BadPayload);
            },
        };
        let timestamp = match parse_u128(tstxt) {
            Some(v) => v,
            None => {
                proof {
                    if spec_parse_decimal(tstxt@) is Some {
                        crate::text::lemma_digits_value_nonneg(tstxt@);
                    }
                }
                return Err(ProtocolError::BadPayload);
            },
        };
        let nonce = match parse_u64(noncetxt) {
            Some(v) => v,
            None => {
                proof {
                    if spec_parse_decimal(noncetxt@) is Some {
                        crate::text::lemma_digits_value_nonneg(noncetxt@);
                    }
                }
                return Err(ProtocolError::BadPayload);
            },
        };
        let b = Block {
            index,
            payload: String::from_str(payload),
            timestamp,
            nonce,
            prev_hash: prevtxt.as_bytes_vec(),
            hash: hashtxt.as_bytes_vec(),
        };
        Ok(b)
    }
}

// ---------------------------------------------------------------------------
// Proof of work and chain validity
// ---------------------------------------------------------------------------

/// How many leading zero hex characters a block hash must carry.
pub const MINING_DIFFICULTY: usize = 1;

/// How many pooled transactions trigger the mining of a block.
pub const BLOCK_PAYLOAD_SIZE: usize = 5;

/// The hex digest text of the genesis predecessor, derived from a fixed
/// seed string.
pub open spec fn genesis_prev_chars() -> Seq<char> {
    hex_of(sha256_of(encode_utf8(("first_block")@)))
}

pub fn genesis_prev_text() -> (r: String)
    ensures
        r@ == genesis_prev_chars(),
        r@.len() == 64,
{
    let d = sha256_digest("first_block".as_bytes());
    hex_encode(&d)
}

/// The text that is hashed to seal a block: the decimal index, the payload,
/// the decimal timestamp, the decimal nonce and the predecessor's hex text,
/// concatenated.
pub open spec fn spec_hash_input(
    index: u32,
    payload: Seq<char>,
    timestamp: u128,
    nonce: u64,
    prev_text: Seq<char>,
) -> Seq<char> {
    spec_decimal(index as nat) + payload + spec_decimal(timestamp as nat) + spec_decimal(
        nonce as nat,
    ) + prev_text
}

/// The hex digest text of a block's hash input.
pub open spec fn spec_block_digest(
    index: u32,
    payload: Seq<char>,
    timestamp: u128,
    nonce: u64,
    prev_text: Seq<char>,
) -> Seq<char> {
    hex_of(sha256_of(encode_utf8(spec_hash_input(index, payload, timestamp, nonce, prev_text))))
}

pub fn compute_block_hash(
    index: u32,
    payload: &String,
    timestamp: u128,
    nonce: u64,
    prev_text: &String,
) -> (r: String)
    ensures
        r@ == spec_block_digest(index, payload@, timestamp, nonce, prev_text@),
        r@.len() == 64,
{
    let mut input = u32_to_string(index);
    input.append(payload.as_str());
    let ts = u128_to_string(timestamp);
    input.append(ts.as_str());
    let non = u64_to_string(nonce);
    input.append(non.as_str());
    input.append(prev_text.as_str());
    proof {
        assert(input@ =~= spec_hash_input(index, payload@, timestamp, nonce, prev_text@));
    }
    let d = sha256_digest(input.as_str().as_bytes());
    hex_encode(&d)
}

pub open spec fn spec_has_difficulty(s: Seq<char>, k: int) -> bool {
    s.len() >= k && forall|i: int| 0 <= i < k ==> s[i] == '0'
}

pub fn has_leading_zeros(s: &String, k: usize) -> (r: bool)
    ensures
        r == spec_has_difficulty(s@, k as int),
{
    let n = s.as_str().unicode_len();
    if n < k {
        return false;
    }
    let mut i: usize = 0;
    while i < k
        invariant
            i <= k <= n == s@.len(),
            forall|j: int| 0 <= j < i ==> s@[j] == '0',
        decreases k - i,
    {
        if s.as_str().get_char(i) != '0' {
            return false;
        }
        i = i + 1;
    }
    true
}

/// The views of a vector of blocks.
pub open spec fn chain_view(blocks: Seq<Block>) -> Seq<BlockView> {
    blocks.map_values(|b: Block| b@)
}

/// The predecessor hex text that the next block must name: the tip's hash
/// text, or the genesis text for an empty chain.
pub open spec fn tip_prev_chars(blocks: Seq<BlockView>) -> Seq<char> {
    if blocks.len() == 0 {
        genesis_prev_chars()
    } else {
        bytes_to_chars(blocks.last().hash)
    }
}

/// What it means for a candidate to seal the chain as its next block.
pub open spec fn candidate_ok(blocks: Seq<BlockView>, b: BlockView) -> bool {
    &&& b.index == blocks.len()
    &&& b.prev_hash == chars_to_bytes(tip_prev_chars(blocks))
    &&& b.hash == chars_to_bytes(
        spec_block_digest(b.index, b.payload, b.timestamp, b.nonce, tip_prev_chars(blocks)),
    )
    &&& spec_has_difficulty(
        spec_block_digest(b.index, b.payload, b.timestamp, b.nonce, tip_prev_chars(blocks)),
        MINING_DIFFICULTY as int,
    )
}

/// A well-formed chain: every block seals the chain before it.
pub open spec fn chain_wf(blocks: Seq<BlockView>) -> bool {
    forall|i: int|
        0 <= i < blocks.len() ==> candidate_ok(blocks.subrange(0, i), #[trigger] blocks[i])
}

/// Appending an acceptable candidate keeps the chain well-formed.
pub proof fn lemma_chain_append(blocks: Seq<BlockView>, b: BlockView)
    requires
        chain_wf(blocks),
        candidate_ok(blocks, b),
    ensures
        chain_wf(blocks.push(b)),
{
    let p = blocks.push(b);
    assert forall|i: int| 0 <= i < p.len() implies candidate_ok(
        p.subrange(0, i),
        #[trigger] p[i],
    ) by {
        if i < blocks.len() {
            assert(p.subrange(0, i) =~= blocks.subrange(0, i));
            assert(p[i] == blocks[i]);
        } else {
            assert(p.subrange(0, i) =~= blocks);
            assert(p[i] == b);
        }
    }
}

/// Hash chain integrity: in a well-formed chain every block after the first
/// names its predecessor's hash as `prev_hash`, every block's hash is the
/// SHA-256 hex digest of its fields, and every hash meets the difficulty.
pub proof fn lemma_hash_chain_integrity(blocks: Seq<BlockView>, i: int)
    requires
        chain_wf(blocks),
        0 <= i < blocks.len(),
    ensures
        blocks[i].index == i,
        i > 0 ==> blocks[i].prev_hash == blocks[i - 1].hash,
        blocks[i].hash == chars_to_bytes(
            spec_block_digest(
                blocks[i].index,
                blocks[i].payload,
                blocks[i].timestamp,
                blocks[i].nonce,
                tip_prev_chars(blocks.subrange(0, i)),
            ),
        ),
        spec_has_difficulty(
            spec_block_digest(
                blocks[i].index,
                blocks[i].payload,
                blocks[i].timestamp,
                blocks[i].nonce,
                tip_prev_chars(blocks.subrange(0, i)),
            ),
            MINING_DIFFICULTY as int,
        ),
{
    assert(candidate_ok(blocks.subrange(0, i), blocks[i]));
    assert(blocks.subrange(0, i).len() == i);
    if i > 0 {
        let pre = blocks.subrange(0, i);
        assert(pre.last() == blocks[i - 1]);
        assert(candidate_ok(blocks.subrange(0, i - 1), blocks[i - 1]));
        let prev_digest = spec_block_digest(
            blocks[i - 1].index,
            blocks[i - 1].payload,
            blocks[i - 1].timestamp,
            blocks[i - 1].nonce,
            tip_prev_chars(blocks.subrange(0, i - 1)),
        );
        assert(blocks[i - 1].hash == chars_to_bytes(prev_digest));
        lemma_hex_digest_ascii(prev_digest);
        assert(bytes_to_chars(blocks[i - 1].hash) =~= prev_digest);
        assert(blocks[i].prev_hash == chars_to_bytes(bytes_to_chars(blocks[i - 1].hash)));
        lemma_hex_digest_bytes_id(blocks[i - 1].hash, prev_digest);
    }
}

/// A digest text is ASCII.
proof fn lemma_hex_digest_ascii(digest: Seq<char>)
    requires
        exists|d: Seq<u8>| digest == hex_of(d),
    ensures
        is_ascii_chars(digest),
        bytes_to_chars(chars_to_bytes(digest)) =~= digest,
{
    let d = choose|d: Seq<u8>| digest == hex_of(d);
    lemma_hex_props(d);
    lemma_ascii_chars_bytes_id(digest);
}

proof fn lemma_hex_digest_bytes_id(hash: Seq<u8>, digest: Seq<char>)
    requires
        hash == chars_to_bytes(digest),
        is_ascii_chars(digest),
    ensures
        chars_to_bytes(bytes_to_chars(hash)) == hash,
{
    lemma_ascii_chars_bytes_id(digest);
}

/// Checks a candidate against the current chain, naming what is wrong.
pub fn validate_candidate(blocks: &Vec<Block>, b: &Block) -> (r: Result<(), ConsensusError>)
    requires
        chain_wf(chain_view(blocks@)),
    ensures
        r is Ok <==> candidate_ok(chain_view(blocks@), b@),
        r matches Err(e) ==> match e {
            ConsensusError::IndexMismatch => b@.index != blocks@.len(),
            ConsensusError::BrokenChain => b@.index == blocks@.len() && b@.prev_hash
                != chars_to_bytes(tip_prev_chars(chain_view(blocks@))),
            ConsensusError::BadProofOfWork => b@.index == blocks@.len() && b@.prev_hash
                == chars_to_bytes(tip_prev_chars(chain_view(blocks@))) && !(b@.hash
                == chars_to_bytes(
                spec_block_digest(
                    b@.index,
                    b@.payload,
                    b@.timestamp,
                    b@.nonce,
                    tip_prev_chars(chain_view(blocks@)),
                ),
            ) && spec_has_difficulty(
                spec_block_digest(
                    b@.index,
                    b@.payload,
                    b@.timestamp,
                    b@.nonce,
                    tip_prev_chars(chain_view(blocks@)),
                ),
                MINING_DIFFICULTY as int,
            )),
        },
{
    if (b.index as u64) != (blocks.len() as u64) {
        return Err(ConsensusError::IndexMismatch);
    }
    let prev_text = tip_prev_text(blocks);
    let prev_bytes: &[u8] = prev_text.as_str().as_bytes();
    proof {
        lemma_tip_ascii(chain_view(blocks@));
        lemma_ascii_encode_utf8(prev_text@);
    }
    if !bytes_eq(b.prev_hash.as_slice(), prev_bytes) {
        return Err(ConsensusError::BrokenChain);
    }
    let digest = compute_block_hash(b.index, &b.payload, b.timestamp, b.nonce, &prev_text);
    proof {
        lemma_hex_digest_ascii_direct(digest@);
        lemma_ascii_encode_utf8(digest@);
    }
    if !bytes_eq(b.hash.as_slice(), digest.as_str().as_bytes()) {
        return Err(ConsensusError::BadProofOfWork);
    }
    if !has_leading_zeros(&digest, MINING_DIFFICULTY) {
        return Err(ConsensusError::BadProofOfWork);
    }
    Ok(())
}

pub proof fn lemma_hex_digest_ascii_direct(digest: Seq<char>)
    requires
        exists|d: Seq<u8>| digest == hex_of(d),
    ensures
        is_ascii_chars(digest),
{
    let d = choose|d: Seq<u8>| digest == hex_of(d);
    lemma_hex_props(d);
}

/// The tip text every new block must name.
pub fn tip_prev_text(blocks: &Vec<Block>) -> (r: String)
    requires
        chain_wf(chain_view(blocks@)),
    ensures
        r@ == tip_prev_chars(chain_view(blocks@)),
{
    let n = blocks.len();
    if n == 0 {
        genesis_prev_text()
    } else {
        proof {
            lemma_tip_hash_ascii(chain_view(blocks@));
        }
        let h = clone_bytes(&blocks[n - 1].hash);
        ascii_string_from_bytes(h)
    }
}

pub proof fn lemma_tip_hash_ascii(blocks: Seq<BlockView>)
    requires
        chain_wf(blocks),
        blocks.len() > 0,
    ensures
        is_ascii_bytes(blocks.last().hash),
{
    let i = blocks.len() - 1;
    assert(candidate_ok(blocks.subrange(0, i), blocks[i]));
    let digest = spec_block_digest(
        blocks[i].index,
        blocks[i].payload,
        blocks[i].timestamp,
        blocks[i].nonce,
        tip_prev_chars(blocks.subrange(0, i)),
    );
    lemma_hex_props(
        sha256_of(
            encode_utf8(
                spec_hash_input(
                    blocks[i].index,
                    blocks[i].payload,
                    blocks[i].timestamp,
                    blocks[i].nonce,
                    tip_prev_chars(blocks.subrange(0, i)),
                ),
            ),
        ),
    );
    assert(blocks[i].hash == chars_to_bytes(digest));
    assert forall|k: int| 0 <= k < blocks.last().hash.len() implies #[trigger] blocks.last().hash[k]
        < 0x80 by {
        lemma_ascii_char(digest[k]);
    }
}

pub proof fn lemma_tip_ascii(blocks: Seq<BlockView>)
    requires
        chain_wf(blocks),
    ensures
        is_ascii_chars(tip_prev_chars(blocks)),
{
    if blocks.len() == 0 {
        lemma_hex_props(sha256_of(encode_utf8(("first_block")@)));
    } else {
        lemma_tip_hash_ascii(blocks);
        crate::text::lemma_ascii_bytes_chars_id(blocks.last().hash);
    }
}

fn bytes_eq(a: &[u8], b: &[u8]) -> (r: bool)
    ensures
        r == (a@ == b@),
{
    let na = a.len();
    let nb = b.len();
    if na != nb {
        return false;
    }
    let mut i: usize = 0;
    while i < na
        invariant
            i <= na,
            na == a@.len() == b@.len() == nb,
            forall|j: int| 0 <= j < i ==> a@[j] == b@[j],
        decreases na - i,
    {
        if *vstd::slice::slice_index_get(a, i) != *vstd::slice::slice_index_get(b, i) {
            return false;
        }
        i = i + 1;
    }
    proof {
        assert(a@ =~= b@);
    }
    true
}

/// A prefix of a well-formed chain is well formed.
pub proof fn lemma_chain_prefix_wf(blocks: Seq<BlockView>, n: int)
    requires
        chain_wf(blocks),
        0 <= n <= blocks.len(),
    ensures
        chain_wf(blocks.subrange(0, n)),
{
    let sub = blocks.subrange(0, n);
    assert forall|i: int| 0 <= i < sub.len() implies candidate_ok(
        sub.subrange(0, i),
        #[trigger] sub[i],
    ) by {
        assert(sub.subrange(0, i) =~= blocks.subrange(0, i));
        assert(sub[i] == blocks[i]);
    }
}

/// Every hash field of a well-formed chain holds ASCII text.
pub proof fn lemma_chain_block_ascii(blocks: Seq<BlockView>, i: int)
    requires
        chain_wf(blocks),
        0 <= i < blocks.len(),
    ensures
        is_ascii_bytes(blocks[i].hash),
        is_ascii_bytes(blocks[i].prev_hash),
{
    lemma_chain_prefix_wf(blocks, i + 1);
    let sub = blocks.subrange(0, i + 1);
    lemma_tip_hash_ascii(sub);
    assert(sub.last() == blocks[i]);
    assert(candidate_ok(blocks.subrange(0, i), blocks[i]));
    lemma_chain_prefix_wf(blocks, i);
    lemma_tip_ascii(blocks.subrange(0, i));
    let pt = tip_prev_chars(blocks.subrange(0, i));
    assert(blocks[i].prev_hash == chars_to_bytes(pt));
    assert forall|k: int| 0 <= k < blocks[i].prev_hash.len() implies #[trigger] blocks[
        i
    ].prev_hash[k] < 0x80 by {
        crate::text::lemma_ascii_char(pt[k]);
    }
}

/// A block the engine discards: the reason it cannot extend the chain.
#[derive(Copy, Clone, Debug, PartialEq, Eq, Structural)]
pub enum ConsensusError {
    IndexMismatch,
    BrokenChain,
    BadProofOfWork,
}

/// What it means for a block to come out of the proof-of-work search at a
/// given time: it seals the chain, carries the joined transactions and the
/// timestamp, and its nonce is the least one whose digest meets the
/// difficulty.
pub open spec fn mined_ok(
    blocks: Seq<BlockView>,
    payload: Seq<char>,
    now: u128,
    b: BlockView,
) -> bool {
    &&& candidate_ok(blocks, b)
    &&& b.payload == payload
    &&& b.timestamp == now
    &&& forall|k: u64|
        k < b.nonce ==> !spec_has_difficulty(
            #[trigger] spec_block_digest(b.index, payload, now, k, tip_prev_chars(blocks)),
            MINING_DIFFICULTY as int,
        )
}

/// The proof-of-work search: tries nonces from zero upward and stops at the
/// first whose digest meets the difficulty. `None` only if no nonce below
/// `u64::MAX` works.
pub fn mine_block(blocks: &Vec<Block>, transactions: String, timestamp: u128) -> (r: Option<Block>)
    requires
        chain_wf(chain_view(blocks@)),
        blocks@.len() <= u32::MAX,
    ensures
        r matches Some(b) ==> mined_ok(chain_view(blocks@), transactions@, timestamp, b@),
        r is None ==> forall|k: u64|
            k < u64::MAX ==> !spec_has_difficulty(
                #[trigger] spec_block_digest(
                    blocks@.len() as u32,
                    transactions@,
                    timestamp,
                    k,
                    tip_prev_chars(chain_view(blocks@)),
                ),
                MINING_DIFFICULTY as int,
            ),
{
    let index: u32 = blocks.len() as u32;
    proof {
        assert(chain_view(blocks@).len() == blocks@.len());
    }
    let prev_text = tip_prev_text(blocks);
    let mut nonce: u64 = 0;
    while nonce < u64::MAX
        invariant
            chain_wf(chain_view(blocks@)),
            index == blocks@.len(),
            prev_text@ == tip_prev_chars(chain_view(blocks@)),
            forall|k: u64|
                k < nonce ==> !spec_has_difficulty(
                    #[trigger] spec_block_digest(index, transactions@, timestamp, k, prev_text@),
                    MINING_DIFFICULTY as int,
                ),
        decreases u64::MAX - nonce,
    {
        let digest = compute_block_hash(index, &transactions, timestamp, nonce, &prev_text);
        if has_leading_zeros(&digest, MINING_DIFFICULTY) {
            proof {
                lemma_hex_digest_ascii_direct(digest@);
                lemma_ascii_encode_utf8(digest@);
                lemma_tip_ascii(chain_view(blocks@));
                lemma_ascii_encode_utf8(prev_text@);
            }
            let b = Block {
                index,
                payload: transactions,
                timestamp,
                nonce,
                prev_hash: prev_text.as_str().as_bytes_vec(),
                hash: digest.as_str().as_bytes_vec(),
            };
            proof {
                assert(b@.prev_hash =~= chars_to_bytes(prev_text@));
                assert(b@.hash =~= chars_to_bytes(digest@));
            }
            return Some(b);
        }
        nonce = nonce + 1;
    }
    None
}

} // verus!
