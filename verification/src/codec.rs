use vstd::prelude::*;
use vstd::utf8::*;
use vstd::slice::slice_index_get;
use vstd::string::StrSliceExecFns;
use vstd::string::StringExecFns;

use crate::text::{
    all_digits, ascii_string_from_bytes, bytes_to_chars, bytes_to_string, chars_to_bytes,
    digit_char, is_ascii_bytes, lemma_ascii_char, lemma_ascii_chars_bytes_id,
    lemma_ascii_encode_utf8, push_char,
};

verus! {

// ---------------------------------------------------------------------------
// Protocol tags and errors
// ---------------------------------------------------------------------------

/// The request kind carried in the first byte of every frame.
#[derive(Copy, Clone, Debug, PartialEq, Eq, Structural)]
pub enum Flag {
    Okay,
    Connect,
    Disconnect,
    RequireID,
    GiveID,
    BroadcastConnect,
    BroadcastDisconnect,
    Check,
    Ack,
    Block,
    Transaction,
    MineTransaction,
    OkMineTransaction,
    RequireWalletID,
    RequireBlockchain,
    SendBlockchain,
}

/// A frame from a peer that cannot be understood; the connection is dropped,
/// the node keeps running.
#[derive(Copy, Clone, Debug, PartialEq, Eq, Structural)]
pub enum ProtocolError {
    /// Fewer bytes than the fixed-width header needs.
    Truncated,
    /// A tag byte outside the known range.
    UnknownTag(u8),
    /// A region that must hold text does not decode.
    NonUtf8,
    /// An address or id field holding a character that collides with the
    /// padding sentinels or is otherwise illegal there.
    FieldCollision,
    /// A payload whose content does not parse as the tag demands.
    BadPayload,
}

impl Flag {
    /// The byte that stands for this tag on the wire.
    pub open spec fn spec_to_u8(self) -> u8 {
        match self {
            Flag::Okay => 0,
            Flag::Connect => 1,
            Flag::Disconnect => 2,
            Flag::RequireID => 3,
            Flag::GiveID => 4,
            Flag::BroadcastConnect => 5,
            Flag::BroadcastDisconnect => 6,
            Flag::Check => 7,
            Flag::Ack => 8,
            Flag::Block => 9,
            Flag::Transaction => 10,
            Flag::MineTransaction => 11,
            Flag::OkMineTransaction => 12,
            Flag::RequireWalletID => 13,
            Flag::RequireBlockchain => 14,
            Flag::SendBlockchain => 15,
        }
    }

    pub open spec fn spec_from_u8(value: u8) -> Option<Flag> {
        if value == 0 {
            Some(Flag::Okay)
        } else if value == 1 {
            Some(Flag::Connect)
        } else if value == 2 {
            Some(Flag::Disconnect)
        } else if value == 3 {
            Some(Flag::RequireID)
        } else if value == 4 {
            Some(Flag::GiveID)
        } else if value == 5 {
            Some(Flag::BroadcastConnect)
        } else if value == 6 {
            Some(Flag::BroadcastDisconnect)
        } else if value == 7 {
            Some(Flag::Check)
        } else if value == 8 {
            Some(Flag::Ack)
        } else if value == 9 {
            Some(Flag::Block)
        } else if value == 10 {
            Some(Flag::Transaction)
        } else if value == 11 {
            Some(Flag::MineTransaction)
        } else if value == 12 {
            Some(Flag::OkMineTransaction)
        } else if value == 13 {
            Some(Flag::RequireWalletID)
        } else if value == 14 {
            Some(Flag::RequireBlockchain)
        } else if value == 15 {
            Some(Flag::SendBlockchain)
        } else {
            None
        }
    }

    pub fn to_u8(self) -> (r: u8)
        ensures
            r == self.spec_to_u8(),
    {
        match self {
            Flag::Okay => 0,
            Flag::Connect => 1,
            Flag::Disconnect => 2,
            Flag::RequireID => 3,
            Flag::GiveID => 4,
            Flag::BroadcastConnect => 5,
            Flag::BroadcastDisconnect => 6,
            Flag::Check => 7,
            Flag::Ack => 8,
            Flag::Block => 9,
            Flag::Transaction => 10,
            Flag::MineTransaction => 11,
            Flag::OkMineTransaction => 12,
            Flag::RequireWalletID => 13,
            Flag::RequireBlockchain => 14,
            Flag::SendBlockchain => 15,
        }
    }

    /// Reads a tag byte; an out-of-range value is a typed error, never a halt.
    pub fn from_u8(value: u8) -> (r: Result<Flag, ProtocolError>)
        ensures
            match r {
                Ok(f) => Flag::spec_from_u8(value) == Some(f),
                Err(e) => Flag::spec_from_u8(value) is None && e == ProtocolError::UnknownTag(
                    value,
                ),
            },
    {
        if value == 0 {
            Ok(Flag::Okay)
        } else if value == 1 {
            Ok(Flag::Connect)
        } else if value == 2 {
            Ok(Flag::Disconnect)
        } else if value == 3 {
            Ok(Flag::RequireID)
        } else if value == 4 {
            Ok(Flag::GiveID)
        } else if value == 5 {
            Ok(Flag::BroadcastConnect)
        } else if value == 6 {
            Ok(Flag::BroadcastDisconnect)
        } else if value == 7 {
            Ok(Flag::Check)
        } else if value == 8 {
            Ok(Flag::Ack)
        } else if value == 9 {
            Ok(Flag::Block)
        } else if value == 10 {
            Ok(Flag::Transaction)
        } else if value == 11 {
            Ok(Flag::MineTransaction)
        } else if value == 12 {
            Ok(Flag::OkMineTransaction)
        } else if value == 13 {
            Ok(Flag::RequireWalletID)
        } else if value == 14 {
            Ok(Flag::RequireBlockchain)
        } else if value == 15 {
            Ok(Flag::SendBlockchain)
        } else {
            Err(ProtocolError::UnknownTag(value))
        }
    }
}

pub proof fn lemma_flag_round_trip(flag: Flag)
    ensures
        Flag::spec_from_u8(flag.spec_to_u8()) == Some(flag),
{
}

// ---------------------------------------------------------------------------
// Field validity
// ---------------------------------------------------------------------------

/// Characters allowed in an address: printable ASCII without the padding
/// sentinels and without the list separators of the payload grammar.
pub open spec fn addr_code_ok(u: u32) -> bool {
    &&& 0x20 <= u <= 0x7e
    &&& u != 0x58  // 'X'
    &&& u != 0x59  // 'Y'
    &&& u != 0x2c  // ','
    &&& u != 0x3b  // ';'
}

pub open spec fn addr_char_ok(c: char) -> bool {
    addr_code_ok(c as u32)
}

pub open spec fn valid_address(s: Seq<char>) -> bool {
    &&& s.len() <= 21
    &&& forall|i: int| 0 <= i < s.len() ==> addr_char_ok(#[trigger] s[i])
}

/// An id field holds at most ten decimal digits (possibly none).
pub open spec fn valid_id(s: Seq<char>) -> bool {
    &&& s.len() <= 10
    &&& all_digits(s)
}

/// A payload survives the trailing-pad trim exactly when it does not end in
/// a padding sentinel or a zero character.
pub open spec fn pad_or_nul_char(c: char) -> bool {
    (c as u32) == 0x58 || (c as u32) == 0x59 || (c as u32) == 0
}

pub open spec fn valid_payload(s: Seq<char>) -> bool {
    s.len() == 0 || !pad_or_nul_char(s[s.len() - 1])
}

pub open spec fn addr_byte_ok(b: u8) -> bool {
    addr_code_ok(b as u32)
}

pub open spec fn digit_byte(b: u8) -> bool {
    0x30 <= b <= 0x39
}

pub open spec fn payload_pad_byte(b: u8) -> bool {
    b == 0x58 || b == 0x59 || b == 0
}

// ---------------------------------------------------------------------------
// Padding
// ---------------------------------------------------------------------------

pub open spec fn spec_pad(s: Seq<char>, width: int, fill: char) -> Seq<char> {
    if s.len() >= width {
        s
    } else {
        s + Seq::new((width - s.len()) as nat, |_j: int| fill)
    }
}

/// Add padding to the socket ip to allow fixed size fields on the wire.
pub fn encode_sockip(sockip: String) -> (r: String)
    ensures
        r@ == spec_pad(sockip@, 21, 'X'),
{
    pad_to(sockip, 21, 'X')
}

/// Add padding to the id field to allow fixed size fields on the wire.
pub fn encode_id(id: String) -> (r: String)
    ensures
        r@ == spec_pad(id@, 10, 'Y'),
{
    pad_to(id, 10, 'Y')
}

fn pad_to(s: String, width: usize, fill: char) -> (r: String)
    ensures
        r@ == spec_pad(s@, width as int, fill),
{
    let n = s.as_str().unicode_len();
    if n >= width {
        return s;
    }
    let ghost orig = s@;
    let mut out = s;
    let mut i: usize = n;
    while i < width
        invariant
            n <= i <= width,
            n == orig.len(),
            out@ =~= orig + Seq::new((i - n) as nat, |_j: int| fill),
        decreases width - i,
    {
        push_char(&mut out, fill);
        i = i + 1;
        proof {
            assert(out@ =~= orig + Seq::new((i - n) as nat, |_j: int| fill));
        }
    }
    proof {
        assert(out@ =~= spec_pad(orig, width as int, fill));
    }
    out
}

/// All occurrences of a character removed, order kept.
pub open spec fn remove_char(s: Seq<char>, x: char) -> Seq<char>
    decreases s.len(),
{
    if s.len() == 0 {
        s
    } else if s.last() == x {
        remove_char(s.drop_last(), x)
    } else {
        remove_char(s.drop_last(), x).push(s.last())
    }
}

/// Remove the padding from the socket ip field.
pub fn decode_sockip(sockip: String) -> (r: String)
    ensures
        r@ == remove_char(sockip@, 'X'),
{
    remove_all(sockip, 'X')
}

/// Remove the padding from the id field.
pub fn decode_id(message: String) -> (r: String)
    ensures
        r@ == remove_char(message@, 'Y'),
{
    remove_all(message, 'Y')
}

/// Remove the padding from an id carried in a reply payload.
pub fn decode_id_response(message: String) -> (r: String)
    ensures
        r@ == remove_char(message@, 'Y'),
{
    remove_all(message, 'Y')
}

fn remove_all(s: String, x: char) -> (r: String)
    ensures
        r@ == remove_char(s@, x),
{
    let n = s.as_str().unicode_len();
    let mut out = String::new();
    let mut i: usize = 0;
    while i < n
        invariant
            i <= n == s@.len(),
            out@ =~= remove_char(s@.subrange(0, i as int), x),
        decreases n - i,
    {
        let c = s.as_str().get_char(i);
        if c != x {
            push_char(&mut out, c);
        }
        i = i + 1;
        proof {
            assert(s@.subrange(0, i as int).drop_last() =~= s@.subrange(0, i as int - 1));
            assert(out@ =~= remove_char(s@.subrange(0, i as int), x));
        }
    }
    proof {
        assert(s@.subrange(0, n as int) =~= s@);
    }
    out
}

/// Padding removal undoes padding for text free of the fill character.
pub proof fn lemma_remove_of_padded(s: Seq<char>, width: int, fill: char)
    requires
        forall|i: int| 0 <= i < s.len() ==> #[trigger] s[i] != fill,
    ensures
        remove_char(spec_pad(s, width, fill), fill) =~= s,
{
    if s.len() >= width {
        lemma_remove_absent(s, fill);
    } else {
        lemma_remove_of_padded_n(s, (width - s.len()) as nat, fill);
    }
}

proof fn lemma_remove_absent(s: Seq<char>, fill: char)
    requires
        forall|i: int| 0 <= i < s.len() ==> #[trigger] s[i] != fill,
    ensures
        remove_char(s, fill) =~= s,
    decreases s.len(),
{
    if s.len() > 0 {
        lemma_remove_absent(s.drop_last(), fill);
        assert(remove_char(s, fill) =~= s.drop_last().push(s.last()));
        assert(s.drop_last().push(s.last()) =~= s);
    }
}

proof fn lemma_remove_of_padded_n(s: Seq<char>, k: nat, fill: char)
    requires
        forall|i: int| 0 <= i < s.len() ==> #[trigger] s[i] != fill,
    ensures
        remove_char(s + Seq::new(k, |_j: int| fill), fill) =~= s,
    decreases k,
{
    let t = s + Seq::new(k, |_j: int| fill);
    if k == 0 {
        assert(t =~= s);
        lemma_remove_absent(s, fill);
    } else {
        assert(t.last() == fill);
        assert(t.drop_last() =~= s + Seq::new((k - 1) as nat, |_j: int| fill));
        lemma_remove_of_padded_n(s, (k - 1) as nat, fill);
    }
}

// ---------------------------------------------------------------------------
// Trailing-byte stripping (decode side)
// ---------------------------------------------------------------------------

pub open spec fn strip_trailing_byte(s: Seq<u8>, fill: u8) -> Seq<u8>
    decreases s.len(),
{
    if s.len() > 0 && s.last() == fill {
        strip_trailing_byte(s.drop_last(), fill)
    } else {
        s
    }
}

pub open spec fn strip_trailing_pad(s: Seq<u8>) -> Seq<u8>
    decreases s.len(),
{
    if s.len() > 0 && payload_pad_byte(s.last()) {
        strip_trailing_pad(s.drop_last())
    } else {
        s
    }
}

/// Stripping a fill byte undoes padding when the core does not end in it.
pub proof fn lemma_strip_of_padded(s: Seq<u8>, k: nat, fill: u8)
    requires
        s.len() == 0 || s.last() != fill,
    ensures
        strip_trailing_byte(s + Seq::new(k, |_j: int| fill), fill) =~= s,
    decreases k,
{
    let t = s + Seq::new(k, |_j: int| fill);
    if k == 0 {
        assert(t =~= s);
    } else {
        assert(t.last() == fill);
        assert(t.drop_last() =~= s + Seq::new((k - 1) as nat, |_j: int| fill));
        lemma_strip_of_padded(s, (k - 1) as nat, fill);
    }
}

// ---------------------------------------------------------------------------
// Messages
// ---------------------------------------------------------------------------

/// One decoded frame: tag, sender address, sender id (decimal text, possibly
/// empty) and the payload text.
#[derive(Debug)]
pub struct Message {
    pub flag: Flag,
    pub sender_addr: String,
    pub sender_id: String,
    pub payload: String,
}

pub struct MessageView {
    pub flag: Flag,
    pub sender_addr: Seq<char>,
    pub sender_id: Seq<char>,
    pub payload: Seq<char>,
}

impl View for Message {
    type V = MessageView;

    open spec fn view(&self) -> MessageView {
        MessageView {
            flag: self.flag,
            sender_addr: self.sender_addr@,
            sender_id: self.sender_id@,
            payload: self.payload@,
        }
    }
}

// ---------------------------------------------------------------------------
// Frame layout: 1 byte tag, 21 bytes address padded with 'X', 10 bytes id
// padded with 'Y', then the UTF-8 payload.
// ---------------------------------------------------------------------------

pub open spec fn spec_encode_message(
    flag: Flag,
    addr: Seq<char>,
    id: Seq<char>,
    payload: Seq<char>,
) -> Seq<u8> {
    seq![flag.spec_to_u8()] + chars_to_bytes(spec_pad(addr, 21, 'X')) + chars_to_bytes(
        spec_pad(id, 10, 'Y'),
    ) + encode_utf8(payload)
}

pub open spec fn spec_decode_message(bytes: Seq<u8>) -> Result<MessageView, ProtocolError> {
    if bytes.len() < 32 {
        Err(ProtocolError::Truncated)
    } else {
        match Flag::spec_from_u8(bytes[0]) {
            None => Err(ProtocolError::UnknownTag(bytes[0])),
            Some(flag) => {
                let addr_bytes = strip_trailing_byte(bytes.subrange(1, 22), 0x58);
                let id_bytes = strip_trailing_byte(bytes.subrange(22, 32), 0x59);
                let payload_bytes = strip_trailing_pad(bytes.subrange(32, bytes.len() as int));
                if exists|i: int| 0 <= i < addr_bytes.len() && #[trigger] addr_bytes[i] >= 0x80 {
                    Err(ProtocolError::NonUtf8)
                } else if !(forall|i: int|
                    0 <= i < addr_bytes.len() ==> addr_byte_ok(#[trigger] addr_bytes[i])) {
                    Err(ProtocolError::FieldCollision)
                } else if exists|i: int|
                    0 <= i < id_bytes.len() && #[trigger] id_bytes[i] >= 0x80 {
                    Err(ProtocolError::NonUtf8)
                } else if !(forall|i: int|
                    0 <= i < id_bytes.len() ==> digit_byte(#[trigger] id_bytes[i])) {
                    Err(ProtocolError::FieldCollision)
                } else if !valid_utf8(payload_bytes) {
                    Err(ProtocolError::NonUtf8)
                } else {
                    Ok(
                        MessageView {
                            flag,
                            sender_addr: bytes_to_chars(addr_bytes),
                            sender_id: bytes_to_chars(id_bytes),
                            payload: decode_utf8(payload_bytes),
                        },
                    )
                }
            },
        }
    }
}

// ---------------------------------------------------------------------------
// Executable codec
// ---------------------------------------------------------------------------

/// Concatenation of two byte slices, in order.
pub fn concat_u8(first: &[u8], second: &[u8]) -> (r: Vec<u8>)
    ensures
        r@ == first@ + second@,
{
    let mut out: Vec<u8> = Vec::new();
    append_slice(&mut out, first);
    append_slice(&mut out, second);
    proof {
        assert(out@ =~= first@ + second@);
    }
    out
}

fn append_slice(out: &mut Vec<u8>, s: &[u8])
    ensures
        final(out)@ == old(out)@ + s@,
{
    let n = s.len();
    let mut i: usize = 0;
    while i < n
        invariant
            i <= n == s@.len(),
            out@ =~= old(out)@ + s@.subrange(0, i as int),
        decreases n - i,
    {
        out.push(*slice_index_get(s, i));
        i = i + 1;
        proof {
            assert(out@ =~= old(out)@ + s@.subrange(0, i as int));
        }
    }
    proof {
        assert(out@ =~= old(out)@ + s@);
    }
}

fn append_str_bytes(out: &mut Vec<u8>, s: &str)
    ensures
        final(out)@ == old(out)@ + encode_utf8(s@),
{
    let b: &[u8] = s.as_bytes();
    append_slice(out, b);
}

/// Encode a message into one frame. The address and id fields must be valid
/// for the fixed-width sentinel scheme; this is checked by the callers that
/// build frames from local state.
pub fn encode_message(flag: Flag, sockip: String, id: String, msg: String) -> (r: Vec<u8>)
    requires
        valid_address(sockip@),
        valid_id(id@),
    ensures
        r@ == spec_encode_message(flag, sockip@, id@, msg@),
{
    let ghost addr0 = sockip@;
    let ghost id0 = id@;
    let padded_addr = encode_sockip(sockip);
    let padded_id = encode_id(id);
    let mut out: Vec<u8> = Vec::new();
    out.push(flag.to_u8());
    proof {
        lemma_pad_ascii(addr0, 21, 'X');
        lemma_pad_digits_ascii(id0, 10, 'Y');
        lemma_ascii_encode_utf8(spec_pad(addr0, 21, 'X'));
        lemma_ascii_encode_utf8(spec_pad(id0, 10, 'Y'));
    }
    append_str_bytes(&mut out, padded_addr.as_str());
    append_str_bytes(&mut out, padded_id.as_str());
    append_str_bytes(&mut out, msg.as_str());
    proof {
        assert(out@ =~= spec_encode_message(flag, addr0, id0, msg@));
    }
    out
}

proof fn lemma_pad_ascii(s: Seq<char>, width: int, fill: char)
    requires
        valid_address(s),
        (fill as u32) < 0x80,
    ensures
        is_ascii_chars(spec_pad(s, width, fill)),
{
    let p = spec_pad(s, width, fill);
    assert forall|i: int| 0 <= i < p.len() implies '\0' <= #[trigger] p[i] <= '\u{7f}' by {
        if i < s.len() {
            assert(p[i] == s[i]);
            assert(addr_char_ok(s[i]));
            lemma_ascii_char(s[i]);
        } else {
            assert(p[i] == fill);
            lemma_ascii_char(fill);
        }
    }
}

proof fn lemma_pad_digits_ascii(s: Seq<char>, width: int, fill: char)
    requires
        all_digits(s),
        (fill as u32) < 0x80,
    ensures
        is_ascii_chars(spec_pad(s, width, fill)),
{
    let p = spec_pad(s, width, fill);
    assert forall|i: int| 0 <= i < p.len() implies '\0' <= #[trigger] p[i] <= '\u{7f}' by {
        if i < s.len() {
            assert(p[i] == s[i]);
            assert(digit_char(s[i]));
            lemma_ascii_char(s[i]);
        } else {
            assert(p[i] == fill);
            lemma_ascii_char(fill);
        }
    }
}

fn copy_range(v: &[u8], start: usize, end: usize) -> (r: Vec<u8>)
    requires
        start <= end <= v@.len(),
    ensures
        r@ == v@.subrange(start as int, end as int),
{
    let mut out: Vec<u8> = Vec::new();
    let mut i: usize = start;
    while i < end
        invariant
            start <= i <= end <= v@.len(),
            out@ =~= v@.subrange(start as int, i as int),
        decreases end - i,
    {
        out.push(*slice_index_get(v, i));
        i = i + 1;
        proof {
            assert(out@ =~= v@.subrange(start as int, i as int));
        }
    }
    proof {
        assert(out@ =~= v@.subrange(start as int, end as int));
    }
    out
}

fn strip_end_fill(v: &[u8], start: usize, end: usize, fill: u8) -> (r: usize)
    requires
        start <= end <= v@.len(),
    ensures
        start <= r <= end,
        strip_trailing_byte(v@.subrange(start as int, end as int), fill) == v@.subrange(
            start as int,
            r as int,
        ),
        r > start ==> v@[r as int - 1] != fill,
{
    let mut r = end;
    while r > start && *slice_index_get(v, r - 1) == fill
        invariant
            start <= r <= end <= v@.len(),
            strip_trailing_byte(v@.subrange(start as int, end as int), fill)
                == strip_trailing_byte(v@.subrange(start as int, r as int), fill),
        decreases r,
    {
        proof {
            let cur = v@.subrange(start as int, r as int);
            assert(cur.last() == fill);
            assert(cur.drop_last() =~= v@.subrange(start as int, r as int - 1));
        }
        r = r - 1;
    }
    proof {
        let cur = v@.subrange(start as int, r as int);
        if r > start {
            assert(cur.last() != fill);
        }
        assert(strip_trailing_byte(cur, fill) == cur);
    }
    r
}

fn byte_is_pad(b: u8) -> (r: bool)
    ensures
        r == payload_pad_byte(b),
{
    b == 0x58 || b == 0x59 || b == 0
}

fn strip_end_pad(v: &[u8], start: usize, end: usize) -> (r: usize)
    requires
        start <= end <= v@.len(),
    ensures
        start <= r <= end,
        strip_trailing_pad(v@.subrange(start as int, end as int)) == v@.subrange(
            start as int,
            r as int,
        ),
{
    let mut r = end;
    while r > start && byte_is_pad(*slice_index_get(v, r - 1))
        invariant
            start <= r <= end <= v@.len(),
            strip_trailing_pad(v@.subrange(start as int, end as int)) == strip_trailing_pad(
                v@.subrange(start as int, r as int),
            ),
        decreases r,
    {
        proof {
            let cur = v@.subrange(start as int, r as int);
            assert(payload_pad_byte(cur.last()));
            assert(cur.drop_last() =~= v@.subrange(start as int, r as int - 1));
        }
        r = r - 1;
    }
    proof {
        let cur = v@.subrange(start as int, r as int);
        if r > start {
            assert(!payload_pad_byte(cur.last()));
        }
        assert(strip_trailing_pad(cur) == cur);
    }
    r
}

fn range_has_high(v: &[u8], start: usize, end: usize) -> (r: bool)
    requires
        start <= end <= v@.len(),
    ensures
        r == exists|i: int|
            0 <= i < end - start && #[trigger] v@.subrange(start as int, end as int)[i] >= 0x80,
{
    let ghost sub = v@.subrange(start as int, end as int);
    let mut i = start;
    while i < end
        invariant
            start <= i <= end <= v@.len(),
            sub == v@.subrange(start as int, end as int),
            forall|j: int| start <= j < i ==> #[trigger] v@[j] < 0x80,
        decreases end - i,
    {
        if *slice_index_get(v, i) >= 0x80 {
            proof {
                assert(0 <= i - start < end - start && sub[i - start] >= 0x80) by {
                    assert(sub[i - start] == v@[i as int]);
                }
            }
            return true;
        }
        i = i + 1;
    }
    proof {
        assert forall|i: int| 0 <= i < end - start implies !(#[trigger] sub[i] >= 0x80) by {
            assert(sub[i] == v@[i + start]);
        }
    }
    false
}

fn range_addr_ok(v: &[u8], start: usize, end: usize) -> (r: bool)
    requires
        start <= end <= v@.len(),
    ensures
        r == forall|i: int|
            0 <= i < end - start ==> addr_byte_ok(
                #[trigger] v@.subrange(start as int, end as int)[i],
            ),
{
    let ghost sub = v@.subrange(start as int, end as int);
    let mut i = start;
    while i < end
        invariant
            start <= i <= end <= v@.len(),
            sub == v@.subrange(start as int, end as int),
            forall|j: int| start <= j < i ==> addr_byte_ok(#[trigger] v@[j]),
        decreases end - i,
    {
        let b = *slice_index_get(v, i);
        if b < 0x20 || b > 0x7e || b == 0x58 || b == 0x59 || b == 0x2c || b == 0x3b {
            proof {
                assert(sub[i - start] == v@[i as int]);
                assert(!addr_byte_ok(sub[i - start]));
            }
            return false;
        }
        i = i + 1;
    }
    proof {
        assert forall|i: int| 0 <= i < end - start implies addr_byte_ok(#[trigger] sub[i]) by {
            assert(sub[i] == v@[i + start]);
        }
    }
    true
}

fn range_digits_ok(v: &[u8], start: usize, end: usize) -> (r: bool)
    requires
        start <= end <= v@.len(),
    ensures
        r == forall|i: int|
            0 <= i < end - start ==> digit_byte(
                #[trigger] v@.subrange(start as int, end as int)[i],
            ),
{
    let ghost sub = v@.subrange(start as int, end as int);
    let mut i = start;
    while i < end
        invariant
            start <= i <= end <= v@.len(),
            sub == v@.subrange(start as int, end as int),
            forall|j: int| start <= j < i ==> digit_byte(#[trigger] v@[j]),
        decreases end - i,
    {
        let b = *slice_index_get(v, i);
        if b < 0x30 || b > 0x39 {
            proof {
                assert(sub[i - start] == v@[i as int]);
                assert(!digit_byte(sub[i - start]));
            }
            return false;
        }
        i = i + 1;
    }
    proof {
        assert forall|i: int| 0 <= i < end - start implies digit_byte(#[trigger] sub[i]) by {
            assert(sub[i] == v@[i + start]);
        }
    }
    true
}

/// Decode one frame. Every malformed input yields a typed error; no input
/// aborts the node.
pub fn decode_message(msg: &[u8]) -> (r: Result<Message, ProtocolError>)
    ensures
        r is Ok <==> spec_decode_message(msg@) is Ok,
        r matches Ok(m) ==> spec_decode_message(msg@) == Ok::<MessageView, ProtocolError>(m@)
            && valid_address(m.sender_addr@) && valid_id(m.sender_id@),
        r matches Err(e) ==> spec_decode_message(msg@) == Err::<MessageView, ProtocolError>(e),
{
    if msg.len() < 32 {
        return Err(ProtocolError::Truncated);
    }
    let tag = *slice_index_get(msg, 0);
    let flag = match Flag::from_u8(tag) {
        Ok(f) => f,
        Err(e) => {
            return Err(e);
        },
    };
    let ghost addr_bytes = strip_trailing_byte(msg@.subrange(1, 22), 0x58);
    let ghost id_bytes = strip_trailing_byte(msg@.subrange(22, 32), 0x59);
    let addr_end = strip_end_fill(msg, 1, 22, 0x58);
    let id_end = strip_end_fill(msg, 22, 32, 0x59);
    proof {
        assert(addr_bytes == msg@.subrange(1, addr_end as int));
        assert(id_bytes == msg@.subrange(22, id_end as int));
    }
    if range_has_high(msg, 1, addr_end) {
        return Err(ProtocolError::NonUtf8);
    }
    if !range_addr_ok(msg, 1, addr_end) {
        return Err(ProtocolError::FieldCollision);
    }
    if range_has_high(msg, 22, id_end) {
        return Err(ProtocolError::NonUtf8);
    }
    if !range_digits_ok(msg, 22, id_end) {
        return Err(ProtocolError::FieldCollision);
    }
    let pay_end = strip_end_pad(msg, 32, msg.len());
    let addr_vec = copy_range(msg, 1, addr_end);
    let id_vec = copy_range(msg, 22, id_end);
    let pay_vec = copy_range(msg, 32, pay_end);
    proof {
        assert(is_ascii_bytes(addr_vec@));
        assert(is_ascii_bytes(id_vec@));
    }
    let sender_addr = ascii_string_from_bytes(addr_vec);
    let sender_id = ascii_string_from_bytes(id_vec);
    match bytes_to_string(pay_vec) {
        Some(payload) => {
            proof {
                assert forall|i: int| 0 <= i < sender_addr@.len() implies addr_char_ok(
                    #[trigger] sender_addr@[i],
                ) by {
                    assert(addr_byte_ok(addr_bytes[i]));
                    assert(sender_addr@[i] == (addr_bytes[i] as u32) as char);
                }
                assert(valid_address(sender_addr@));
                assert forall|i: int| 0 <= i < sender_id@.len() implies digit_char(
                    #[trigger] sender_id@[i],
                ) by {
                    assert(digit_byte(id_bytes[i]));
                    assert(sender_id@[i] == (id_bytes[i] as u32) as char);
                }
                assert(valid_id(sender_id@));
            }
            Ok(Message { flag, sender_addr, sender_id, payload })
        },
        None => Err(ProtocolError::NonUtf8),
    }
}

// ---------------------------------------------------------------------------
// Round trip
// ---------------------------------------------------------------------------

/// The UTF-8 encoding of text with one more character at the end.
pub proof fn lemma_encode_utf8_push(s: Seq<char>, c: char)
    ensures
        encode_utf8(s.push(c)) =~= encode_utf8(s) + encode_scalar(c as u32),
    decreases s.len(),
{
    let sp = s.push(c);
    if s.len() == 0 {
        assert(sp.len() == 1);
        assert(sp[0] == c);
        assert(sp.drop_first() =~= Seq::<char>::empty());
        assert(encode_utf8(sp.drop_first()) =~= Seq::<u8>::empty());
        assert(encode_utf8(sp) == encode_scalar(sp[0] as u32) + encode_utf8(sp.drop_first()));
        assert(encode_utf8(s) =~= Seq::<u8>::empty());
        assert(encode_utf8(sp) =~= encode_utf8(s) + encode_scalar(c as u32));
    } else {
        assert(sp.len() == s.len() + 1);
        assert(sp[0] == s[0]);
        assert(sp.drop_first() =~= s.drop_first().push(c));
        assert(encode_utf8(sp) == encode_scalar(sp[0] as u32) + encode_utf8(sp.drop_first()));
        lemma_encode_utf8_push(s.drop_first(), c);
        assert(encode_utf8(sp.drop_first()) == encode_utf8(s.drop_first().push(c)));
        assert(encode_utf8(s.drop_first().push(c)) =~= encode_utf8(s.drop_first())
            + encode_scalar(c as u32));
        assert(encode_utf8(s) == encode_scalar(s[0] as u32) + encode_utf8(s.drop_first()));
        assert(encode_utf8(sp) =~= encode_utf8(s) + encode_scalar(c as u32));
    }
}

/// A valid payload's UTF-8 bytes survive the trailing-pad trim.
pub proof fn lemma_payload_strip_identity(p: Seq<char>)
    requires
        valid_payload(p),
    ensures
        strip_trailing_pad(encode_utf8(p)) == encode_utf8(p),
{
    if p.len() == 0 {
        assert(encode_utf8(p) =~= Seq::<u8>::empty());
    } else {
        let q = p.drop_last();
        let c = p.last();
        assert(p =~= q.push(c));
        lemma_encode_utf8_push(q, c);
        let u = c as u32;
        char_is_scalar(c);
        let tail = encode_scalar(u);
        let t = encode_utf8(p);
        assert(t == encode_utf8(q.push(c)));
        assert(t =~= encode_utf8(q) + tail);
        if has_width_1_encoding(u) {
            assert(tail =~= seq![leading_byte_width_1(u)]);
            assert(leading_byte_width_1(u) == u as u8) by (bit_vector)
                requires
                    u < 0x80,
            ;
            assert(!pad_or_nul_char(c));
            assert(u != 0x58 && u != 0x59 && u != 0);
            assert(!payload_pad_byte(t.last()));
        } else {
            assert(tail.last() == last_continuation_byte(u));
            let lb = last_continuation_byte(u);
            assert(lb >= 0x80) by (bit_vector)
                requires
                    lb == 0x80 | (u & 0x3F) as u8,
            ;
            assert(!payload_pad_byte(t.last()));
        }
        assert(strip_trailing_pad(t) == t);
    }
}

/// Codec round trip: decoding an encoded frame yields the message back, for
/// every valid field triple and payload.
pub proof fn lemma_codec_round_trip(flag: Flag, addr: Seq<char>, id: Seq<char>, payload: Seq<char>)
    requires
        valid_address(addr),
        valid_id(id),
        valid_payload(payload),
    ensures
        spec_decode_message(spec_encode_message(flag, addr, id, payload)) == Ok::<
            MessageView,
            ProtocolError,
        >(MessageView { flag, sender_addr: addr, sender_id: id, payload }),
{
    let enc = spec_encode_message(flag, addr, id, payload);
    let pa = spec_pad(addr, 21, 'X');
    let pb = spec_pad(id, 10, 'Y');
    let ca = chars_to_bytes(pa);
    let cb = chars_to_bytes(pb);
    let cp = encode_utf8(payload);
    assert(pa.len() == 21 && pb.len() == 10);
    assert(ca.len() == 21 && cb.len() == 10);
    assert(enc.len() == 32 + cp.len());
    lemma_flag_round_trip(flag);
    assert(enc[0] == flag.spec_to_u8());
    // the three regions of the frame
    assert(enc.subrange(1, 22) =~= ca);
    assert(enc.subrange(22, 32) =~= cb);
    assert(enc.subrange(32, enc.len() as int) =~= cp);
    // address field: strip undoes the padding
    assert(chars_to_bytes(addr).len() == 0 || chars_to_bytes(addr).last() != 0x58) by {
        if addr.len() > 0 {
            let c = addr[addr.len() - 1];
            assert(addr_char_ok(c));
            lemma_ascii_char(c);
            assert(chars_to_bytes(addr).last() == c as u8);
        }
    }
    assert(ca =~= chars_to_bytes(addr) + Seq::new((21 - addr.len()) as nat, |_j: int| 0x58u8)) by {
        assert forall|i: int| 0 <= i < 21 implies ca[i] == (chars_to_bytes(addr) + Seq::new(
            (21 - addr.len()) as nat,
            |_j: int| 0x58u8,
        ))[i] by {
            if i < addr.len() {
                assert(pa[i] == addr[i]);
            } else {
                assert(pa[i] == 'X');
                assert(('X' as u8) == 0x58);
            }
        }
    }
    lemma_strip_of_padded(chars_to_bytes(addr), (21 - addr.len()) as nat, 0x58);
    let addr_bytes = strip_trailing_byte(enc.subrange(1, 22), 0x58);
    assert(addr_bytes == strip_trailing_byte(ca, 0x58));
    assert(addr_bytes =~= chars_to_bytes(addr));
    // id field
    assert(chars_to_bytes(id).len() == 0 || chars_to_bytes(id).last() != 0x59) by {
        if id.len() > 0 {
            let c = id[id.len() - 1];
            assert(digit_char(c));
            lemma_ascii_char(c);
            assert(chars_to_bytes(id).last() == c as u8);
        }
    }
    assert(cb =~= chars_to_bytes(id) + Seq::new((10 - id.len()) as nat, |_j: int| 0x59u8)) by {
        assert forall|i: int| 0 <= i < 10 implies cb[i] == (chars_to_bytes(id) + Seq::new(
            (10 - id.len()) as nat,
            |_j: int| 0x59u8,
        ))[i] by {
            if i < id.len() {
                assert(pb[i] == id[i]);
            } else {
                assert(pb[i] == 'Y');
                assert(('Y' as u8) == 0x59);
            }
        }
    }
    lemma_strip_of_padded(chars_to_bytes(id), (10 - id.len()) as nat, 0x59);
    let id_bytes = strip_trailing_byte(enc.subrange(22, 32), 0x59);
    assert(id_bytes =~= chars_to_bytes(id));
    // field checks pass
    assert(forall|i: int| 0 <= i < addr_bytes.len() ==> #[trigger] addr_bytes[i] < 0x80 && addr_byte_ok(addr_bytes[i])) by {
        assert forall|i: int| 0 <= i < addr_bytes.len() implies #[trigger] addr_bytes[i] < 0x80
            && addr_byte_ok(addr_bytes[i]) by {
            assert(addr_char_ok(addr[i]));
            lemma_ascii_char(addr[i]);
            assert(addr_bytes[i] == addr[i] as u8);
        }
    }
    assert(forall|i: int| 0 <= i < id_bytes.len() ==> #[trigger] id_bytes[i] < 0x80 && digit_byte(id_bytes[i])) by {
        assert forall|i: int| 0 <= i < id_bytes.len() implies #[trigger] id_bytes[i] < 0x80
            && digit_byte(id_bytes[i]) by {
            assert(digit_char(id[i]));
            lemma_ascii_char(id[i]);
            assert(id_bytes[i] == id[i] as u8);
        }
    }
    // payload region
    lemma_payload_strip_identity(payload);
    let payload_bytes = strip_trailing_pad(enc.subrange(32, enc.len() as int));
    assert(payload_bytes == cp);
    encode_utf8_valid_utf8(payload);
    encode_utf8_decode_utf8(payload);
    // field chars come back unchanged
    assert(is_ascii_chars(addr)) by {
        assert forall|i: int| 0 <= i < addr.len() implies '\0' <= #[trigger] addr[i] <= '\u{7f}' by {
            assert(addr_char_ok(addr[i]));
            lemma_ascii_char(addr[i]);
        }
    }
    assert(is_ascii_chars(id)) by {
        assert forall|i: int| 0 <= i < id.len() implies '\0' <= #[trigger] id[i] <= '\u{7f}' by {
            assert(digit_char(id[i]));
            lemma_ascii_char(id[i]);
        }
    }
    lemma_ascii_chars_bytes_id(addr);
    lemma_ascii_chars_bytes_id(id);
    assert(bytes_to_chars(addr_bytes) =~= addr);
    assert(bytes_to_chars(id_bytes) =~= id);
    assert(spec_decode_message(enc) == Ok::<MessageView, ProtocolError>(
        MessageView { flag, sender_addr: addr, sender_id: id, payload },
    ));
}

// ---------------------------------------------------------------------------
// Executable validity checks, for callers that receive untrusted text
// ---------------------------------------------------------------------------

pub fn address_ok(s: &str) -> (r: bool)
    ensures
        r == valid_address(s@),
{
    let n = s.unicode_len();
    if n > 21 {
        return false;
    }
    let mut i: usize = 0;
    while i < n
        invariant
            i <= n == s@.len(),
            n <= 21,
            forall|j: int| 0 <= j < i ==> addr_char_ok(#[trigger] s@[j]),
        decreases n - i,
    {
        let u = s.get_char(i) as u32;
        if u < 0x20 || u > 0x7e || u == 0x58 || u == 0x59 || u == 0x2c || u == 0x3b {
            return false;
        }
        i = i + 1;
    }
    true
}

pub fn id_text_ok(s: &str) -> (r: bool)
    ensures
        r == valid_id(s@),
{
    let n = s.unicode_len();
    if n > 10 {
        return false;
    }
    let mut i: usize = 0;
    while i < n
        invariant
            i <= n == s@.len(),
            n <= 10,
            forall|j: int| 0 <= j < i ==> digit_char(#[trigger] s@[j]),
        decreases n - i,
    {
        let u = s.get_char(i) as u32;
        if u < 0x30 || u > 0x39 {
            return false;
        }
        i = i + 1;
    }
    true
}

} // verus!
