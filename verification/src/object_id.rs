//! Object ids: fixed-width content hashes, their hexadecimal text form and
//! their order.

use vstd::prelude::*;
use vstd::std_specs::cmp::PartialEqSpecImpl;
use vstd::string::StringSliceAdditionalSpecFns;
use vstd::utf8::encode_utf8;
use crate::error::Error;

verus! {

/// The number a hexadecimal digit stands for, or `-1` for any other byte.
/// Both cases of the letters are digits.
pub open spec fn hex_digit_value(b: u8) -> int {
    if 48 <= b <= 57 {
        b - 48
    } else if 97 <= b <= 102 {
        b - 87
    } else if 65 <= b <= 70 {
        b - 55
    } else {
        -1
    }
}

/// True for the bytes `0-9`, `a-f` and `A-F`.
pub open spec fn is_hex_digit(b: u8) -> bool {
    hex_digit_value(b) >= 0
}

/// True if `text` is the hexadecimal form of an object id: 40 or 64 digits.
pub open spec fn is_hex_id(text: Seq<u8>) -> bool {
    &&& text.len() == 40 || text.len() == 64
    &&& forall|i: int| 0 <= i < text.len() ==> is_hex_digit(#[trigger] text[i])
}

/// The bytes that the digits of `text` stand for, two digits per byte, the
/// high half first.
pub open spec fn decode_hex(text: Seq<u8>) -> Seq<u8> {
    Seq::new(
        text.len() / 2,
        |i: int| (16 * hex_digit_value(text[2 * i]) + hex_digit_value(text[2 * i + 1])) as u8,
    )
}

/// True if the bytes of `text` are the hexadecimal form of an object id.
pub open spec fn is_id_text(text: Seq<char>) -> bool {
    is_hex_id(encode_utf8(text))
}

/// The bytes of the id that `text` is the hexadecimal form of.
pub open spec fn id_of_text(text: Seq<char>) -> Seq<u8> {
    decode_hex(encode_utf8(text))
}

/// The sixteen digits that ids are written with.
pub open spec fn hex_digits() -> Seq<char> {
    seq!['0', '1', '2', '3', '4', '5', '6', '7', '8', '9', 'a', 'b', 'c', 'd', 'e', 'f']
}

/// The lower-case hexadecimal text of `bytes`, two digits per byte.
pub open spec fn hex_text(bytes: Seq<u8>) -> Seq<char> {
    Seq::new(
        2 * bytes.len(),
        |i: int|
            if i % 2 == 0 {
                hex_digits()[(bytes[i / 2] / 16) as int]
            } else {
                hex_digits()[(bytes[i / 2] % 16) as int]
            },
    )
}

/// Each of the sixteen digits is a hexadecimal digit of its own value.
proof fn lemma_digit_value(n: int)
    requires
        0 <= n < 16,
    ensures
        '\0' <= hex_digits()[n] <= '\u{7f}',
        hex_digit_value(hex_digits()[n] as u8) == n,
{
    let digits = hex_digits();
    assert(digits[0] == '0' && digits[1] == '1' && digits[2] == '2' && digits[3] == '3');
    assert(digits[4] == '4' && digits[5] == '5' && digits[6] == '6' && digits[7] == '7');
    assert(digits[8] == '8' && digits[9] == '9' && digits[10] == 'a' && digits[11] == 'b');
    assert(digits[12] == 'c' && digits[13] == 'd' && digits[14] == 'e' && digits[15] == 'f');
}

/// The hexadecimal text of an id reads back as the id.
pub proof fn lemma_hex_round_trip(bytes: Seq<u8>)
    requires
        bytes.len() == 20 || bytes.len() == 32,
    ensures
        is_id_text(hex_text(bytes)),
        id_of_text(hex_text(bytes)) == bytes,
{
    let text = hex_text(bytes);
    assert forall|i: int| 0 <= i < text.len() implies '\0' <= #[trigger] text[i] <= '\u{7f}' by {
        if i % 2 == 0 {
            lemma_digit_value((bytes[i / 2] / 16) as int);
        } else {
            lemma_digit_value((bytes[i / 2] % 16) as int);
        }
    }
    vstd::utf8::is_ascii_chars_encode_utf8(text);
    let encoded = encode_utf8(text);
    assert forall|i: int| 0 <= i < encoded.len() implies hex_digit_value(#[trigger] encoded[i]) == (if i
        % 2 == 0 {
        bytes[i / 2] / 16
    } else {
        bytes[i / 2] % 16
    }) by {
        assert(encoded[i] == text[i] as u8);
        if i % 2 == 0 {
            lemma_digit_value((bytes[i / 2] / 16) as int);
        } else {
            lemma_digit_value((bytes[i / 2] % 16) as int);
        }
    }
    assert forall|i: int| 0 <= i < encoded.len() implies is_hex_digit(#[trigger] encoded[i]) by {
        assert(hex_digit_value(encoded[i]) >= 0);
    }
    assert forall|k: int| 0 <= k < bytes.len() implies decode_hex(encoded)[k] == bytes[k] by {
        assert(hex_digit_value(encoded[2 * k]) == bytes[k] / 16);
        assert(hex_digit_value(encoded[2 * k + 1]) == bytes[k] % 16);
    }
    assert(decode_hex(encoded) =~= bytes);
}

/// Byte order: `a` comes before `b` if it is a proper prefix of `b`, or if at
/// the first place where they differ `a` holds the smaller byte.
pub open spec fn lex_lt(a: Seq<u8>, b: Seq<u8>) -> bool
    decreases a.len(),
{
    if b.len() == 0 {
        false
    } else if a.len() == 0 {
        true
    } else if a[0] != b[0] {
        a[0] < b[0]
    } else {
        lex_lt(a.drop_first(), b.drop_first())
    }
}

/// No sequence comes before itself.
pub proof fn lemma_lex_irreflexive(a: Seq<u8>)
    ensures
        !lex_lt(a, a),
    decreases a.len(),
{
    if a.len() > 0 {
        lemma_lex_irreflexive(a.drop_first());
    }
}

/// Of two different sequences one comes before the other.
pub proof fn lemma_lex_total(a: Seq<u8>, b: Seq<u8>)
    ensures
        a == b || lex_lt(a, b) || lex_lt(b, a),
    decreases a.len(),
{
    if a.len() == 0 || b.len() == 0 {
        if a.len() == 0 && b.len() == 0 {
            assert(a =~= b);
        }
    } else if a[0] == b[0] {
        lemma_lex_total(a.drop_first(), b.drop_first());
        if a.drop_first() == b.drop_first() {
            assert(a =~= seq![a[0]] + a.drop_first());
            assert(b =~= seq![b[0]] + b.drop_first());
        }
    }
}

/// Two sequences never come before each other.
pub proof fn lemma_lex_asymmetric(a: Seq<u8>, b: Seq<u8>)
    ensures
        !(lex_lt(a, b) && lex_lt(b, a)),
    decreases a.len(),
{
    if a.len() > 0 && b.len() > 0 && a[0] == b[0] {
        lemma_lex_asymmetric(a.drop_first(), b.drop_first());
    }
}

/// Byte order is transitive.
pub proof fn lemma_lex_transitive(a: Seq<u8>, b: Seq<u8>, c: Seq<u8>)
    requires
        lex_lt(a, b),
        lex_lt(b, c),
    ensures
        lex_lt(a, c),
    decreases a.len(),
{
    if a.len() > 0 && b.len() > 0 && c.len() > 0 && a[0] == b[0] && b[0] == c[0] {
        lemma_lex_transitive(a.drop_first(), b.drop_first(), c.drop_first());
    }
}

/// `gix_hash::ObjectId::from_hex`, with the bytes of the id it returns.
/// It takes 40 or 64 hexadecimal digits, in either case of the letters, and
/// fails on any other length and on any other byte.
#[verifier::external_body]
fn decode_with_gix(buffer: &[u8]) -> (decoded: Option<Vec<u8>>)
    ensures
        decoded is Some <==> is_hex_id(buffer@),
        decoded matches Some(bytes) ==> bytes@ == decode_hex(buffer@),
{
    match gix_hash::ObjectId::from_hex(buffer) {
        Ok(id) => Some(id.as_slice().to_vec()),
        Err(_) => None,
    }
}

/// `gix_hash::ObjectId::to_string`, on the id that
/// `gix_hash::ObjectId::from_bytes_or_panic` makes of 20 or 32 bytes: two
/// lower-case hexadecimal digits per byte.
#[verifier::external_body]
fn encode_with_gix(bytes: &[u8]) -> (text: String)
    requires
        bytes@.len() == 20 || bytes@.len() == 32,
    ensures
        text@ == hex_text(bytes@),
{
    gix_hash::ObjectId::from_bytes_or_panic(bytes).to_string()
}

/// A content hash that names an object: 20 or 32 bytes.
#[derive(Debug)]
pub struct ObjectId {
    bytes: Vec<u8>,
}

impl View for ObjectId {
    type V = Seq<u8>;

    /// The bytes of the hash.
    closed spec fn view(&self) -> Seq<u8> {
        self.bytes@
    }
}

impl Clone for ObjectId {
    fn clone(&self) -> (copy: ObjectId)
        ensures
            copy@ == self@,
    {
        proof {
            use_type_invariant(self);
        }
        let bytes = self.bytes.clone();
        assert(bytes@ =~= self.bytes@);
        ObjectId { bytes }
    }
}

impl PartialEq for ObjectId {
    fn eq(&self, other: &ObjectId) -> (same: bool) {
        let n = self.bytes.len();
        if other.bytes.len() != n {
            return false;
        }
        let mut i: usize = 0;
        while i < n
            invariant
                i <= n,
                n == self.bytes@.len(),
                n == other.bytes@.len(),
                forall|k: int| 0 <= k < i ==> self.bytes@[k] == other.bytes@[k],
            decreases n - i,
        {
            if self.bytes[i] != other.bytes[i] {
                return false;
            }
            i += 1;
        }
        assert(self.bytes@ =~= other.bytes@);
        true
    }
}

impl PartialEqSpecImpl for ObjectId {
    open spec fn obeys_eq_spec() -> bool {
        true
    }

    open spec fn eq_spec(&self, other: &ObjectId) -> bool {
        self@ == other@
    }
}

impl Eq for ObjectId {}

impl ObjectId {
    #[verifier::type_invariant]
    spec fn well_formed(self) -> bool {
        self.bytes@.len() == 20 || self.bytes@.len() == 32
    }

    /// Read an id from its hexadecimal text. The text is accepted if and
    /// only if it is 40 or 64 hexadecimal digits.
    pub fn from_hex(buffer: &[u8]) -> (parsed: Result<ObjectId, Error>)
        ensures
            parsed is Ok <==> is_hex_id(buffer@),
            parsed matches Ok(id) ==> id@ == decode_hex(buffer@),
            parsed matches Err(e) ==> e == Error::InvalidInput,
    {
        match decode_with_gix(buffer) {
            Some(bytes) => Ok(ObjectId { bytes }),
            None => Err(Error::InvalidInput),
        }
    }

    /// Read an id from a string of 40 or 64 hexadecimal digits.
    pub fn parse(text: &str) -> (parsed: Result<ObjectId, Error>)
        ensures
            parsed is Ok <==> is_id_text(text@),
            parsed matches Ok(id) ==> id@ == id_of_text(text@),
            parsed matches Err(e) ==> e == Error::InvalidInput,
    {
        ObjectId::from_hex(text.as_bytes())
    }

    /// Make an id of the bytes of a hash. Only 20 and 32 bytes are a hash.
    pub fn from_bytes(bytes: Vec<u8>) -> (made: Result<ObjectId, Error>)
        ensures
            made is Ok <==> bytes@.len() == 20 || bytes@.len() == 32,
            made matches Ok(id) ==> id@ == bytes@,
            made matches Err(e) ==> e == Error::InvalidInput,
    {
        if bytes.len() == 20 || bytes.len() == 32 {
            Ok(ObjectId { bytes })
        } else {
            Err(Error::InvalidInput)
        }
    }

    /// The id of the same width whose bytes are all zero. It stands for
    /// "no object" where an object id is written.
    pub fn null_like(&self) -> (null: ObjectId)
        ensures
            null@ == Seq::new(self@.len(), |i: int| 0u8),
    {
        proof {
            use_type_invariant(self);
        }
        let mut bytes: Vec<u8> = Vec::new();
        let mut i: usize = 0;
        while i < self.bytes.len()
            invariant
                i <= self.bytes@.len(),
                bytes@ == Seq::new(i as nat, |k: int| 0u8),
            decreases self.bytes@.len() - i,
        {
            bytes.push(0);
            assert(bytes@ =~= Seq::new((i + 1) as nat, |k: int| 0u8));
            i += 1;
        }
        ObjectId { bytes }
    }

    /// The bytes of the hash.
    pub fn as_bytes(&self) -> (bytes: &[u8])
        ensures
            bytes@ == self@,
            self@.len() == 20 || self@.len() == 32,
    {
        proof {
            use_type_invariant(self);
        }
        self.bytes.as_slice()
    }

    /// The id as lower-case hexadecimal text.
    pub fn to_hex(&self) -> (text: String)
        ensures
            text@ == hex_text(self@),
    {
        proof {
            use_type_invariant(self);
        }
        encode_with_gix(self.bytes.as_slice())
    }

    /// True if this id comes before `other` in byte order.
    pub fn precedes(&self, other: &ObjectId) -> (before: bool)
        ensures
            before == lex_lt(self@, other@),
    {
        let n = self.bytes.len();
        let m = other.bytes.len();
        let mut i: usize = 0;
        assert(self.bytes@.skip(0) =~= self.bytes@);
        assert(other.bytes@.skip(0) =~= other.bytes@);
        while i < n && i < m
            invariant
                i <= n,
                i <= m,
                n == self.bytes@.len(),
                m == other.bytes@.len(),
                lex_lt(self.bytes@, other.bytes@) == lex_lt(
                    self.bytes@.skip(i as int),
                    other.bytes@.skip(i as int),
                ),
            decreases n - i,
        {
            let ghost a = self.bytes@.skip(i as int);
            let ghost b = other.bytes@.skip(i as int);
            assert(a.drop_first() =~= self.bytes@.skip(i + 1));
            assert(b.drop_first() =~= other.bytes@.skip(i + 1));
            if self.bytes[i] != other.bytes[i] {
                return self.bytes[i] < other.bytes[i];
            }
            i += 1;
        }
        i < m
    }
}

} // verus!
