//! Decoding of fixed-width base-36 identifier records.
//!
//! A record is exactly 12 characters over the case-insensitive base-36
//! alphabet (digits, upper- and lower-case letters). Its value is the
//! big-endian base-36 number it spells; a millisecond timestamp and a 24-bit
//! counter are bit-slices of that value.

use vstd::prelude::*;
use vstd::arithmetic::mul::lemma_mul_inequality;
use vstd::arithmetic::div_mod::lemma_fundamental_div_mod_converse;

verus! {

/// Number of characters in an encoded identifier record.
pub const RECORD_LEN: usize = 12;

/// Digit value of one byte under the case-insensitive base-36 alphabet,
/// or 255 for a byte outside the alphabet.
pub open spec fn digit_of(b: u8) -> u8 {
    if 48 <= b && b <= 57 {
        (b - 48) as u8
    } else if 65 <= b && b <= 90 {
        (b - 55) as u8
    } else if 97 <= b && b <= 122 {
        (b - 87) as u8
    } else {
        255u8
    }
}

/// Whether a byte belongs to the base-36 alphabet (either case).
pub open spec fn in_alphabet(b: u8) -> bool {
    digit_of(b) != 255
}

/// Whether a byte is in the canonical form of the alphabet: a digit or a
/// lower-case letter.
pub open spec fn is_canonical(b: u8) -> bool {
    (48 <= b && b <= 57) || (97 <= b && b <= 122)
}

/// A well-formed record: exactly 12 bytes, all in the alphabet.
pub open spec fn valid_record(s: Seq<u8>) -> bool {
    &&& s.len() == RECORD_LEN
    &&& forall|i: int| 0 <= i < s.len() ==> in_alphabet(#[trigger] s[i])
}

/// A record in canonical form: every byte a digit or a lower-case letter.
pub open spec fn canonical_record(s: Seq<u8>) -> bool {
    &&& s.len() == RECORD_LEN
    &&& forall|i: int| 0 <= i < s.len() ==> is_canonical(#[trigger] s[i])
}

/// Big-endian base-36 value of a byte sequence.
pub open spec fn base36_value(s: Seq<u8>) -> nat
    decreases s.len(),
{
    if s.len() == 0 {
        0
    } else {
        (base36_value(s.drop_last()) * 36 + digit_of(s.last())) as nat
    }
}

/// 36 to the n-th power.
pub open spec fn pow36(n: nat) -> nat
    decreases n,
{
    if n == 0 {
        1
    } else {
        36 * pow36((n - 1) as nat)
    }
}

/// Millisecond timestamp packed in an identifier value: the bits above the
/// counter, left-shifted to 256 ms resolution.
pub open spec fn timestamp_of(v: u64) -> u64 {
    (v >> 24) << 8
}

/// 24-bit counter packed in an identifier value: its low-order bits.
pub open spec fn counter_of(v: u64) -> u32 {
    (v & 0xffffff) as u32
}

/// Why a record was rejected by the decoder.
#[derive(Clone, Copy, PartialEq, Eq, Debug)]
pub enum DecodeError {
    /// The record is not exactly 12 characters long.
    MalformedLength,
    /// Some character of the record is outside the base-36 alphabet.
    InvalidCharacter,
}

/// Holds representations and internal field values of a decoded identifier.
#[derive(Clone, PartialEq, Eq, Hash, Debug)]
pub struct Identifier {
    pub str_bytes: Vec<u8>,
    pub int_value: u64,
    pub unix_ts_ms: u64,
    pub node_ctr: u32,
}

/// A well-formed identifier: the numeric fields are exactly the ones derived
/// from its canonical string form.
pub open spec fn id_wf(id: Identifier) -> bool {
    &&& valid_record(id.str_bytes@)
    &&& id.int_value == base36_value(id.str_bytes@)
    &&& id.unix_ts_ms == timestamp_of(id.int_value)
    &&& id.node_ctr == counter_of(id.int_value)
}

/// Strict lexicographic (byte-wise) order on byte sequences, as `<` orders
/// byte slices.
pub open spec fn lex_lt(a: Seq<u8>, b: Seq<u8>) -> bool
    decreases a.len(),
{
    if b.len() == 0 {
        false
    } else if a.len() == 0 {
        true
    } else if a[0] < b[0] {
        true
    } else if a[0] > b[0] {
        false
    } else {
        lex_lt(a.drop_first(), b.drop_first())
    }
}

/// Bounds a base-36 value by the power of 36 of its width.
pub proof fn lemma_base36_bound(s: Seq<u8>)
    requires
        forall|i: int| 0 <= i < s.len() ==> in_alphabet(#[trigger] s[i]),
    ensures
        base36_value(s) < pow36(s.len()),
    decreases s.len(),
{
    if s.len() > 0 {
        let dl = s.drop_last();
        assert(forall|i: int| 0 <= i < dl.len() ==> in_alphabet(#[trigger] dl[i]));
        lemma_base36_bound(dl);
        assert(in_alphabet(s.last()));
        assert(digit_of(s.last()) <= 35);
    }
}

/// pow36 is monotone.
pub proof fn lemma_pow36_mono(a: nat, b: nat)
    requires
        a <= b,
    ensures
        pow36(a) <= pow36(b),
    decreases b,
{
    if a < b {
        lemma_pow36_mono(a, (b - 1) as nat);
        assert(pow36(b) == 36 * pow36((b - 1) as nat));
    }
}

/// The value of every 12-character record fits in 64 bits.
pub proof fn lemma_pow36_record_fits()
    ensures
        pow36(RECORD_LEN as nat) == 0x41c21cb8e1000000,
{
    reveal_with_fuel(pow36, 13);
}

/// Peels the most significant digit off a base-36 value.
pub proof fn lemma_base36_first(s: Seq<u8>)
    requires
        s.len() > 0,
    ensures
        base36_value(s) == digit_of(s[0]) * pow36((s.len() - 1) as nat) + base36_value(
            s.drop_first(),
        ),
    decreases s.len(),
{
    if s.len() == 1 {
        assert(s.drop_last().len() == 0);
        assert(s.drop_first().len() == 0);
        assert(s.last() == s[0]);
        assert(base36_value(s) == digit_of(s[0]) * 1) by {
            assert(base36_value(s.drop_last()) == 0);
        }
    } else {
        let dl = s.drop_last();
        lemma_base36_first(dl);
        let d0 = digit_of(s[0]) as nat;
        let n = s.len();
        let mid = dl.drop_first();
        assert(dl[0] == s[0]);
        assert(base36_value(dl) == d0 * pow36((n - 2) as nat) + base36_value(mid));
        let df = s.drop_first();
        assert(df.drop_last() =~= mid);
        assert(df.last() == s.last());
        assert(base36_value(df) == base36_value(mid) * 36 + digit_of(s.last()));
        assert(base36_value(s) == base36_value(dl) * 36 + digit_of(s.last()));
        assert((d0 * pow36((n - 2) as nat) + base36_value(mid)) * 36 == d0 * pow36(
            (n - 2) as nat,
        ) * 36 + base36_value(mid) * 36);
        assert(d0 * pow36((n - 2) as nat) * 36 == d0 * (36 * pow36((n - 2) as nat)))
            by (nonlinear_arith);
        assert(pow36((n - 1) as nat) == 36 * pow36((n - 2) as nat));
    }
}

/// Canonical bytes compare in the same direction as their digit values.
proof fn lemma_canonical_byte_order(x: u8, y: u8)
    requires
        is_canonical(x),
        is_canonical(y),
        x < y,
    ensures
        digit_of(x) < digit_of(y),
{
}

/// String order and numeric order agree: over canonical records of one
/// width, the byte-wise order is exactly the order of the base-36 values.
pub proof fn lemma_string_order_matches_value_order(a: Seq<u8>, b: Seq<u8>)
    requires
        a.len() == b.len(),
        forall|i: int| 0 <= i < a.len() ==> is_canonical(#[trigger] a[i]),
        forall|i: int| 0 <= i < b.len() ==> is_canonical(#[trigger] b[i]),
    ensures
        lex_lt(a, b) <==> base36_value(a) < base36_value(b),
    decreases a.len(),
{
    if a.len() == 0 {
    } else {
        let n = a.len();
        let p = pow36((n - 1) as nat);
        lemma_base36_first(a);
        lemma_base36_first(b);
        let ra = base36_value(a.drop_first());
        let rb = base36_value(b.drop_first());
        assert(forall|i: int|
            0 <= i < a.drop_first().len() ==> is_canonical(#[trigger] a.drop_first()[i]));
        assert(forall|i: int|
            0 <= i < b.drop_first().len() ==> is_canonical(#[trigger] b.drop_first()[i]));
        lemma_base36_bound(a.drop_first());
        lemma_base36_bound(b.drop_first());
        assert(ra < p);
        assert(rb < p);
        if a[0] < b[0] {
            lemma_canonical_byte_order(a[0], b[0]);
            lemma_mul_inequality(digit_of(a[0]) + 1, digit_of(b[0]) as int, p as int);
            assert((digit_of(a[0]) + 1) * p == digit_of(a[0]) * p + p) by (nonlinear_arith);
            assert(base36_value(a) < base36_value(b));
        } else if a[0] > b[0] {
            lemma_canonical_byte_order(b[0], a[0]);
            lemma_mul_inequality(digit_of(b[0]) + 1, digit_of(a[0]) as int, p as int);
            assert((digit_of(b[0]) + 1) * p == digit_of(b[0]) * p + p) by (nonlinear_arith);
            assert(base36_value(b) < base36_value(a));
        } else {
            lemma_string_order_matches_value_order(a.drop_first(), b.drop_first());
        }
    }
}

/// Canonical byte spelling a base-36 digit.
pub open spec fn canonical_byte_of(d: nat) -> u8 {
    if d < 10 {
        (48 + d) as u8
    } else {
        (87 + d) as u8
    }
}

/// Canonical base-36 spelling of a value, n characters wide, big-endian.
pub open spec fn encode(v: nat, n: nat) -> Seq<u8>
    decreases n,
{
    if n == 0 {
        Seq::empty()
    } else {
        encode(v / 36, (n - 1) as nat).push(canonical_byte_of(v % 36))
    }
}

/// Round trip: re-encoding the value of a canonical byte sequence at its own
/// width gives back exactly that sequence. With 12-character records this
/// says that `text` and `value` determine each other.
pub proof fn lemma_encode_round_trip(s: Seq<u8>)
    requires
        forall|i: int| 0 <= i < s.len() ==> is_canonical(#[trigger] s[i]),
    ensures
        encode(base36_value(s), s.len()) == s,
    decreases s.len(),
{
    if s.len() == 0 {
        assert(encode(base36_value(s), s.len()) =~= s);
    } else {
        let dl = s.drop_last();
        let d = digit_of(s.last()) as nat;
        let v = base36_value(s);
        assert(is_canonical(s.last()));
        assert(d < 36);
        assert(forall|i: int| 0 <= i < dl.len() ==> is_canonical(#[trigger] dl[i]));
        lemma_encode_round_trip(dl);
        lemma_fundamental_div_mod_converse(v as int, 36, base36_value(dl) as int, d as int);
        assert(v / 36 == base36_value(dl));
        assert(v % 36 == d);
        assert(canonical_byte_of(d) == s.last());
        assert(encode(v, s.len()) == dl.push(s.last()));
        assert(dl.push(s.last()) =~= s);
    }
}

/// Over canonical records, the value determines the text.
pub proof fn lemma_value_determines_text(a: Seq<u8>, b: Seq<u8>)
    requires
        canonical_record(a),
        canonical_record(b),
        base36_value(a) == base36_value(b),
    ensures
        a == b,
{
    lemma_encode_round_trip(a);
    lemma_encode_round_trip(b);
}

/// The packed timestamp is monotone in the identifier value.
pub proof fn lemma_timestamp_monotone(v1: u64, v2: u64)
    requires
        v1 <= v2,
    ensures
        timestamp_of(v1) <= timestamp_of(v2),
{
    assert(v1 <= v2 ==> (v1 >> 24) << 8 <= (v2 >> 24) << 8) by (bit_vector);
}

/// Within one timestamp, a larger value means a larger counter.
pub proof fn lemma_same_timestamp_counter(v1: u64, v2: u64)
    requires
        v1 < v2,
        timestamp_of(v1) == timestamp_of(v2),
    ensures
        counter_of(v1) < counter_of(v2),
{
    assert(v1 < v2 && (v1 >> 24) << 8 == (v2 >> 24) << 8 ==> (v1 & 0xffffff) < (v2 & 0xffffff)
        && (v1 & 0xffffff) < 0x1000000 && (v2 & 0xffffff) < 0x1000000) by (bit_vector);
}

/// Within one timestamp, a larger counter means a larger value.
pub proof fn lemma_counter_orders_value(v1: u64, v2: u64)
    requires
        timestamp_of(v1) == timestamp_of(v2),
        counter_of(v1) < counter_of(v2),
    ensures
        v1 < v2,
{
    assert((v1 & 0xffffff) < 0x1000000 && (v2 & 0xffffff) < 0x1000000) by (bit_vector);
    assert((v1 >> 24) << 8 == (v2 >> 24) << 8 && (v1 & 0xffffff) < (v2 & 0xffffff) ==> v1 < v2)
        by (bit_vector);
}

/// The packed timestamp and counter are bounded well below their types'
/// limits.
pub proof fn lemma_packed_fields_bounded(v: u64)
    ensures
        timestamp_of(v) <= 0xffffffffff00,
        counter_of(v) <= 0xffffff,
{
    assert((v >> 24) << 8 <= 0xffffffffff00 && (v & 0xffffff) <= 0xffffff) by (bit_vector);
}

/// Digit value of one byte, by direct range tests.
fn decode_digit(b: u8) -> (r: u8)
    ensures
        r == digit_of(b),
{
    if 48 <= b && b <= 57 {
        b - 48
    } else if 65 <= b && b <= 90 {
        b - 55
    } else if 97 <= b && b <= 122 {
        b - 87
    } else {
        255
    }
}

impl Identifier {
    /// Decodes one fixed-width record, or says why it is rejected: a record
    /// of any length other than 12 is `MalformedLength`; one with any byte
    /// outside the alphabet is `InvalidCharacter`; every other record
    /// decodes, and the decoded fields are exactly the ones the encoding
    /// derives from the text.
    pub fn decode(record: &[u8]) -> (r: Result<Identifier, DecodeError>)
        ensures
            record@.len() != RECORD_LEN ==> r == Result::<Identifier, DecodeError>::Err(
                DecodeError::MalformedLength,
            ),
            record@.len() == RECORD_LEN && !valid_record(record@) ==> r == Result::<
                Identifier,
                DecodeError,
            >::Err(DecodeError::InvalidCharacter),
            valid_record(record@) ==> (r matches Ok(id) && id.str_bytes@ == record@ && id_wf(id)),
    {
        if record.len() != RECORD_LEN {
            return Err(DecodeError::MalformedLength);
        }
        let mut text: Vec<u8> = Vec::new();
        let mut value: u64 = 0;
        let mut i: usize = 0;
        proof {
            assert(record@.take(0) =~= Seq::<u8>::empty());
        }
        while i < RECORD_LEN
            invariant
                0 <= i <= RECORD_LEN,
                record@.len() == RECORD_LEN,
                text@ == record@.take(i as int),
                forall|j: int| 0 <= j < i ==> in_alphabet(#[trigger] record@[j]),
                value == base36_value(record@.take(i as int)),
                value < pow36(i as nat),
            decreases RECORD_LEN - i,
        {
            let b = record[i];
            let d = decode_digit(b);
            if d == 255 {
                return Err(DecodeError::InvalidCharacter);
            }
            proof {
                let pre = record@.take(i as int);
                let ext = record@.take(i + 1);
                assert(ext.drop_last() =~= pre);
                assert(ext.last() == record@[i as int]);
                lemma_pow36_mono((i + 1) as nat, RECORD_LEN as nat);
                lemma_pow36_record_fits();
                assert(pow36((i + 1) as nat) == 36 * pow36(i as nat));
            }
            value = value * 36 + d as u64;
            text.push(b);
            i += 1;
        }
        proof {
            assert(record@.take(RECORD_LEN as int) =~= record@);
        }
        let ts = (value >> 24) << 8;
        let ctr = (value & 0xffffff) as u32;
        Ok(Identifier { str_bytes: text, int_value: value, unix_ts_ms: ts, node_ctr: ctr })
    }

    /// Decodes one record without the rejection reason: the shape under
    /// which callers that only need success or failure see the decoder.
    pub fn new(str_bytes: &[u8]) -> (r: Option<Identifier>)
        ensures
            r is Some <==> valid_record(str_bytes@),
            r matches Some(id) ==> id.str_bytes@ == str_bytes@ && id_wf(id),
    {
        match Self::decode(str_bytes) {
            Ok(id) => Some(id),
            Err(_) => None,
        }
    }
}

/// Byte-wise strict "less than" on two byte slices, as the validator
/// compares the string forms of successive identifiers.
pub fn bytes_lt(a: &[u8], b: &[u8]) -> (r: bool)
    ensures
        r == lex_lt(a@, b@),
{
    let mut i: usize = 0;
    proof {
        assert(a@.skip(0) =~= a@);
        assert(b@.skip(0) =~= b@);
    }
    loop
        invariant
            0 <= i <= a@.len(),
            0 <= i <= b@.len(),
            forall|j: int| 0 <= j < i ==> a@[j] == b@[j],
            lex_lt(a@, b@) == lex_lt(a@.skip(i as int), b@.skip(i as int)),
        decreases a@.len() - i,
    {
        if i == a.len() || i == b.len() {
            proof {
                assert(a@.skip(i as int).len() == a@.len() - i);
                assert(b@.skip(i as int).len() == b@.len() - i);
            }
            return a.len() < b.len();
        }
        let x = a[i];
        let y = b[i];
        proof {
            let sa = a@.skip(i as int);
            let sb = b@.skip(i as int);
            assert(sa[0] == a@[i as int]);
            assert(sb[0] == b@[i as int]);
            assert(sa.drop_first() =~= a@.skip(i + 1));
            assert(sb.drop_first() =~= b@.skip(i + 1));
        }
        if x < y {
            return true;
        }
        if x > y {
            return false;
        }
        i += 1;
    }
}

} // verus!
