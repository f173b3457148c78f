//! Object ids of note blobs, as git computes them: the digest (SHA-1, or
//! SHA-256 in a repository of that object format) of the blob object
//! (`blob <size>\0` followed by the content), in lowercase hex.
use sha1::{Digest, Sha1};
use sha2::Sha256;
use crate::bre::hex_digit_value;
use vstd::prelude::*;

verus! {

/// The hash function that names a repository's objects.
#[derive(Clone, Copy, Debug, PartialEq, Eq, Structural)]
pub enum ObjectFormat {
    Sha1,
    Sha256,
}

/// The number of hex digits of an object id.
pub open spec fn id_len(format: ObjectFormat) -> nat {
    match format {
        ObjectFormat::Sha1 => 40,
        ObjectFormat::Sha256 => 64,
    }
}

/// The SHA-256 digest of `data`.
pub uninterp spec fn sha256_digest(data: Seq<u8>) -> Seq<u8>;

/// `Sha256::digest` of the `sha2` crate: the SHA-256 digest of `data`, which
/// is 32 bytes long (its output type is a 32-byte array).
#[verifier::external_body]
fn sha256(data: &[u8]) -> (d: Vec<u8>)
    ensures
        d@ == sha256_digest(data@),
        d@.len() == 32,
{
    Sha256::digest(data).to_vec()
}

/// The digest of `data` under the object format.
pub open spec fn object_digest(format: ObjectFormat, data: Seq<u8>) -> Seq<u8> {
    match format {
        ObjectFormat::Sha1 => sha1_digest(data),
        ObjectFormat::Sha256 => sha256_digest(data),
    }
}

/// The SHA-1 digest of `data`.
pub uninterp spec fn sha1_digest(data: Seq<u8>) -> Seq<u8>;

/// `Sha1::digest` of the `sha1` crate: the SHA-1 digest of `data`, which is
/// 20 bytes long (its output type is a 20-byte array).
#[verifier::external_body]
fn sha1(data: &[u8]) -> (d: Vec<u8>)
    ensures
        d@ == sha1_digest(data@),
        d@.len() == 20,
{
    Sha1::digest(data).to_vec()
}

/// The ASCII decimal digits of `n`, most significant first.
pub open spec fn decimal(n: nat) -> Seq<u8>
    decreases n,
{
    if n < 10 {
        seq![(48 + n) as u8]
    } else {
        decimal(n / 10).push((48 + n % 10) as u8)
    }
}

/// The git blob object that stores `content`.
pub open spec fn blob_object(content: Seq<u8>) -> Seq<u8> {
    seq![98u8, 108u8, 111u8, 98u8, 32u8] + decimal(content.len()) + seq![0u8] + content
}

/// The lowercase hex digit of `d`, for `d < 16`.
pub open spec fn hex_digit(d: u8) -> char {
    if d < 10 {
        (48 + d) as char
    } else {
        (87 + d) as char
    }
}

/// The lowercase hex spelling of `bytes`, two digits per byte.
pub open spec fn hex_lower(bytes: Seq<u8>) -> Seq<char>
    decreases bytes.len(),
{
    if bytes.len() == 0 {
        Seq::empty()
    } else {
        hex_lower(bytes.drop_last()) + seq![hex_digit(bytes.last() / 16), hex_digit(bytes.last() % 16)]
    }
}

/// The object id of the blob that stores the UTF-8 encoding of `text`.
pub open spec fn git_blob_oid(format: ObjectFormat, text: Seq<char>) -> Seq<char> {
    hex_lower(object_digest(format, blob_object(vstd::utf8::encode_utf8(text))))
}

/// The number that the ASCII decimal digits `digits` spell, most
/// significant first.
pub open spec fn decimal_value(digits: Seq<u8>) -> nat
    decreases digits.len(),
{
    if digits.len() == 0 {
        0
    } else {
        decimal_value(digits.drop_last()) * 10 + ((digits.last() as int) - 48) as nat
    }
}

/// Whether `digits` is a decimal number as git writes one: one or more
/// ASCII digits, without a leading zero unless it is the number zero.
pub open spec fn is_plain_decimal(digits: Seq<u8>) -> bool {
    &&& digits.len() > 0
    &&& forall|i: int| 0 <= i < digits.len() ==> 48 <= #[trigger] digits[i] <= 57
    &&& (digits.len() == 1 || digits[0] != 48)
}

/// `decimal(n)` is a plain decimal number that spells `n`.
pub proof fn lemma_decimal_spells(n: nat)
    ensures
        is_plain_decimal(decimal(n)),
        decimal_value(decimal(n)) == n,
    decreases n,
{
    if n >= 10 {
        lemma_decimal_spells(n / 10);
        let d = decimal(n / 10);
        let last = (48 + n % 10) as u8;
        assert(0 <= n % 10 < 10) by (nonlinear_arith);
        assert(n == (n / 10) * 10 + n % 10) by (nonlinear_arith);
        assert(last as int == 48 + n % 10);
        assert(decimal(n) == d.push(last));
        assert(decimal(n).drop_last() =~= d);
        assert(decimal(n)[0] == d[0]);
        assert(decimal(n).last() == last);
        assert(decimal_value(decimal(n)) == decimal_value(d) * 10 + (n % 10));
        if d.len() == 1 {
            assert(d.drop_last() =~= Seq::<u8>::empty());
            assert(d.last() == d[0]);
            assert(48 <= d[0] <= 57);
            assert(decimal_value(Seq::<u8>::empty()) == 0);
            assert(decimal_value(d.drop_last()) == 0);
            assert(decimal_value(d) == (d[0] as int) - 48);
        }
        assert(forall|i: int| 0 <= i < decimal(n).len() ==> 48 <= #[trigger] decimal(n)[i] <= 57) by {
            assert forall|i: int| 0 <= i < decimal(n).len() implies 48 <= #[trigger] decimal(n)[i] <= 57 by {
                if i < d.len() {
                    assert(decimal(n)[i] == d[i]);
                }
            }
        }
    } else {
        assert(((48 + n) as u8) as int == 48 + n);
        assert(decimal(n).drop_last() =~= Seq::<u8>::empty());
        assert(decimal(n).last() == (48 + n) as u8);
        assert(decimal_value(decimal(n)) == decimal_value(Seq::<u8>::empty()) * 10 + n);
    }
}

/// The id of a note's blob is the digest of the blob object git stores for
/// the note: the bytes `blob `, the size in plain ASCII decimal, a NUL, and
/// the note's UTF-8 bytes, where the size written is the number of those
/// bytes (not of the note's characters).
pub proof fn law_blob_oid_counts_bytes(format: ObjectFormat, text: Seq<char>)
    ensures
        exists|size: Seq<u8>|
            #![trigger decimal_value(size)]
            is_plain_decimal(size) && decimal_value(size) == vstd::utf8::encode_utf8(text).len()
                && git_blob_oid(format, text) == hex_lower(
                match format {
                    ObjectFormat::Sha1 => sha1_digest(
                        seq![98u8, 108u8, 111u8, 98u8, 32u8] + size + seq![0u8] + vstd::utf8::encode_utf8(text),
                    ),
                    ObjectFormat::Sha256 => sha256_digest(
                        seq![98u8, 108u8, 111u8, 98u8, 32u8] + size + seq![0u8] + vstd::utf8::encode_utf8(text),
                    ),
                },
            ),
{
    let content = vstd::utf8::encode_utf8(text);
    let size = decimal(content.len());
    lemma_decimal_spells(content.len());
    assert(decimal_value(size) == content.len());
}

/// The hex spelling of bytes writes each byte as two lowercase hex digits,
/// high half first, so it reads back as the bytes.
pub proof fn law_hex_spells_bytes(bytes: Seq<u8>)
    ensures
        hex_lower(bytes).len() == 2 * bytes.len(),
        forall|i: int|
            0 <= i < bytes.len() ==> 16 * hex_digit_value(hex_lower(bytes)[2 * i]) + hex_digit_value(
                hex_lower(bytes)[2 * i + 1],
            ) == #[trigger] bytes[i],
    decreases bytes.len(),
{
    lemma_hex_len(bytes);
    if bytes.len() > 0 {
        let front = bytes.drop_last();
        law_hex_spells_bytes(front);
        lemma_hex_len(front);
        let h = hex_lower(bytes);
        let b = bytes.last();
        let hi = b / 16;
        let lo = b % 16;
        assert(b == 16 * hi + lo);
        assert(hex_digit_value(hex_digit(hi)) == hi);
        assert(hex_digit_value(hex_digit(lo)) == lo);
        assert forall|i: int| 0 <= i < bytes.len() implies 16 * hex_digit_value(h[2 * i]) + hex_digit_value(
            h[2 * i + 1],
        ) == #[trigger] bytes[i] by {
            if i < front.len() {
                assert(h[2 * i] == hex_lower(front)[2 * i]);
                assert(h[2 * i + 1] == hex_lower(front)[2 * i + 1]);
                assert(bytes[i] == front[i]);
            } else {
                assert(h[2 * i] == hex_digit(hi));
                assert(h[2 * i + 1] == hex_digit(lo));
            }
        }
    }
}

/// Whether `c` is a lowercase hex digit.
pub open spec fn is_lower_hex_digit(c: char) -> bool {
    ('0' <= c && c <= '9') || ('a' <= c && c <= 'f')
}

/// Whether `s` is a full object id: lowercase hex digits, forty of them
/// (SHA-1) or sixty-four (SHA-256).
pub open spec fn is_hex_id(format: ObjectFormat, s: Seq<char>) -> bool {
    s.len() == id_len(format) && forall|i: int| 0 <= i < s.len() ==> is_lower_hex_digit(#[trigger] s[i])
}

/// Whether `s` is a full object id.
pub fn hex_id(format: ObjectFormat, s: &str) -> (b: bool)
    ensures
        b == is_hex_id(format, s@),
{
    let chars = crate::text::chars_of(s);
    let len: usize = match format {
        ObjectFormat::Sha1 => 40,
        ObjectFormat::Sha256 => 64,
    };
    if chars.len() != len {
        return false;
    }
    let mut i: usize = 0;
    while i < chars.len()
        invariant
            chars@ == s@,
            i <= chars@.len(),
            forall|k: int| 0 <= k < i ==> is_lower_hex_digit(#[trigger] chars@[k]),
        decreases chars@.len() - i,
    {
        let c = chars[i];
        if !(('0' <= c && c <= '9') || ('a' <= c && c <= 'f')) {
            assert(!is_lower_hex_digit(s@[i as int]));
            return false;
        }
        i = i + 1;
    }
    true
}

/// Every character of a hex spelling is a lowercase hex digit.
pub proof fn lemma_hex_digits(bytes: Seq<u8>)
    ensures
        forall|i: int| 0 <= i < hex_lower(bytes).len() ==> is_lower_hex_digit(#[trigger] hex_lower(bytes)[i]),
    decreases bytes.len(),
{
    if bytes.len() > 0 {
        lemma_hex_digits(bytes.drop_last());
        lemma_hex_len(bytes.drop_last());
        let hi = bytes.last() / 16;
        let lo = bytes.last() % 16;
        assert(hex_digit(hi) == ((if hi < 10 { 48 + hi } else { 87 + hi }) as char));
        assert(hex_digit(lo) == ((if lo < 10 { 48 + lo } else { 87 + lo }) as char));
    }
}

/// The hex spelling is twice as long as the bytes.
pub proof fn lemma_hex_len(bytes: Seq<u8>)
    ensures
        hex_lower(bytes).len() == 2 * bytes.len(),
    decreases bytes.len(),
{
    if bytes.len() > 0 {
        lemma_hex_len(bytes.drop_last());
    }
}

/// Appends the decimal digits of `n`.
fn push_decimal(out: &mut Vec<u8>, n: usize)
    ensures
        final(out)@ == old(out)@ + decimal(n as nat),
    decreases n,
{
    if n >= 10 {
        push_decimal(out, n / 10);
    }
    let d = (n % 10) as u8;
    out.push(48 + d);
    assert(out@ =~= old(out)@ + decimal(n as nat));
}

/// The lowercase hex digit of `d`.
fn hex_char(d: u8) -> (c: char)
    requires
        d < 16,
    ensures
        c == hex_digit(d),
{
    if d < 10 {
        (48 + d) as char
    } else {
        (87 + d) as char
    }
}

/// The lowercase hex spelling of `bytes`.
fn to_hex(bytes: &[u8]) -> (s: Vec<char>)
    ensures
        s@ == hex_lower(bytes@),
{
    let mut s: Vec<char> = Vec::new();
    let mut i: usize = 0;
    while i < bytes.len()
        invariant
            i <= bytes@.len(),
            s@ == hex_lower(bytes@.take(i as int)),
        decreases bytes@.len() - i,
    {
        let b = bytes[i];
        s.push(hex_char(b / 16));
        s.push(hex_char(b % 16));
        assert(bytes@.take(i + 1).drop_last() =~= bytes@.take(i as int));
        assert(s@ =~= hex_lower(bytes@.take(i + 1)));
        i = i + 1;
    }
    assert(bytes@.take(i as int) =~= bytes@);
    s
}

/// The git object id of the blob that stores `text`.
pub fn blob_oid(format: ObjectFormat, text: &str) -> (oid: String)
    ensures
        oid@ == git_blob_oid(format, text@),
        is_hex_id(format, oid@),
{
    let content = text.as_bytes();
    let mut object: Vec<u8> = Vec::new();
    object.push(98);
    object.push(108);
    object.push(111);
    object.push(98);
    object.push(32);
    push_decimal(&mut object, content.len());
    object.push(0);
    let ghost head = object@;
    let mut i: usize = 0;
    while i < content.len()
        invariant
            i <= content@.len(),
            object@ == head + content@.take(i as int),
        decreases content@.len() - i,
    {
        object.push(content[i]);
        assert(object@ =~= head + content@.take(i + 1));
        i = i + 1;
    }
    assert(content@.take(i as int) =~= content@);
    assert(object@ =~= blob_object(vstd::utf8::encode_utf8(text@)));
    let digest = match format {
        ObjectFormat::Sha1 => sha1(&object),
        ObjectFormat::Sha256 => sha256(&object),
    };
    proof {
        lemma_hex_len(digest@);
        lemma_hex_digits(digest@);
    }
    let hex = to_hex(&digest);
    crate::text::string_from_chars(&hex)
}

} // verus!
