//! Text as bytes: decoding, comparing and appending UTF-8.
use vstd::prelude::*;
use vstd::string::StrSliceExecFns;
use vstd::string::StringExecFns;
use vstd::utf8::{
    decode_utf8, encode_scalar, encode_utf8, encode_utf8_decode_utf8, encode_utf8_valid_utf8,
    valid_utf8,
};

verus! {

/// The text that a byte sequence stands for once each part of it that is not
/// UTF-8 is replaced by U+FFFD, as `String::from_utf8_lossy` does it.
pub uninterp spec fn utf8_lossy(bytes: Seq<u8>) -> Seq<char>;

/// Decodes bytes with `String::from_utf8_lossy`. What it makes of bytes that
/// are not UTF-8 is a function of the bytes alone and has the name
/// `utf8_lossy`; bytes that are UTF-8 it decodes as they stand.
#[verifier::external_body]
fn decode_lossy(bytes: &[u8]) -> (text: String)
    ensures
        text@ == utf8_lossy(bytes@),
        valid_utf8(bytes@) ==> text@ == decode_utf8(bytes@),
{
    String::from_utf8_lossy(bytes).into_owned()
}

/// The text that bytes are read as: what they encode where they are UTF-8, and
/// else what is left once the faulty parts are replaced.
pub open spec fn lossy(bytes: Seq<u8>) -> Seq<char> {
    if valid_utf8(bytes) {
        decode_utf8(bytes)
    } else {
        utf8_lossy(bytes)
    }
}

/// Reads bytes as text. Parts that are not UTF-8 are replaced.
pub fn read_lossy(bytes: &[u8]) -> (text: String)
    ensures
        text@ == lossy(bytes@),
{
    decode_lossy(bytes)
}

/// What a text is encoded as reads back as the text.
pub proof fn law_encoded_text_reads_back(text: Seq<char>)
    ensures
        lossy(encode_utf8(text)) == text,
{
    encode_utf8_valid_utf8(text);
    encode_utf8_decode_utf8(text);
}

/// Decodes bytes with `std::str::from_utf8`, which accepts exactly the valid
/// encodings and decodes them as they stand.
#[verifier::external_body]
pub(crate) fn decode_strict(bytes: &[u8]) -> (text: Option<&str>)
    ensures
        text is Some <==> valid_utf8(bytes@),
        text is Some ==> text->0@ == decode_utf8(bytes@),
{
    std::str::from_utf8(bytes).ok()
}

/// Do two texts hold the same characters?
pub fn same_text(a: &str, b: &str) -> (same: bool)
    ensures
        same == (a@ == b@),
{
    let left: &[u8] = a.as_bytes();
    let right: &[u8] = b.as_bytes();
    proof {
        encode_utf8_decode_utf8(a@);
        encode_utf8_decode_utf8(b@);
    }
    same_bytes(left, right)
}

/// Do two slices hold the same bytes?
pub fn same_bytes(a: &[u8], b: &[u8]) -> (same: bool)
    ensures
        same == (a@ == b@),
{
    if a.len() != b.len() {
        return false;
    }
    let mut i: usize = 0;
    while i < a.len()
        invariant
            i <= a.len(),
            a.len() == b.len(),
            forall|j: int| 0 <= j < i ==> a[j] == b[j],
        decreases a.len() - i,
    {
        if a[i] != b[i] {
            return false;
        }
        i = i + 1;
    }
    assert(a@ =~= b@);
    true
}

/// Appends bytes to a vector.
pub fn append_bytes(out: &mut Vec<u8>, bytes: &[u8])
    ensures
        final(out)@ == old(out)@ + bytes@,
{
    let mut i: usize = 0;
    while i < bytes.len()
        invariant
            i <= bytes.len(),
            out@ == old(out)@ + bytes@.take(i as int),
        decreases bytes.len() - i,
    {
        out.push(bytes[i]);
        i = i + 1;
        assert(bytes@.take(i as int) =~= bytes@.take(i - 1).push(bytes[i - 1]));
    }
    assert(bytes@.take(i as int) =~= bytes@);
}

/// The bytes of a 32-bit word, least significant first.
pub open spec fn le_bytes(value: u32) -> Seq<u8> {
    seq![
        (value % 0x100) as u8,
        (value / 0x100 % 0x100) as u8,
        (value / 0x1_0000 % 0x100) as u8,
        (value / 0x100_0000) as u8,
    ]
}

/// The 32-bit word at an offset, least significant byte first.
pub open spec fn word_at(bytes: Seq<u8>, at: int) -> u32 {
    (bytes[at] + 0x100 * bytes[at + 1] + 0x1_0000 * bytes[at + 2] + 0x100_0000 * bytes[at + 3]) as u32
}

/// The signed reading of a 32-bit word, in two's complement.
pub open spec fn signed(word: u32) -> i32 {
    if word < 0x8000_0000 {
        word as i32
    } else {
        (word - 0x1_0000_0000) as i32
    }
}

/// The 32-bit word that reads as a signed value.
pub open spec fn unsigned(value: i32) -> u32 {
    if value >= 0 {
        value as u32
    } else {
        (value + 0x1_0000_0000) as u32
    }
}

/// Reads a 32-bit word as signed.
pub fn to_signed(word: u32) -> (value: i32)
    ensures
        value == signed(word),
{
    if word < 0x8000_0000 {
        word as i32
    } else {
        -((0xffff_ffff - word) as i32) - 1
    }
}

/// The 32-bit word that reads as a signed value.
pub fn to_unsigned(value: i32) -> (word: u32)
    ensures
        word == unsigned(value),
        signed(word) == value,
{
    if value >= 0 {
        value as u32
    } else {
        0xffff_ffff - ((-(value + 1)) as u32)
    }
}

/// Appends a 32-bit word, least significant byte first.
pub fn append_word(out: &mut Vec<u8>, value: u32)
    ensures
        final(out)@ == old(out)@ + le_bytes(value),
{
    let ghost before = out@;
    out.push((value % 0x100) as u8);
    out.push((value / 0x100 % 0x100) as u8);
    out.push((value / 0x1_0000 % 0x100) as u8);
    out.push((value / 0x100_0000) as u8);
    assert(out@ =~= before + le_bytes(value));
}

/// A word reads back as it was written.
pub proof fn law_word_round_trip(before: Seq<u8>, value: u32, after: Seq<u8>)
    ensures
        word_at(before + le_bytes(value) + after, before.len() as int) == value,
{
    let all = before + le_bytes(value) + after;
    let at = before.len() as int;
    assert(all[at] == le_bytes(value)[0]);
    assert(all[at + 1] == le_bytes(value)[1]);
    assert(all[at + 2] == le_bytes(value)[2]);
    assert(all[at + 3] == le_bytes(value)[3]);
}

/// The encoding of a concatenation is the concatenation of the encodings.
pub proof fn lemma_encode_concat(a: Seq<char>, b: Seq<char>)
    ensures
        encode_utf8(a + b) == encode_utf8(a) + encode_utf8(b),
    decreases a.len(),
{
    if a.len() == 0 {
        assert(a + b =~= b);
        assert(encode_utf8(a) + encode_utf8(b) =~= encode_utf8(b));
    } else {
        lemma_encode_concat(a.drop_first(), b);
        assert((a + b).drop_first() =~= a.drop_first() + b);
        assert((a + b)[0] == a[0]);
        let head = encode_scalar(a[0] as u32);
        assert(head + (encode_utf8(a.drop_first()) + encode_utf8(b)) =~= (head + encode_utf8(
            a.drop_first(),
        )) + encode_utf8(b));
    }
}

/// The decimal digits of a number.
pub open spec fn decimal(number: nat) -> Seq<char>
    decreases number,
{
    if number < 10 {
        seq![DIGITS@[number as int]]
    } else {
        decimal(number / 10).push(DIGITS@[number as int % 10])
    }
}

/// The digits by value.
pub const DIGITS: &'static str = "0123456789";

/// Writes a number in decimal.
pub fn decimal_text(number: usize) -> (text: String)
    ensures
        text@ == decimal(number as nat),
    decreases number,
{
    proof {
        reveal_strlit("0123456789");
    }
    let low: usize = number % 10;
    let digit: &'static str = DIGITS.substring_ascii(low, low + 1);
    assert(digit@ =~= seq![DIGITS@[low as int]]);
    if number < 10 {
        digit.to_owned()
    } else {
        let mut text: String = decimal_text(number / 10);
        text.append(digit);
        assert(decimal((number / 10) as nat) + digit@ =~= decimal((number / 10) as nat).push(
            DIGITS@[low as int],
        ));
        text
    }
}

/// The bytes of a word, the lowest first, have the weights of their places.
pub proof fn law_lowest_byte_comes_first(value: u32, bytes: Seq<u8>, at: int)
    ensures
        le_bytes(value).len() == 4,
        value == le_bytes(value)[0] + 256 * le_bytes(value)[1] + 65_536 * le_bytes(value)[2]
            + 16_777_216 * le_bytes(value)[3],
        word_at(bytes, at) == bytes[at] + 256 * bytes[at + 1] + 65_536 * bytes[at + 2] + 16_777_216
            * bytes[at + 3],
{
}

/// Signed and unsigned readings of a word are inverse to each other, and differ
/// by a multiple of two to the 32nd power.
pub proof fn law_signed_words(word: u32, value: i32)
    ensures
        unsigned(signed(word)) == word,
        signed(unsigned(value)) == value,
        signed(word) == word || signed(word) == word - 4_294_967_296,
        signed(word) >= 0 <==> word <= i32::MAX,
        value >= 0 ==> unsigned(value) == value,
{
}

} // verus!
