//! Offsets in UTF-16 code units, as input methods count them, and in bytes of
//! UTF-8, as texts are held; and characters by their index.
use crate::text::lemma_encode_concat;
use std::ops::Range;
use vstd::prelude::*;
use vstd::std_specs::iter::IteratorSpec;
use vstd::utf8::{
    encode_scalar, encode_utf8, encode_utf8_first_scalar, encode_utf8_valid_utf8, is_char_boundary,
    pop_first_scalar,
};

verus! {

/// How many UTF-16 code units a character takes.
pub open spec fn width16(c: char) -> nat {
    if (c as u32) < 0x1_0000 {
        1
    } else {
        2
    }
}

/// How many bytes of UTF-8 a character takes.
pub open spec fn width8(c: char) -> nat {
    encode_scalar(c as u32).len()
}

/// How many UTF-16 code units a text takes.
pub open spec fn len16(text: Seq<char>) -> nat
    decreases text.len(),
{
    if text.len() == 0 {
        0
    } else {
        len16(text.drop_last()) + width16(text.last())
    }
}

/// How many bytes of UTF-8 a text takes.
pub open spec fn len8(text: Seq<char>) -> nat {
    encode_utf8(text).len()
}

/// How many characters it takes to reach a number of UTF-16 code units.
pub open spec fn reaching16(text: Seq<char>, units: int) -> nat
    decreases text.len(),
{
    if text.len() == 0 || units <= 0 {
        0
    } else if len16(text.drop_last()) >= units {
        reaching16(text.drop_last(), units)
    } else {
        text.len()
    }
}

/// How many characters it takes to reach a number of bytes.
pub open spec fn reaching8(text: Seq<char>, bytes: int) -> nat
    decreases text.len(),
{
    if text.len() == 0 || bytes <= 0 {
        0
    } else if len8(text.drop_last()) >= bytes {
        reaching8(text.drop_last(), bytes)
    } else {
        text.len()
    }
}

/// The byte offset that a UTF-16 offset stands for: behind the first
/// characters that reach it, or at the end of the text.
pub open spec fn from_utf16(text: Seq<char>, units: int) -> nat {
    len8(text.take(reaching16(text, units) as int))
}

/// The UTF-16 offset that a byte offset stands for.
pub open spec fn to_utf16(text: Seq<char>, bytes: int) -> nat {
    len16(text.take(reaching8(text, bytes) as int))
}

/// How many UTF-16 code units a character takes.
fn char_len_utf16(c: char) -> (width: usize)
    ensures
        width == width16(c),
{
    if (c as u32) < 0x1_0000 {
        1
    } else {
        2
    }
}

/// How many bytes of UTF-8 a character takes.
fn char_len_utf8(c: char) -> (width: usize)
    ensures
        width == width8(c),
{
    let code: u32 = c as u32;
    if code < 0x80 {
        1
    } else if code < 0x800 {
        2
    } else if code < 0x1_0000 {
        3
    } else {
        4
    }
}

/// One character more takes its own width more.
proof fn lemma_one_more(text: Seq<char>, k: int)
    requires
        0 <= k < text.len(),
    ensures
        len8(text.take(k + 1)) == len8(text.take(k)) + width8(text[k]),
        len16(text.take(k + 1)) == len16(text.take(k)) + width16(text[k]),
        1 <= width16(text[k]) <= width8(text[k]) <= 4,
{
    let more = text.take(k + 1);
    assert(more.drop_last() =~= text.take(k));
    assert(more =~= text.take(k) + seq![text[k]]);
    lemma_encode_concat(text.take(k), seq![text[k]]);
    assert(seq![text[k]].drop_first() =~= Seq::empty());
    assert(encode_utf8(seq![text[k]].drop_first()) =~= Seq::empty());
    assert(encode_utf8(seq![text[k]]) =~= encode_scalar(text[k] as u32));
}

/// A longer prefix takes more of both.
pub proof fn lemma_prefix_lengths(text: Seq<char>, j: int, k: int)
    requires
        0 <= j <= k <= text.len(),
    ensures
        len8(text.take(j)) <= len8(text.take(k)),
        len16(text.take(j)) <= len16(text.take(k)),
        j < k ==> len8(text.take(j)) < len8(text.take(k)),
        j < k ==> len16(text.take(j)) < len16(text.take(k)),
        len16(text.take(k)) <= len8(text.take(k)),
    decreases k,
{
    if j < k {
        lemma_prefix_lengths(text, j, k - 1);
        lemma_one_more(text, k - 1);
    } else if k > 0 {
        lemma_prefix_lengths(text, k - 1, k - 1);
        lemma_one_more(text, k - 1);
    } else {
        assert(text.take(0) =~= Seq::empty());
    }
}

/// The first prefix that is long enough, or the whole text.
proof fn lemma_reaching16(text: Seq<char>, units: int, k: int)
    requires
        0 <= k <= text.len(),
        forall|j: int| 0 <= j < k ==> len16(#[trigger] text.take(j)) < units,
        k < text.len() ==> len16(text.take(k)) >= units,
    ensures
        reaching16(text, units) == k,
    decreases text.len(),
{
    if text.len() > 0 {
        let fewer = text.drop_last();
        assert(forall|j: int| 0 <= j <= fewer.len() ==> fewer.take(j) =~= text.take(j));
        assert(fewer =~= text.take(text.len() - 1));
        assert(text.take(0) =~= Seq::empty());
        if k < text.len() {
            lemma_prefix_lengths(text, k, text.len() - 1);
            assert(text.take(k) == fewer.take(k));
            if k == text.len() - 1 && k > 0 {
                lemma_reaching16(fewer, units, k);
            } else if k < text.len() - 1 {
                lemma_reaching16(fewer, units, k);
            }
        } else {
            assert(len16(text.take(text.len() - 1)) < units);
        }
    }
}

proof fn lemma_reaching8(text: Seq<char>, bytes: int, k: int)
    requires
        0 <= k <= text.len(),
        forall|j: int| 0 <= j < k ==> len8(#[trigger] text.take(j)) < bytes,
        k < text.len() ==> len8(text.take(k)) >= bytes,
    ensures
        reaching8(text, bytes) == k,
    decreases text.len(),
{
    if text.len() > 0 {
        let fewer = text.drop_last();
        assert(forall|j: int| 0 <= j <= fewer.len() ==> fewer.take(j) =~= text.take(j));
        assert(fewer =~= text.take(text.len() - 1));
        assert(text.take(0) =~= Seq::empty());
        if k < text.len() {
            lemma_prefix_lengths(text, k, text.len() - 1);
            assert(text.take(k) == fewer.take(k));
            if k == text.len() - 1 && k > 0 {
                lemma_reaching8(fewer, bytes, k);
            } else if k < text.len() - 1 {
                lemma_reaching8(fewer, bytes, k);
            }
        } else {
            assert(len8(text.take(text.len() - 1)) < bytes);
        }
    }
}

/// The byte offset that a UTF-16 offset stands for.
pub fn offset_from_utf16(s: &str, utf16_offset: usize) -> (utf8_offset: usize)
    ensures
        utf8_offset == from_utf16(s@, utf16_offset as int),
{
    let total: usize = s.as_bytes().len();
    let mut chars = s.chars();
    let mut utf8_offset: usize = 0;
    let mut utf16_count: usize = 0;
    let ghost mut k: int = 0;
    proof {
        assert(s@.skip(0) =~= s@);
        assert(s@.take(0) =~= Seq::empty());
    }
    while utf16_count < utf16_offset
        invariant
            0 <= k <= s@.len(),
            total == len8(s@),
            chars.remaining() == s@.skip(k),
            utf8_offset == len8(s@.take(k)),
            utf16_count == len16(s@.take(k)),
            forall|j: int| 0 <= j < k ==> len16(#[trigger] s@.take(j)) < utf16_offset,
        decreases s@.len() - k,
    {
        match chars.next() {
            None => {
                proof {
                    assert(k == s@.len());
                    lemma_reaching16(s@, utf16_offset as int, k);
                }
                return utf8_offset;
            },
            Some(c) => {
                proof {
                    assert(c == s@[k]);
                    lemma_one_more(s@, k);
                    lemma_prefix_lengths(s@, k + 1, s@.len() as int);
                    assert(s@.take(s@.len() as int) =~= s@);
                    assert(s@.skip(k).drop_first() =~= s@.skip(k + 1));
                    k = k + 1;
                }
                utf16_count = utf16_count + char_len_utf16(c);
                utf8_offset = utf8_offset + char_len_utf8(c);
            },
        }
    }
    proof {
        lemma_reaching16(s@, utf16_offset as int, k);
    }
    utf8_offset
}

/// The UTF-16 offset that a byte offset stands for.
pub fn offset_to_utf16(s: &str, utf8_offset: usize) -> (utf16_offset: usize)
    ensures
        utf16_offset == to_utf16(s@, utf8_offset as int),
{
    let total: usize = s.as_bytes().len();
    let mut chars = s.chars();
    let mut utf16_offset: usize = 0;
    let mut utf8_count: usize = 0;
    let ghost mut k: int = 0;
    proof {
        assert(s@.skip(0) =~= s@);
        assert(s@.take(0) =~= Seq::empty());
    }
    while utf8_count < utf8_offset
        invariant
            0 <= k <= s@.len(),
            total == len8(s@),
            chars.remaining() == s@.skip(k),
            utf8_count == len8(s@.take(k)),
            utf16_offset == len16(s@.take(k)),
            forall|j: int| 0 <= j < k ==> len8(#[trigger] s@.take(j)) < utf8_offset,
        decreases s@.len() - k,
    {
        match chars.next() {
            None => {
                proof {
                    assert(k == s@.len());
                    lemma_reaching8(s@, utf8_offset as int, k);
                }
                return utf16_offset;
            },
            Some(c) => {
                proof {
                    assert(c == s@[k]);
                    lemma_one_more(s@, k);
                    lemma_prefix_lengths(s@, k + 1, s@.len() as int);
                    assert(s@.take(s@.len() as int) =~= s@);
                    assert(s@.skip(k).drop_first() =~= s@.skip(k + 1));
                    k = k + 1;
                }
                utf8_count = utf8_count + char_len_utf8(c);
                utf16_offset = utf16_offset + char_len_utf16(c);
            },
        }
    }
    proof {
        lemma_reaching8(s@, utf8_offset as int, k);
    }
    utf16_offset
}

/// The byte range that a UTF-16 range stands for.
pub fn range_from_utf16(s: &str, range: &Range<usize>) -> (bytes: Range<usize>)
    ensures
        bytes.start == from_utf16(s@, range.start as int),
        bytes.end == from_utf16(s@, range.end as int),
{
    offset_from_utf16(s, range.start)..offset_from_utf16(s, range.end)
}

/// The UTF-16 range that a byte range stands for.
pub fn range_to_utf16(s: &str, range: &Range<usize>) -> (units: Range<usize>)
    ensures
        units.start == to_utf16(s@, range.start as int),
        units.end == to_utf16(s@, range.end as int),
{
    offset_to_utf16(s, range.start)..offset_to_utf16(s, range.end)
}

/// The number of UTF-16 code units of a text.
pub fn utf16_count(s: &str) -> (units: usize)
    ensures
        units == len16(s@),
{
    let total: usize = s.as_bytes().len();
    let units: usize = offset_to_utf16(s, total);
    proof {
        let n = s@.len() as int;
        assert(s@.take(n) =~= s@);
        assert forall|j: int| 0 <= j < n implies len8(#[trigger] s@.take(j)) < total by {
            lemma_prefix_lengths(s@, j, n);
        }
        lemma_reaching8(s@, total as int, n);
    }
    units
}

/// Between characters the two offsets stand for each other: going over and
/// back is the identity, also across characters that take two code units.
pub proof fn law_offsets_round_trip(text: Seq<char>, k: int)
    requires
        0 <= k <= text.len(),
    ensures
        from_utf16(text, len16(text.take(k)) as int) == len8(text.take(k)),
        to_utf16(text, len8(text.take(k)) as int) == len16(text.take(k)),
{
    assert forall|j: int| 0 <= j < k implies len16(#[trigger] text.take(j)) < len16(
        text.take(k),
    ) && len8(text.take(j)) < len8(text.take(k)) by {
        lemma_prefix_lengths(text, j, k);
    }
    lemma_reaching16(text, len16(text.take(k)) as int, k);
    lemma_reaching8(text, len8(text.take(k)) as int, k);
}

/// Offsets past the end are brought back to it.
pub proof fn law_offsets_are_clamped(text: Seq<char>, beyond: int)
    ensures
        beyond >= len16(text) ==> from_utf16(text, beyond) == len8(text),
        beyond >= len8(text) ==> to_utf16(text, beyond) == len16(text),
        from_utf16(text, beyond) <= len8(text),
        to_utf16(text, beyond) <= len16(text),
{
    let n = text.len() as int;
    assert(text.take(n) =~= text);
    assert forall|j: int| 0 <= j < n implies len16(#[trigger] text.take(j)) < len16(text)
        && len8(text.take(j)) < len8(text) by {
        lemma_prefix_lengths(text, j, n);
    }
    if beyond >= len16(text) {
        lemma_reaching16(text, beyond, n);
    }
    if beyond >= len8(text) {
        lemma_reaching8(text, beyond, n);
    }
    lemma_reaching_bounds(text, beyond);
    lemma_prefix_lengths(text, reaching16(text, beyond) as int, n);
    lemma_prefix_lengths(text, reaching8(text, beyond) as int, n);
}

/// No more characters than there are.
pub proof fn lemma_reaching_bounds(text: Seq<char>, offset: int)
    ensures
        reaching16(text, offset) <= text.len(),
        reaching8(text, offset) <= text.len(),
    decreases text.len(),
{
    if text.len() > 0 {
        lemma_reaching_bounds(text.drop_last(), offset);
    }
}

/// The end of a prefix is a place between characters.
pub proof fn lemma_prefix_is_boundary(text: Seq<char>, k: int)
    requires
        0 <= k <= text.len(),
    ensures
        is_char_boundary(encode_utf8(text), len8(text.take(k)) as int),
        encode_utf8(text).subrange(0, len8(text.take(k)) as int) == encode_utf8(text.take(k)),
        encode_utf8(text).subrange(len8(text.take(k)) as int, len8(text) as int) == encode_utf8(
            text.skip(k),
        ),
    decreases k,
{
    lemma_encode_concat(text.take(k), text.skip(k));
    assert(text.take(k) + text.skip(k) =~= text);
    let bytes = encode_utf8(text);
    let at = len8(text.take(k)) as int;
    assert(bytes.subrange(0, at) =~= encode_utf8(text.take(k)));
    assert(bytes.subrange(at, bytes.len() as int) =~= encode_utf8(text.skip(k)));
    encode_utf8_valid_utf8(text);
    if k > 0 {
        let rest = text.drop_first();
        lemma_prefix_is_boundary(rest, k - 1);
        encode_utf8_first_scalar(text);
        assert(pop_first_scalar(bytes) =~= encode_utf8(rest));
        assert(text.take(k).drop_first() =~= rest.take(k - 1));
    } else {
        assert(text.take(0) =~= Seq::empty());
    }
}

/// What a UTF-16 offset stands for is a place between characters.
pub proof fn law_converted_offsets_are_boundaries(text: Seq<char>, units: int)
    ensures
        is_char_boundary(encode_utf8(text), from_utf16(text, units) as int),
{
    lemma_reaching_bounds(text, units);
    lemma_prefix_is_boundary(text, reaching16(text, units) as int);
}

/// A later UTF-16 offset stands for no earlier place.
pub proof fn law_conversion_is_monotone(text: Seq<char>, earlier: int, later: int)
    requires
        earlier <= later,
    ensures
        from_utf16(text, earlier) <= from_utf16(text, later),
{
    lemma_reaching_bounds(text, earlier);
    lemma_reaching_bounds(text, later);
    lemma_reaching16_monotone(text, earlier, later);
    lemma_prefix_lengths(
        text,
        reaching16(text, earlier) as int,
        reaching16(text, later) as int,
    );
}

proof fn lemma_reaching16_monotone(text: Seq<char>, earlier: int, later: int)
    requires
        earlier <= later,
    ensures
        reaching16(text, earlier) <= reaching16(text, later),
    decreases text.len(),
{
    if text.len() > 0 {
        lemma_reaching16_monotone(text.drop_last(), earlier, later);
        lemma_reaching_bounds(text, earlier);
    }
}

/// The byte offset of a character: `None` where the index is negative or beyond
/// the end. The number of characters is the end itself.
pub fn byte_of_char(content: &str, index: i32) -> (at: Option<usize>)
    ensures
        at is Some <==> 0 <= index <= content@.len(),
        at matches Some(at) ==> at == len8(content@.take(index as int)),
{
    if index < 0 {
        return None;
    }
    let total: usize = content.as_bytes().len();
    let mut chars = content.chars();
    let mut at: usize = 0;
    let mut k: i32 = 0;
    proof {
        assert(content@.skip(0) =~= content@);
        assert(content@.take(0) =~= Seq::empty());
    }
    while k < index
        invariant
            0 <= k <= index,
            k <= content@.len(),
            total == len8(content@),
            chars.remaining() == content@.skip(k as int),
            at == len8(content@.take(k as int)),
        decreases index - k,
    {
        match chars.next() {
            None => {
                assert(k == content@.len());
                return None;
            },
            Some(c) => {
                proof {
                    assert(c == content@[k as int]);
                    lemma_one_more(content@, k as int);
                    lemma_prefix_lengths(content@, k + 1, content@.len() as int);
                    assert(content@.take(content@.len() as int) =~= content@);
                    assert(content@.skip(k as int).drop_first() =~= content@.skip(k + 1));
                }
                at = at + char_len_utf8(c);
                k = k + 1;
            },
        }
    }
    Some(at)
}

/// The index of the character that starts at a byte offset, or the number of
/// characters for the end; `None` where no character starts there.
pub fn char_of_byte(content: &str, at: usize) -> (index: Option<usize>)
    ensures
        match index {
            Some(k) => k <= content@.len() && len8(content@.take(k as int)) == at,
            None => forall|k: int|
                0 <= k <= content@.len() ==> len8(#[trigger] content@.take(k)) != at,
        },
{
    let total: usize = content.as_bytes().len();
    let mut chars = content.chars();
    let mut passed: usize = 0;
    let mut k: usize = 0;
    proof {
        assert(content@.skip(0) =~= content@);
        assert(content@.take(0) =~= Seq::empty());
    }
    while passed < at
        invariant
            k <= content@.len(),
            k <= passed,
            total == len8(content@),
            chars.remaining() == content@.skip(k as int),
            passed == len8(content@.take(k as int)),
            forall|j: int| 0 <= j < k ==> len8(#[trigger] content@.take(j)) < at,
        decreases content@.len() - k,
    {
        match chars.next() {
            None => {
                assert(k == content@.len());
                return None;
            },
            Some(c) => {
                proof {
                    assert(c == content@[k as int]);
                    lemma_one_more(content@, k as int);
                    lemma_prefix_lengths(content@, k + 1, content@.len() as int);
                    assert(content@.take(content@.len() as int) =~= content@);
                    assert(content@.skip(k as int).drop_first() =~= content@.skip(k + 1));
                }
                passed = passed + char_len_utf8(c);
                k = k + 1;
            },
        }
    }
    if passed == at {
        Some(k)
    } else {
        proof {
            assert forall|j: int| 0 <= j <= content@.len() implies len8(
                #[trigger] content@.take(j),
            ) != at by {
                if j >= k {
                    lemma_prefix_lengths(content@, k as int, j);
                }
            }
        }
        None
    }
}

/// Every character has its own byte offset: the offset of one leads back to its
/// index and to no other.
pub proof fn law_offsets_name_characters(content: Seq<char>, index: int, other: int)
    requires
        0 <= index <= content.len(),
        0 <= other <= content.len(),
    ensures
        len8(content.take(index)) == len8(content.take(other)) <==> index == other,
        index < other <==> len8(content.take(index)) < len8(content.take(other)),
{
    if index <= other {
        lemma_prefix_lengths(content, index, other);
    } else {
        lemma_prefix_lengths(content, other, index);
    }
}

/// Lengths add up, and a character takes two code units exactly where it takes
/// four bytes.
pub proof fn law_lengths_add_up(before: Seq<char>, after: Seq<char>, c: char)
    ensures
        len16(before + after) == len16(before) + len16(after),
        len8(before + after) == len8(before) + len8(after),
        len16(seq![c]) == 2 <==> encode_scalar(c as u32).len() == 4,
        len16(seq![c]) == 1 <==> encode_scalar(c as u32).len() < 4,
    decreases after.len(),
{
    lemma_encode_concat(before, after);
    assert(seq![c].drop_last() =~= Seq::empty());
    assert(len16(seq![c].drop_last()) == 0);
    if after.len() == 0 {
        assert(before + after =~= before);
    } else {
        law_lengths_add_up(before, after.drop_last(), c);
        assert((before + after).drop_last() =~= before + after.drop_last());
        assert((before + after).last() == after.last());
    }
}

/// An offset within a character stands for the place behind it, in both
/// directions; one before the text stands for its start.
pub proof fn law_offsets_within_a_character(
    before: Seq<char>,
    c: char,
    after: Seq<char>,
    offset: int,
)
    ensures
        ({
            let text = before + seq![c] + after;
            let passed = before + seq![c];
            &&& len16(before) < offset <= len16(passed) ==> from_utf16(text, offset) == len8(passed)
            &&& len8(before) < offset <= len8(passed) ==> to_utf16(text, offset) == len16(passed)
            &&& offset <= 0 ==> from_utf16(text, offset) == 0 && to_utf16(text, offset) == 0
        }),
{
    let text = before + seq![c] + after;
    let passed = before + seq![c];
    let k = passed.len() as int;
    assert(text.take(k) =~= passed);
    assert(text.take(k - 1) =~= before);
    assert(text.take(0) =~= Seq::empty());
    assert forall|j: int| 0 <= j < k implies len16(#[trigger] text.take(j)) <= len16(before)
        && len8(text.take(j)) <= len8(before) by {
        lemma_prefix_lengths(text, j, k - 1);
    }
    if len16(before) < offset <= len16(passed) {
        lemma_reaching16(text, offset, k);
    }
    if len8(before) < offset <= len8(passed) {
        lemma_reaching8(text, offset, k);
    }
}

} // verus!
