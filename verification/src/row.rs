//! Rows: texts that are laid out under a key, so that the application can ask
//! where a character stands and which one stands at a position.
//!
//! The application counts characters, the layout counts bytes. Positions cross
//! the boundary as whole numbers of quarter pixels.
use crate::copy::{copy_out, overwritten};
use crate::events::{law_counts_cross_the_boundary, narrow, narrowed};
use crate::float::{exponent, fraction, is_finite, numeric, quarters, round_to_quarters};
use crate::probe::{ProbeRect, ProbeTable, CARET_KEY, CLEAR_KEY};
use crate::table::TextTable;
use crate::text::{
    append_word, decode_strict, law_signed_words, law_word_round_trip, le_bytes, same_text, signed,
    to_unsigned, unsigned, word_at,
};
use crate::utf16::{byte_of_char, char_of_byte, law_offsets_name_characters, len8};
use crate::views::lent;
use vstd::arithmetic::power2::{lemma2_to64, lemma_pow2_adds, pow2};
use vstd::prelude::*;
use vstd::utf8::{
    decode_utf8, encode_utf8, encode_utf8_decode_utf8, encode_utf8_valid_utf8, valid_utf8,
};

verus! {

/// Bytes of a position: two words.
pub const POINT_BYTES: i32 = 8;

/// Bytes of a character index: one word.
pub const INDEX_BYTES: i32 = 4;

/// Bits of the width of the caret, two pixels.
pub const CARET_WIDTH_BITS: u32 = 0x4000_0000;

/// For how long a caret that blinks is shown, and then hidden, in milliseconds.
pub const CARET_BLINK_MS: u64 = 500;

/// The texts of the rows of the last frame by key.
pub struct RowTable {
    texts: TextTable<String>,
}

impl View for RowTable {
    type V = Map<Seq<char>, Seq<char>>;

    closed spec fn view(&self) -> Map<Seq<char>, Seq<char>> {
        self.texts@.map_values(|text: String| text@)
    }
}

impl RowTable {
    /// No row yet.
    pub fn new() -> (rows: RowTable)
        ensures
            rows@ == Map::<Seq<char>, Seq<char>>::empty(),
    {
        let rows = RowTable { texts: TextTable::new() };
        assert(rows@ =~= Map::empty());
        rows
    }

    /// Records a row that was laid out.
    pub fn observe(&mut self, key: &str, content: &str)
        ensures
            final(self)@ == old(self)@.insert(key@, content@),
    {
        self.texts.set(key, content.to_owned());
        assert(self@ =~= old(self)@.insert(key@, content@));
    }

    /// Takes note of a keyed div: the one with the clearing key, which comes
    /// first in a frame, forgets the rows of the frame before.
    pub fn observe_div(&mut self, key: &str)
        ensures
            final(self)@ == if key@ == CLEAR_KEY@ {
                Map::empty()
            } else {
                old(self)@
            },
    {
        if same_text(key, CLEAR_KEY) {
            self.texts.clear();
            assert(self@ =~= Map::empty());
        }
    }

    /// The text of a row.
    pub fn text(&self, key: &str) -> (text: Option<&String>)
        ensures
            match text {
                Some(text) => self@.dom().contains(key@) && text@ == self@[key@],
                None => !self@.dom().contains(key@),
            },
    {
        self.texts.get(key)
    }
}

/// The key of the row that is asked for; `None` where there is no such row, or
/// no room for the answer.
pub open spec fn row_asked(
    rows: Map<Seq<char>, Seq<char>>,
    key: Option<Seq<u8>>,
    len: i32,
    present: bool,
) -> Option<Seq<char>> {
    if key is Some && present && len > 0 && valid_utf8(key->0) && rows.dom().contains(
        decode_utf8(key->0),
    ) {
        Some(decode_utf8(key->0))
    } else {
        None
    }
}

/// The key of the row that is asked for and the byte offset of a character of
/// it; `None` where the row has no such character.
pub open spec fn offset_asked(
    rows: Map<Seq<char>, Seq<char>>,
    key: Option<Seq<u8>>,
    len: i32,
    present: bool,
    index: i32,
) -> Option<(Seq<char>, usize)> {
    match row_asked(rows, key, len, present) {
        Some(key) => if 0 <= index <= rows[key].len() {
            Some((key, len8(rows[key].take(index as int)) as usize))
        } else {
            None
        },
        None => None,
    }
}

/// The index of the character that starts at a byte offset; the number of
/// characters for the end, and `None` where no character starts.
pub open spec fn index_at(content: Seq<char>, at: int) -> Option<int> {
    if exists|k: int| 0 <= k <= content.len() && len8(#[trigger] content.take(k)) == at {
        Some(choose|k: int| 0 <= k <= content.len() && len8(#[trigger] content.take(k)) == at)
    } else {
        None
    }
}

/// Asking for the character at the byte offset of one gives that one back.
pub proof fn law_index_and_offset_are_inverse(content: Seq<char>, index: int)
    requires
        0 <= index <= content.len(),
    ensures
        index_at(content, len8(content.take(index)) as int) == Some(index),
{
    let at = len8(content.take(index)) as int;
    assert(len8(content.take(index)) == at);
    let found = index_at(content, at)->0;
    assert(0 <= found <= content.len() && len8(content.take(found)) == at);
    law_offsets_name_characters(content, index, found);
}

/// The bytes in which a position is handed out: quarter pixels.
pub open spec fn point_bytes(point: (u32, u32)) -> Seq<u8> {
    le_bytes(unsigned(quarters(point.0))) + le_bytes(unsigned(quarters(point.1)))
}

/// The bytes in which a character index is handed out.
pub open spec fn index_bytes(index: int) -> Seq<u8> {
    le_bytes(unsigned(narrowed(index as nat)))
}

/// Hands out the position that a layout found. Answers zero, or minus one where
/// it found none.
pub fn answer_point(room: &mut [u8], found: Option<(u32, u32)>) -> (status: i32)
    requires
        old(room)@.len() >= POINT_BYTES,
    ensures
        status == if found is Some {
            0int
        } else {
            -1
        },
        final(room)@ == match found {
            Some(point) => overwritten(old(room)@, point_bytes(point), POINT_BYTES as int),
            None => old(room)@,
        },
{
    match found {
        None => -1,
        Some(point) => {
            let mut words: Vec<u8> = Vec::new();
            append_word(&mut words, to_unsigned(round_to_quarters(point.0)));
            append_word(&mut words, to_unsigned(round_to_quarters(point.1)));
            assert(words@ =~= point_bytes(point));
            let _ = copy_out(words.as_slice(), room, POINT_BYTES);
            0
        },
    }
}

/// Hands out the index of the character at the byte offset that a layout found.
/// Answers zero, or minus one where it found none or no character starts there.
pub fn answer_index(room: &mut [u8], content: &str, found: Option<usize>) -> (status: i32)
    requires
        old(room)@.len() >= INDEX_BYTES,
    ensures
        ({
            let index = match found {
                Some(at) => index_at(content@, at as int),
                None => None,
            };
            &&& status == if index is Some {
                0int
            } else {
                -1
            }
            &&& final(room)@ == match index {
                Some(index) => overwritten(old(room)@, index_bytes(index), INDEX_BYTES as int),
                None => old(room)@,
            }
        }),
{
    match found {
        None => -1,
        Some(at) => match char_of_byte(content, at) {
            None => -1,
            Some(index) => {
                proof {
                    law_index_and_offset_are_inverse(content@, index as int);
                }
                let mut word: Vec<u8> = Vec::new();
                append_word(&mut word, to_unsigned(narrow(index)));
                assert(word@ =~= index_bytes(index as int));
                let _ = copy_out(word.as_slice(), room, INDEX_BYTES);
                0
            },
        },
    }
}

/// Did a layout answer so, when it was asked for a byte offset of a row?
pub open spec fn was_placed<F: FnOnce(&str, usize) -> Option<(u32, u32)>>(
    place: F,
    key: Seq<char>,
    at: usize,
    found: Option<(u32, u32)>,
) -> bool {
    exists|name: &str| name@ == key && #[trigger] place.ensures((name, at), found)
}

/// Copies where a character of a row stands, in quarter pixels. `place` asks the
/// layout of a row for a byte offset. Answers zero, or minus one where the row
/// or the character is not there.
pub fn gpui_text_x_for_char<F: FnOnce(&str, usize) -> Option<(u32, u32)>>(
    rows: &RowTable,
    buf: Option<&[u8]>,
    len: i32,
    index: i32,
    out: Option<&mut [u8]>,
    place: F,
) -> (status: i32)
    requires
        buf matches Some(bytes) ==> len <= 0 || bytes@.len() == len,
        out matches Some(room) ==> room@.len() >= POINT_BYTES,
        forall|key: &str, at: usize|
            offset_asked(rows@, lent(buf), len, out is Some, index) == Some((key@, at))
                ==> place.requires((key, at)),
    ensures
        offset_asked(rows@, lent(buf), len, out is Some, index) is None ==> {
            &&& status == -1
            &&& out matches Some(room) ==> final(room)@ == room@
        },
        offset_asked(rows@, lent(buf), len, out is Some, index) matches Some((key, at)) ==> exists|
            found: Option<(u32, u32)>,
        |
            {
                &&& #[trigger] was_placed(place, key, at, found)
                &&& status == if found is Some {
                    0int
                } else {
                    -1
                }
                &&& out matches Some(room) ==> final(room)@ == match found {
                    Some(point) => overwritten(room@, point_bytes(point), POINT_BYTES as int),
                    None => room@,
                }
            },
{
    let ghost asked = offset_asked(rows@, lent(buf), len, out is Some, index);
    match (buf, out) {
        (Some(bytes), Some(room)) => {
            if len <= 0 {
                return -1;
            }
            match decode_strict(bytes) {
                None => -1,
                Some(key) => match rows.text(key) {
                    None => -1,
                    Some(content) => match byte_of_char(content.as_str(), index) {
                        None => -1,
                        Some(at) => {
                            let found: Option<(u32, u32)> = place(key, at);
                            proof {
                                assert(asked == Some((key@, at)));
                                assert(was_placed(place, (asked->0).0, (asked->0).1, found));
                            }
                            answer_point(room, found)
                        },
                    },
                },
            }
        },
        _ => -1,
    }
}

/// Copies the index of the character at a position, which is given in quarter
/// pixels. `find` asks the layout of a row for the byte offset at a position.
/// Answers zero, or minus one where the row is not there or has no such
/// character.
pub fn gpui_text_char_for_position<F: FnOnce(&str, i32, i32) -> Option<usize>>(
    rows: &RowTable,
    buf: Option<&[u8]>,
    len: i32,
    x: i32,
    y: i32,
    out: Option<&mut [u8]>,
    find: F,
) -> (status: i32)
    requires
        buf matches Some(bytes) ==> len <= 0 || bytes@.len() == len,
        out matches Some(room) ==> room@.len() >= INDEX_BYTES,
        forall|key: &str|
            row_asked(rows@, lent(buf), len, out is Some) == Some(key@) ==> #[trigger] find.requires(
                (key, x, y),
            ),
    ensures
        row_asked(rows@, lent(buf), len, out is Some) is None ==> {
            &&& status == -1
            &&& out matches Some(room) ==> final(room)@ == room@
        },
        row_asked(rows@, lent(buf), len, out is Some) matches Some(key) ==> exists|
            name: &str,
            found: Option<usize>,
        |
            #![trigger find.ensures((name, x, y), found)]
            {
                let index = match found {
                    Some(at) => index_at(rows@[key], at as int),
                    None => None,
                };
                &&& name@ == key
                &&& find.ensures((name, x, y), found)
                &&& status == if index is Some {
                    0int
                } else {
                    -1
                }
                &&& out matches Some(room) ==> final(room)@ == match index {
                    Some(index) => overwritten(room@, index_bytes(index), INDEX_BYTES as int),
                    None => room@,
                }
            },
{
    match (buf, out) {
        (Some(bytes), Some(room)) => {
            if len <= 0 {
                return -1;
            }
            match decode_strict(bytes) {
                None => -1,
                Some(key) => match rows.text(key) {
                    None => -1,
                    Some(content) => answer_index(room, content.as_str(), find(key, x, y)),
                },
            }
        },
        _ => -1,
    }
}

/// The rectangle of a caret: a bar as high as the line.
pub open spec fn caret_rect(point: (u32, u32), height: u32) -> ProbeRect {
    (point.0, point.1, CARET_WIDTH_BITS, height)
}

/// Records where the caret of a row stands, under the key by which input methods
/// find it.
pub fn observe_caret(probes: &mut ProbeTable, point: (u32, u32), height: u32)
    ensures
        final(probes)@ == old(probes)@.insert(CARET_KEY@, caret_rect(point, height)),
{
    proof {
        reveal_strlit("caret");
        reveal_strlit("probe:clear");
        assert(CARET_KEY@.len() != CLEAR_KEY@.len());
    }
    probes.observe(CARET_KEY, (point.0, point.1, CARET_WIDTH_BITS, height));
}

/// Does a caret show, so many milliseconds after it was first painted?
pub open spec fn blinks_on(blink: bool, elapsed: int) -> bool {
    !blink || elapsed / (CARET_BLINK_MS as int) % 2 == 0
}

/// Is a caret shown, so many milliseconds after it was first painted?
pub fn caret_is_shown(blink: bool, elapsed: u64) -> (shown: bool)
    ensures
        shown == blinks_on(blink, elapsed as int),
        shown == (!blink || elapsed / CARET_BLINK_MS % 2 == 0),
{
    !blink || elapsed / CARET_BLINK_MS % 2 == 0
}

/// What was laid out last under a key is the row that is found there, and a new
/// frame starts without rows.
pub proof fn law_row_finds_what_was_observed(
    rows: Map<Seq<char>, Seq<char>>,
    key: Seq<u8>,
    len: i32,
    content: Seq<char>,
    index: i32,
)
    requires
        valid_utf8(key),
        len > 0,
    ensures
        ({
            let name = decode_utf8(key);
            let after = rows.insert(name, content);
            &&& row_asked(after, Some(key), len, true) == Some(name)
            &&& offset_asked(after, Some(key), len, true, index) is Some <==> 0 <= index
                <= content.len()
            &&& row_asked(Map::empty(), Some(key), len, true) is None
        }),
{
}

/// The two words of a position are its quarters across and down, and the word of an
/// index is the index.
pub proof fn law_positions_read_back(point: (u32, u32), index: int, buffer: Seq<u8>)
    requires
        buffer.len() >= POINT_BYTES,
        0 <= index <= i32::MAX,
    ensures
        ({
            let read = overwritten(buffer, point_bytes(point), POINT_BYTES as int);
            &&& signed(word_at(read, 0)) == quarters(point.0)
            &&& signed(word_at(read, 4)) == quarters(point.1)
            &&& read.len() == buffer.len()
        }),
        signed(word_at(overwritten(buffer, index_bytes(index), INDEX_BYTES as int), 0)) == index,
{
    let read = overwritten(buffer, point_bytes(point), POINT_BYTES as int);
    let a = le_bytes(unsigned(quarters(point.0)));
    let b = le_bytes(unsigned(quarters(point.1)));
    let rest = buffer.skip(8);
    assert(read =~= Seq::<u8>::empty() + a + (b + rest));
    law_word_round_trip(Seq::empty(), unsigned(quarters(point.0)), b + rest);
    assert(read =~= a + b + rest);
    law_word_round_trip(a, unsigned(quarters(point.1)), rest);
    law_signed_words(0, quarters(point.0));
    law_signed_words(0, quarters(point.1));
    let word = overwritten(buffer, index_bytes(index), INDEX_BYTES as int);
    assert(word =~= Seq::<u8>::empty() + index_bytes(index) + buffer.skip(4));
    law_word_round_trip(Seq::empty(), unsigned(narrowed(index as nat)), buffer.skip(4));
    law_counts_cross_the_boundary(index as nat);
    law_signed_words(0, narrowed(index as nat));
}

/// A row is found by the bytes that encode its key, and by no others; a character of
/// it has the byte offset at which the characters before it end.
pub proof fn law_rows_are_found_by_key(
    rows: Map<Seq<char>, Seq<char>>,
    key: Seq<char>,
    len: i32,
    before: Seq<char>,
    after: Seq<char>,
)
    requires
        len > 0,
        before.len() <= i32::MAX,
        len8(before) <= usize::MAX,
    ensures
        row_asked(rows, Some(encode_utf8(key)), len, true) is Some <==> rows.dom().contains(key),
        row_asked(rows, Some(encode_utf8(key)), len, false) is None,
        row_asked(rows, Some(encode_utf8(key)), 0, true) is None,
        row_asked(rows, None, len, true) is None,
        offset_asked(
            rows.insert(key, before + after),
            Some(encode_utf8(key)),
            len,
            true,
            before.len() as i32,
        ) == Some((key, len8(before) as usize)),
        index_at(before + after, len8(before) as int) == Some(before.len() as int),
{
    encode_utf8_valid_utf8(key);
    encode_utf8_decode_utf8(key);
    assert((before + after).take(before.len() as int) =~= before);
    law_index_and_offset_are_inverse(before + after, before.len() as int);
}

/// Between the starts of characters there is none.
pub proof fn law_no_character_starts_within_another(content: Seq<char>, at: int)
    ensures
        index_at(content, at) matches Some(index) ==> 0 <= index <= content.len() && len8(
            content.take(index),
        ) == at,
        index_at(content, at) is None ==> forall|index: int|
            0 <= index <= content.len() ==> len8(#[trigger] content.take(index)) != at,
{
}

/// The bar of a caret stands at its point, two pixels wide and as high as the line.
pub proof fn law_caret_is_a_bar(point: (u32, u32), height: u32)
    ensures
        caret_rect(point, height).0 == point.0,
        caret_rect(point, height).1 == point.1,
        is_finite(caret_rect(point, height).2),
        numeric(caret_rect(point, height).2) == 2 * pow2(149),
        caret_rect(point, height).3 == height,
{
    assert(exponent(CARET_WIDTH_BITS) == 128);
    assert(fraction(CARET_WIDTH_BITS) == 0);
    lemma2_to64();
    lemma_pow2_adds(23, 127);
    lemma_pow2_adds(1, 149);
}

/// A caret that does not blink is always shown; one that does is shown at first, and
/// hidden and shown in turn from then on.
pub proof fn law_carets_blink(elapsed: int)
    requires
        0 <= elapsed,
    ensures
        blinks_on(false, elapsed),
        elapsed < 500 ==> blinks_on(true, elapsed),
        blinks_on(true, elapsed + 500) <==> !blinks_on(true, elapsed),
{
}

} // verus!
