//! Rectangles that the application asks for by key: where a keyed div was laid
//! out in the last frame.
use crate::copy::{copy_out, overwritten};
use crate::float::{round_to_i32, rounded};
use crate::table::TextTable;
use crate::text::{
    append_word, decode_strict, law_signed_words, law_word_round_trip, le_bytes, same_text, signed,
    to_unsigned, unsigned, word_at,
};
use vstd::prelude::*;
use vstd::utf8::{
    decode_utf8, encode_utf8, encode_utf8_decode_utf8, encode_utf8_valid_utf8, valid_utf8,
};

verus! {

/// A rectangle in window coordinates: left, top, width and height, each a
/// single-precision float by its bits.
pub type ProbeRect = (u32, u32, u32, u32);

/// The key under which the caret is found.
pub const CARET_KEY: &'static str = "caret";

/// The key that empties the table at the start of a frame.
pub const CLEAR_KEY: &'static str = "probe:clear";

/// The rectangles of the last frame by key.
pub struct ProbeTable {
    rects: TextTable<ProbeRect>,
}

impl View for ProbeTable {
    type V = Map<Seq<char>, ProbeRect>;

    closed spec fn view(&self) -> Map<Seq<char>, ProbeRect> {
        self.rects@
    }
}

/// What a frame leaves in the table once a keyed div was laid out.
pub open spec fn observed(
    table: Map<Seq<char>, ProbeRect>,
    key: Seq<char>,
    rect: ProbeRect,
) -> Map<Seq<char>, ProbeRect> {
    if key == CLEAR_KEY@ {
        Map::empty().insert(key, rect)
    } else {
        table.insert(key, rect)
    }
}

impl ProbeTable {
    /// An empty table.
    pub fn new() -> (table: ProbeTable)
        ensures
            table@ == Map::<Seq<char>, ProbeRect>::empty(),
    {
        ProbeTable { rects: TextTable::new() }
    }

    /// Records where a keyed div was laid out. The clearing key, which comes
    /// first in a frame, empties the table before.
    pub fn observe(&mut self, key: &str, rect: ProbeRect)
        ensures
            final(self)@ == observed(old(self)@, key@, rect),
    {
        if same_text(key, CLEAR_KEY) {
            self.rects.clear();
        }
        self.rects.set(key, rect);
    }

    /// The rectangle under a key.
    pub fn get(&self, key: &str) -> (rect: Option<ProbeRect>)
        ensures
            rect == if self@.dom().contains(key@) {
                Some(self@[key@])
            } else {
                None
            },
    {
        match self.rects.get(key) {
            Some(rect) => Some(*rect),
            None => None,
        }
    }
}

/// The bytes in which a rectangle is handed out: four rounded integers.
pub open spec fn rect_bytes(rect: ProbeRect) -> Seq<u8> {
    le_bytes(unsigned(rounded(rect.0))) + le_bytes(unsigned(rounded(rect.1))) + le_bytes(
        unsigned(rounded(rect.2)),
    ) + le_bytes(unsigned(rounded(rect.3)))
}

/// Does asking for a rectangle find one?
pub open spec fn probe_hits(
    table: Map<Seq<char>, ProbeRect>,
    key: Option<Seq<u8>>,
    len: i32,
    present: bool,
) -> bool {
    &&& key is Some
    &&& present
    &&& len > 0
    &&& valid_utf8(key->0)
    &&& table.dom().contains(decode_utf8(key->0))
}

/// Copies the rectangle under a key, rounded to whole pixels. Answers zero, or
/// minus one where there is none.
pub fn gpui_probe_rect(
    table: &ProbeTable,
    buf: Option<&[u8]>,
    len: i32,
    out: Option<&mut [u8]>,
) -> (status: i32)
    requires
        buf matches Some(bytes) ==> len <= 0 || bytes@.len() == len,
        out matches Some(room) ==> room@.len() >= 16,
    ensures
        status == if probe_hits(
            table@,
            match buf {
                Some(bytes) => Some(bytes@),
                None => None,
            },
            len,
            out is Some,
        ) {
            0int
        } else {
            -1
        },
        out matches Some(room) ==> final(room)@ == if status == 0 {
            overwritten(room@, rect_bytes(table@[decode_utf8(buf->0@)]), 16)
        } else {
            room@
        },
{
    match (buf, out) {
        (Some(bytes), Some(room)) => {
            if len <= 0 {
                return -1;
            }
            match decode_strict(bytes) {
                None => -1,
                Some(key) => match table.get(key) {
                    None => -1,
                    Some(rect) => {
                        let mut words: Vec<u8> = Vec::new();
                        append_word(&mut words, to_unsigned(round_to_i32(rect.0)));
                        append_word(&mut words, to_unsigned(round_to_i32(rect.1)));
                        append_word(&mut words, to_unsigned(round_to_i32(rect.2)));
                        append_word(&mut words, to_unsigned(round_to_i32(rect.3)));
                        assert(words@ =~= rect_bytes(rect));
                        let _ = copy_out(words.as_slice(), room, 16);
                        0
                    },
                },
            }
        },
        _ => -1,
    }
}

/// What was laid out last under a key is what is found there, and a new frame
/// starts with nothing but the clearing key.
pub proof fn law_probe_finds_what_was_observed(
    table: Map<Seq<char>, ProbeRect>,
    key: Seq<char>,
    rect: ProbeRect,
    other: Seq<char>,
)
    requires
        other != key,
    ensures
        observed(table, key, rect)[key] == rect,
        observed(table, key, rect).dom().contains(key),
        key != CLEAR_KEY@ ==> observed(table, key, rect).dom().contains(other)
            == table.dom().contains(other),
        key == CLEAR_KEY@ ==> !observed(table, key, rect).dom().contains(other),
{
}

/// What is laid out under one key changes nothing under another, until a new frame
/// starts.
pub proof fn law_probes_are_kept_apart(
    table: Map<Seq<char>, ProbeRect>,
    key: Seq<char>,
    rect: ProbeRect,
    other: Seq<char>,
)
    requires
        other != key,
        key != CLEAR_KEY@,
        table.dom().contains(other),
    ensures
        observed(table, key, rect).dom().contains(other),
        observed(table, key, rect)[other] == table[other],
{
}

/// The four words that are handed out are the left, the top, the width and the
/// height, each rounded.
pub proof fn law_rectangle_reads_back(rect: ProbeRect, buffer: Seq<u8>)
    requires
        buffer.len() >= 16,
    ensures
        ({
            let read = overwritten(buffer, rect_bytes(rect), 16);
            &&& signed(word_at(read, 0)) == rounded(rect.0)
            &&& signed(word_at(read, 4)) == rounded(rect.1)
            &&& signed(word_at(read, 8)) == rounded(rect.2)
            &&& signed(word_at(read, 12)) == rounded(rect.3)
            &&& read.len() == buffer.len()
        }),
{
    let read = overwritten(buffer, rect_bytes(rect), 16);
    let a = le_bytes(unsigned(rounded(rect.0)));
    let b = le_bytes(unsigned(rounded(rect.1)));
    let c = le_bytes(unsigned(rounded(rect.2)));
    let d = le_bytes(unsigned(rounded(rect.3)));
    let rest = buffer.skip(16);
    assert(read =~= Seq::<u8>::empty() + a + (b + c + d + rest));
    law_word_round_trip(Seq::empty(), unsigned(rounded(rect.0)), b + c + d + rest);
    assert(read =~= a + b + (c + d + rest));
    law_word_round_trip(a, unsigned(rounded(rect.1)), c + d + rest);
    assert(read =~= a + b + c + (d + rest));
    law_word_round_trip(a + b, unsigned(rounded(rect.2)), d + rest);
    assert(read =~= a + b + c + d + rest);
    law_word_round_trip(a + b + c, unsigned(rounded(rect.3)), rest);
    law_signed_words(0, rounded(rect.0));
    law_signed_words(0, rounded(rect.1));
    law_signed_words(0, rounded(rect.2));
    law_signed_words(0, rounded(rect.3));
}

/// A rectangle is found by the bytes that encode its key, and by no others.
pub proof fn law_probes_are_found_by_key(table: Map<Seq<char>, ProbeRect>, key: Seq<char>, len: i32)
    requires
        len > 0,
    ensures
        probe_hits(table, Some(encode_utf8(key)), len, true) <==> table.dom().contains(key),
        !probe_hits(table, Some(encode_utf8(key)), len, false),
        !probe_hits(table, Some(encode_utf8(key)), 0, true),
        !probe_hits(table, None, len, true),
{
    encode_utf8_valid_utf8(key);
    encode_utf8_decode_utf8(key);
}

} // verus!
