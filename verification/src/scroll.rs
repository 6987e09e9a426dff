//! Scroll positions: what was painted last, what was announced last, and how
//! both are read and forgotten.
//!
//! Offsets are zero or negative and shrink as the content scrolls down or to
//! the right; the extent is the largest distance it can scroll. All are
//! single-precision pixels, held by their bits.
use crate::abi::{GPUI_STATUS_INVALID_HANDLE, GPUI_STATUS_KEY_NOT_FOUND};
use crate::copy::{copy_out, overwritten};
use crate::float::{
    is_finite, is_nan, law_magnitude_bits_are_ordered, magnitude, numeric, units, SIGN_BIT,
};
use crate::table::{pruned, Key, PairTable};
use crate::text::{append_word, le_bytes, word_at};
use vstd::prelude::*;

verus! {

/// How many bytes the state of one scroll position takes.
pub const SCROLL_STATE_BYTES: usize = 24;

/// The state of one scroll position, horizontal before vertical.
#[derive(Clone, Copy, PartialEq, Eq, Debug)]
pub struct ScrollMirrorEntry {
    pub offset: (u32, u32),
    pub max: (u32, u32),
    pub viewport: (u32, u32),
}

/// What is known of the scroll positions of all views.
pub struct ScrollMirror {
    /// The state at the last paint.
    state: PairTable<ScrollMirrorEntry>,
    /// The offset that was announced last.
    sent: PairTable<(u32, u32)>,
}

/// Do two floats compare equal?
pub open spec fn float_equal(a: u32, b: u32) -> bool {
    &&& !is_nan(a)
    &&& !is_nan(b)
    &&& a == b || magnitude(a) == 0 && magnitude(b) == 0
}

/// Is a float one that a scrollable extent can have? Every float that is not
/// less than zero is, the negative zero among them.
pub open spec fn is_extent(max: u32) -> bool {
    !is_nan(max) && max <= SIGN_BIT
}

/// A float with the other sign.
pub open spec fn negated(bits: u32) -> u32 {
    if bits < SIGN_BIT {
        (SIGN_BIT + bits) as u32
    } else {
        (bits - SIGN_BIT) as u32
    }
}

/// An offset brought into the range from minus the extent to zero.
pub open spec fn settled(raw: u32, max: u32) -> u32 {
    if raw < SIGN_BIT && raw > 0 {
        0
    } else if raw > SIGN_BIT + magnitude(max) {
        negated(max)
    } else {
        raw
    }
}

/// Settling clamps the value.
pub proof fn law_settling_clamps(raw: u32, max: u32)
    requires
        is_finite(raw),
        is_finite(max),
        is_extent(max),
    ensures
        is_finite(settled(raw, max)),
        numeric(raw) > 0 ==> numeric(settled(raw, max)) == 0,
        numeric(raw) < -numeric(max) ==> numeric(settled(raw, max)) == -numeric(max),
        -numeric(max) <= numeric(raw) <= 0 ==> numeric(settled(raw, max)) == numeric(raw),
{
    let limit: u32 = negated(max);
    assert(magnitude(limit) == magnitude(max));
    law_magnitude_bits_are_ordered(limit, max);
    law_magnitude_bits_are_ordered(max, limit);
    law_magnitude_bits_are_ordered(raw, max);
    law_magnitude_bits_are_ordered(max, raw);
    law_magnitude_bits_are_ordered(raw, 0);
    assert(units(0) == 0);
}

/// Brings an offset into the range from minus the extent to zero.
pub fn settle(raw: u32, max: u32) -> (offset: u32)
    requires
        !is_nan(raw),
        is_extent(max),
    ensures
        offset == settled(raw, max),
{
    let limit: u32 = if max < SIGN_BIT {
        SIGN_BIT + max
    } else {
        max - SIGN_BIT
    };
    if raw < SIGN_BIT && raw > 0 {
        0
    } else if raw > SIGN_BIT + max % SIGN_BIT {
        limit
    } else {
        raw
    }
}

/// Do two floats compare equal?
fn same_float(a: u32, b: u32) -> (same: bool)
    ensures
        same == float_equal(a, b),
{
    let ma: u32 = a % SIGN_BIT;
    let mb: u32 = b % SIGN_BIT;
    ma <= 0x7f80_0000 && mb <= 0x7f80_0000 && (a == b || (ma == 0 && mb == 0))
}

/// The bytes in which a state is handed out.
pub open spec fn state_bytes(entry: ScrollMirrorEntry) -> Seq<u8> {
    le_bytes(entry.offset.0) + le_bytes(entry.offset.1) + le_bytes(entry.max.0) + le_bytes(
        entry.max.1,
    ) + le_bytes(entry.viewport.0) + le_bytes(entry.viewport.1)
}

impl ScrollMirror {
    /// The state at the last paint, by view and id.
    pub closed spec fn states(&self) -> Map<Key, ScrollMirrorEntry> {
        self.state@
    }

    /// The offset that was announced last, by view and id.
    pub closed spec fn announced(&self) -> Map<Key, (u32, u32)> {
        self.sent@
    }

    /// No key occurs twice in either table.
    pub closed spec fn wf(&self) -> bool {
        self.state.wf() && self.sent.wf()
    }

    /// Nothing is known yet.
    pub fn new() -> (mirror: ScrollMirror)
        ensures
            mirror.wf(),
            mirror.states() == Map::<Key, ScrollMirrorEntry>::empty(),
            mirror.announced() == Map::<Key, (u32, u32)>::empty(),
    {
        ScrollMirror { state: PairTable::new(), sent: PairTable::new() }
    }

    /// Records the state at a paint.
    pub fn scroll_mirror_update(&mut self, view: i32, scroll_id: i32, entry: ScrollMirrorEntry)
        requires
            old(self).wf(),
        ensures
            final(self).wf(),
            final(self).states() == old(self).states().insert((view, scroll_id), entry),
            final(self).announced() == old(self).announced(),
    {
        let _ = self.state.insert((view, scroll_id), entry);
    }

    /// Reads the state at the last paint.
    pub fn scroll_mirror_get(&self, view: i32, scroll_id: i32) -> (entry: Option<ScrollMirrorEntry>)
        requires
            self.wf(),
        ensures
            entry == if self.states().dom().contains((view, scroll_id)) {
                Some(self.states()[(view, scroll_id)])
            } else {
                None
            },
    {
        match self.state.get((view, scroll_id)) {
            Some(entry) => Some(*entry),
            None => None,
        }
    }

    /// Forgets the positions of a view whose ids a rebuild removed.
    pub fn scroll_mirror_prune(&mut self, view: i32, live: &Vec<i32>)
        requires
            old(self).wf(),
        ensures
            final(self).wf(),
            final(self).states() == pruned(old(self).states(), view, live@.to_set()),
            final(self).announced() == pruned(old(self).announced(), view, live@.to_set()),
    {
        self.state.prune(view, live);
        self.sent.prune(view, live);
    }

    /// Takes note of a paint: records the state with the settled offset, and
    /// answers whether the offset is to be announced. The first sight of a
    /// position is never announced; later ones are where the offset changed.
    pub fn observe(
        &mut self,
        view: i32,
        scroll_id: i32,
        raw: (u32, u32),
        max: (u32, u32),
        viewport: (u32, u32),
    ) -> (announce: bool)
        requires
            old(self).wf(),
            !is_nan(raw.0),
            !is_nan(raw.1),
            is_extent(max.0),
            is_extent(max.1),
        ensures
            final(self).wf(),
            ({
                let key = (view, scroll_id);
                let offset = (settled(raw.0, max.0), settled(raw.1, max.1));
                &&& final(self).states() == old(self).states().insert(
                    key,
                    (ScrollMirrorEntry { offset, max, viewport }),
                )
                &&& final(self).announced() == old(self).announced().insert(key, offset)
                &&& announce == (old(self).announced().dom().contains(key) && !(float_equal(
                    old(self).announced()[key].0,
                    offset.0,
                ) && float_equal(old(self).announced()[key].1, offset.1)))
            }),
    {
        let offset: (u32, u32) = (settle(raw.0, max.0), settle(raw.1, max.1));
        self.scroll_mirror_update(view, scroll_id, ScrollMirrorEntry { offset, max, viewport });
        match self.sent.insert((view, scroll_id), offset) {
            None => false,
            Some(previous) => !(same_float(previous.0, offset.0) && same_float(
                previous.1,
                offset.1,
            )),
        }
    }
}

/// What the reader of a scroll position answers.
pub open spec fn scroll_copy_status(
    states: Map<Key, ScrollMirrorEntry>,
    view: i32,
    scroll_id: i32,
    present: bool,
    len: i32,
) -> i32 {
    if view < 0 || !present || len < SCROLL_STATE_BYTES {
        GPUI_STATUS_INVALID_HANDLE
    } else if !states.dom().contains((view, scroll_id)) {
        GPUI_STATUS_KEY_NOT_FOUND
    } else {
        SCROLL_STATE_BYTES as i32
    }
}

/// Copies the state of a scroll position: the offset, the extent and the size
/// of the viewport, six floats.
pub fn gpui_scroll_copy_state(
    mirror: &ScrollMirror,
    view: i32,
    scroll_id: i32,
    buf: Option<&mut [u8]>,
    len: i32,
) -> (status: i32)
    requires
        mirror.wf(),
        buf matches Some(b) ==> len <= b@.len(),
    ensures
        status == scroll_copy_status(mirror.states(), view, scroll_id, buf is Some, len),
        buf matches Some(b) ==> final(b)@ == if status == SCROLL_STATE_BYTES {
            overwritten(b@, state_bytes(mirror.states()[(view, scroll_id)]), status as int)
        } else {
            b@
        },
{
    match buf {
        None => GPUI_STATUS_INVALID_HANDLE,
        Some(buf) => {
            if view < 0 || len < 24 {
                return GPUI_STATUS_INVALID_HANDLE;
            }
            match mirror.scroll_mirror_get(view, scroll_id) {
                None => GPUI_STATUS_KEY_NOT_FOUND,
                Some(entry) => {
                    let mut bytes: Vec<u8> = Vec::new();
                    append_word(&mut bytes, entry.offset.0);
                    append_word(&mut bytes, entry.offset.1);
                    append_word(&mut bytes, entry.max.0);
                    append_word(&mut bytes, entry.max.1);
                    append_word(&mut bytes, entry.viewport.0);
                    append_word(&mut bytes, entry.viewport.1);
                    assert(bytes@ =~= state_bytes(entry));
                    copy_out(bytes.as_slice(), buf, len)
                },
            }
        },
    }
}

/// What a paint recorded is read back: the six words of the buffer are the
/// offset, the extent and the viewport.
pub proof fn law_scroll_state_reads_back(entry: ScrollMirrorEntry, buffer: Seq<u8>)
    requires
        buffer.len() >= SCROLL_STATE_BYTES,
    ensures
        ({
            let read = overwritten(buffer, state_bytes(entry), SCROLL_STATE_BYTES as int);
            &&& word_at(read, 0) == entry.offset.0
            &&& word_at(read, 4) == entry.offset.1
            &&& word_at(read, 8) == entry.max.0
            &&& word_at(read, 12) == entry.max.1
            &&& word_at(read, 16) == entry.viewport.0
            &&& word_at(read, 20) == entry.viewport.1
            &&& read.len() == buffer.len()
        }),
{
    let read = overwritten(buffer, state_bytes(entry), SCROLL_STATE_BYTES as int);
    let first = le_bytes(entry.offset.0);
    let second = first + le_bytes(entry.offset.1);
    let third = second + le_bytes(entry.max.0);
    let fourth = third + le_bytes(entry.max.1);
    let fifth = fourth + le_bytes(entry.viewport.0);
    let sixth = fifth + le_bytes(entry.viewport.1);
    assert(read.take(24) =~= sixth);
    lemma_word_behind(fifth, entry.viewport.1, read);
    assert(read.take(20) =~= fifth) by {
        assert(sixth.take(20) =~= fifth);
        assert(read.take(24).take(20) =~= read.take(20));
    }
    lemma_word_behind(fourth, entry.viewport.0, read);
    assert(read.take(16) =~= fourth) by {
        assert(fifth.take(16) =~= fourth);
        assert(read.take(20).take(16) =~= read.take(16));
    }
    lemma_word_behind(third, entry.max.1, read);
    assert(read.take(12) =~= third) by {
        assert(fourth.take(12) =~= third);
        assert(read.take(16).take(12) =~= read.take(12));
    }
    lemma_word_behind(second, entry.max.0, read);
    assert(read.take(8) =~= second) by {
        assert(third.take(8) =~= second);
        assert(read.take(12).take(8) =~= read.take(8));
    }
    lemma_word_behind(first, entry.offset.1, read);
    assert(read.take(4) =~= Seq::<u8>::empty() + first) by {
        assert(second.take(4) =~= first);
        assert(read.take(8).take(4) =~= read.take(4));
    }
    lemma_word_behind(Seq::empty(), entry.offset.0, read);
}

/// A word that stands behind a prefix is read there.
proof fn lemma_word_behind(prefix: Seq<u8>, value: u32, read: Seq<u8>)
    requires
        read.len() >= prefix.len() + 4,
        read.take(prefix.len() as int + 4) == prefix + le_bytes(value),
    ensures
        word_at(read, prefix.len() as int) == value,
{
    let at = prefix.len() as int;
    let front = read.take(at + 4);
    assert(front[at] == read[at]);
    assert(front[at + 1] == read[at + 1]);
    assert(front[at + 2] == read[at + 2]);
    assert(front[at + 3] == read[at + 3]);
    assert(front[at] == le_bytes(value)[0]);
    assert(front[at + 1] == le_bytes(value)[1]);
    assert(front[at + 2] == le_bytes(value)[2]);
    assert(front[at + 3] == le_bytes(value)[3]);
}

/// A rebuild forgets exactly the ids of its own view that it no longer holds.
pub proof fn law_prune_is_per_view<V>(map: Map<Key, V>, view: i32, live: Set<i32>, key: Key)
    ensures
        pruned(map, view, live).dom().contains(key) <==> map.dom().contains(key) && (key.0 != view
            || live.contains(key.1)),
        pruned(map, view, live).dom().contains(key) ==> pruned(map, view, live)[key] == map[key],
{
}

/// Finite floats compare equal exactly where they have the same value; no float
/// equals what is no number, and an infinity only itself.
pub proof fn law_floats_compare_by_value(a: u32, b: u32)
    ensures
        is_finite(a) && is_finite(b) ==> (float_equal(a, b) <==> numeric(a) == numeric(b)),
        is_nan(a) || is_nan(b) ==> !float_equal(a, b),
        !is_nan(a) && !is_nan(b) && !(is_finite(a) && is_finite(b)) ==> (float_equal(a, b) <==> a
            == b),
{
    if is_finite(a) && is_finite(b) {
        law_magnitude_bits_are_ordered(a, b);
        law_magnitude_bits_are_ordered(b, a);
        law_magnitude_bits_are_ordered(a, 0);
        law_magnitude_bits_are_ordered(b, 0);
        assert(units(0) == 0);
    }
}

/// Offsets without bounds settle at the ends of the range; the extent may be
/// without bounds as well.
pub proof fn law_unbounded_offsets_settle(raw: u32, max: u32)
    requires
        !is_nan(raw),
        is_extent(max),
    ensures
        raw == 0x7f80_0000 ==> settled(raw, max) == 0,
        raw == 0xff80_0000 ==> settled(raw, max) == negated(max),
        max == 0x7f80_0000 && raw > SIGN_BIT ==> settled(raw, max) == raw,
        settled(settled(raw, max), max) == settled(raw, max),
{
}

/// A scroll position is handed out exactly where the view has one under the id
/// and there is room for it.
pub proof fn law_scroll_positions_are_found(
    states: Map<Key, ScrollMirrorEntry>,
    view: i32,
    scroll_id: i32,
    present: bool,
    len: i32,
)
    ensures
        ({
            let status = scroll_copy_status(states, view, scroll_id, present, len);
            let asked = view >= 0 && present && len >= 24;
            &&& status == 24 <==> asked && states.dom().contains((view, scroll_id))
            &&& status == GPUI_STATUS_KEY_NOT_FOUND <==> asked && !states.dom().contains(
                (view, scroll_id),
            )
            &&& status == GPUI_STATUS_INVALID_HANDLE <==> !asked
        }),
{
}

} // verus!
