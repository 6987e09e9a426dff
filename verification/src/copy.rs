//! Copying into buffers that a caller lends across the boundary.
//!
//! A lent buffer is `None` where the caller passed a null pointer. A count of
//! bytes always comes with it, and a buffer holds at least that many.
use vstd::prelude::*;

verus! {

/// How many bytes a copy moves.
pub open spec fn copied(available: nat, room: int) -> int {
    if room < available {
        room
    } else {
        available as int
    }
}

/// A buffer after bytes were copied to its front.
pub open spec fn overwritten(buffer: Seq<u8>, bytes: Seq<u8>, count: int) -> Seq<u8> {
    bytes.take(count) + buffer.skip(count)
}

/// Copies as many bytes as there is room for and answers their number.
pub fn copy_out(bytes: &[u8], buf: &mut [u8], len: i32) -> (count: i32)
    requires
        0 <= len <= old(buf)@.len(),
    ensures
        count == copied(bytes@.len(), len as int),
        final(buf)@ == overwritten(old(buf)@, bytes@, count as int),
{
    let room: usize = len as usize;
    let count: usize = if room < bytes.len() {
        room
    } else {
        bytes.len()
    };
    let mut i: usize = 0;
    while i < count
        invariant
            i <= count,
            count <= bytes@.len(),
            count <= old(buf)@.len(),
            buf@ == overwritten(old(buf)@, bytes@, i as int),
        decreases count - i,
    {
        buf[i] = bytes[i];
        i = i + 1;
        assert(buf@ =~= overwritten(old(buf)@, bytes@, i as int));
    }
    count as i32
}

/// A buffer with room for all of the bytes starts with them afterwards.
pub proof fn law_copy_gives_bytes_back(buffer: Seq<u8>, bytes: Seq<u8>, room: int)
    requires
        bytes.len() <= room <= buffer.len(),
    ensures
        copied(bytes.len(), room) == bytes.len(),
        overwritten(buffer, bytes, bytes.len() as int).take(bytes.len() as int) == bytes,
{
    assert(overwritten(buffer, bytes, bytes.len() as int).take(bytes.len() as int) =~= bytes);
}

/// A copy moves as much as there is and as there is room for; the front of the
/// buffer holds it afterwards, and the rest of the buffer stays as it was.
pub proof fn law_copy_stays_within_its_room(buffer: Seq<u8>, bytes: Seq<u8>, room: int, i: int)
    requires
        0 <= room <= buffer.len(),
    ensures
        ({
            let count = copied(bytes.len(), room);
            let after = overwritten(buffer, bytes, count);
            &&& 0 <= count <= room
            &&& count <= bytes.len()
            &&& count == room || count == bytes.len()
            &&& after.len() == buffer.len()
            &&& 0 <= i < count ==> after[i] == bytes[i]
            &&& count <= i < buffer.len() ==> after[i] == buffer[i]
        }),
{
}

} // verus!
