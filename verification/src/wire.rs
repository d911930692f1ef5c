//! Whole numbers and lists as MessagePack bytes.
//!
//! A map is saved as nested MessagePack arrays of whole numbers.  This module
//! holds the two building blocks: a whole number, written in the fewest bytes
//! that hold it, and the header that opens an array and says how many items
//! follow.  Numbers of several bytes are written big end first.
//!
//! Reading is more lenient than writing: a number is taken in any of the
//! integer forms of MessagePack as long as it is not negative, and an array
//! header in any of its three forms.

use vstd::prelude::*;

verus! {

/// `part` is what stands in `bytes` from place `at` on.
pub open spec fn stands_at(bytes: Seq<u8>, at: int, part: Seq<u8>) -> bool {
    &&& 0 <= at
    &&& at + part.len() <= bytes.len()
    &&& bytes.subrange(at, at + part.len()) == part
}

/// Where two parts stand in a row, each of them stands where it begins.
pub proof fn lemma_stands_split(bytes: Seq<u8>, at: int, first: Seq<u8>, second: Seq<u8>)
    requires
        stands_at(bytes, at, first + second),
    ensures
        stands_at(bytes, at, first),
        stands_at(bytes, at + first.len(), second),
{
    let whole = first + second;
    assert forall|k: int| 0 <= k < first.len() implies bytes[at + k] == first[k] by {
        assert(bytes.subrange(at, at + whole.len())[k] == whole[k]);
    }
    assert forall|k: int| 0 <= k < second.len() implies bytes[at + first.len() + k]
        == second[k] by {
        assert(bytes.subrange(at, at + whole.len())[first.len() + k] == whole[first.len() + k]);
    }
    assert(bytes.subrange(at, at + first.len()) =~= first);
    assert(bytes.subrange(at + first.len(), at + first.len() + second.len()) =~= second);
}

/// A whole number in the fewest bytes that hold it: the number itself below
/// 128, else a marker and one or two bytes.
pub open spec fn uint_bytes(value: u16) -> Seq<u8> {
    if value < 0x80 {
        seq![value as u8]
    } else if value < 0x100 {
        seq![0xccu8, value as u8]
    } else {
        seq![0xcdu8, (value / 0x100) as u8, (value % 0x100) as u8]
    }
}

/// The header of an array of `count` items, in the fewest bytes that hold
/// it: one byte below 16 items, else a marker and two or four bytes.
pub open spec fn array_header(count: u32) -> Seq<u8> {
    if count < 0x10 {
        seq![(0x90 + count) as u8]
    } else if count < 0x1_0000 {
        seq![0xdcu8, (count / 0x100) as u8, (count % 0x100) as u8]
    } else {
        seq![
            0xddu8,
            (count / 0x100_0000) as u8,
            ((count / 0x1_0000) % 0x100) as u8,
            ((count / 0x100) % 0x100) as u8,
            (count % 0x100) as u8,
        ]
    }
}

/// The number that the `width` bytes from place `at` on spell, big end
/// first.  `width` is 1, 2, 4 or 8.
pub open spec fn be_value(bytes: Seq<u8>, at: int, width: int) -> int {
    if width == 1 {
        bytes[at] as int
    } else if width == 2 {
        bytes[at] * 0x100 + bytes[at + 1]
    } else if width == 4 {
        ((bytes[at] * 0x100 + bytes[at + 1]) * 0x100 + bytes[at + 2]) * 0x100 + bytes[at + 3]
    } else {
        ((((((bytes[at] * 0x100 + bytes[at + 1]) * 0x100 + bytes[at + 2]) * 0x100 + bytes[at
            + 3]) * 0x100 + bytes[at + 4]) * 0x100 + bytes[at + 5]) * 0x100 + bytes[at + 6])
            * 0x100 + bytes[at + 7]
    }
}

/// Reads the `width` bytes from place `at` on as a number and says where
/// the next item begins.  There is no number where the bytes run out, or
/// where the number is `signed` and below 0.
pub open spec fn read_be(bytes: Seq<u8>, at: int, width: int, signed: bool) -> Option<(int, int)> {
    if at < 0 || at + width > bytes.len() {
        None
    } else if signed && bytes[at] >= 0x80 {
        None
    } else {
        Some((be_value(bytes, at, width), at + width))
    }
}

/// Reads the whole number that begins at place `at` and says where the next
/// item begins.  There is no number where the bytes run out, where something
/// else than an integer stands, or where the integer is below 0.
pub open spec fn read_uint(bytes: Seq<u8>, at: int) -> Option<(int, int)> {
    if at < 0 || at >= bytes.len() {
        None
    } else {
        let marker = bytes[at];
        if marker < 0x80 {
            Some((marker as int, at + 1))
        } else if marker == 0xcc {
            read_be(bytes, at + 1, 1, false)
        } else if marker == 0xcd {
            read_be(bytes, at + 1, 2, false)
        } else if marker == 0xce {
            read_be(bytes, at + 1, 4, false)
        } else if marker == 0xcf {
            read_be(bytes, at + 1, 8, false)
        } else if marker == 0xd0 {
            read_be(bytes, at + 1, 1, true)
        } else if marker == 0xd1 {
            read_be(bytes, at + 1, 2, true)
        } else if marker == 0xd2 {
            read_be(bytes, at + 1, 4, true)
        } else if marker == 0xd3 {
            read_be(bytes, at + 1, 8, true)
        } else {
            None
        }
    }
}

/// Reads the whole number that begins at place `at`, if it is no larger than
/// `limit`.
pub open spec fn read_uint_within(bytes: Seq<u8>, at: int, limit: int) -> Option<(int, int)> {
    match read_uint(bytes, at) {
        Some((value, next)) => if value <= limit {
            Some((value, next))
        } else {
            None
        },
        None => None,
    }
}

/// Reads the array header that begins at place `at` and says how many items
/// the array has and where the first of them begins.  There is no header
/// where the bytes run out or where something else than an array stands.
pub open spec fn read_array_header(bytes: Seq<u8>, at: int) -> Option<(int, int)> {
    if at < 0 || at >= bytes.len() {
        None
    } else {
        let marker = bytes[at];
        if 0x90 <= marker < 0xa0 {
            Some((marker - 0x90, at + 1))
        } else if marker == 0xdc {
            read_be(bytes, at + 1, 2, false)
        } else if marker == 0xdd {
            read_be(bytes, at + 1, 4, false)
        } else {
            None
        }
    }
}

/// Reads the header of an array of exactly `count` items at place `at` and
/// says where the first item begins.
pub open spec fn read_array_of(bytes: Seq<u8>, at: int, count: int) -> Option<int> {
    match read_array_header(bytes, at) {
        Some((found, next)) => if found == count {
            Some(next)
        } else {
            None
        },
        None => None,
    }
}

/// The bytes of `items`, one after the other.
pub open spec fn items_bytes<T>(items: Seq<T>, item_bytes: spec_fn(T) -> Seq<u8>) -> Seq<u8>
    decreases items.len(),
{
    if items.len() == 0 {
        Seq::<u8>::empty()
    } else {
        items_bytes(items.drop_last(), item_bytes) + item_bytes(items.last())
    }
}

/// The bytes of a list with one more item end with the bytes of that item.
pub proof fn lemma_items_bytes_push<T>(items: Seq<T>, item: T, item_bytes: spec_fn(T) -> Seq<u8>)
    ensures
        items_bytes(items.push(item), item_bytes) == items_bytes(items, item_bytes) + item_bytes(
            item,
        ),
{
    assert(items.push(item).drop_last() =~= items);
}

/// Reads `count` items, one after the other, from place `at` on, and says
/// where the item after them begins.  There are no items where one of them
/// cannot be read.
pub open spec fn read_items<T>(
    bytes: Seq<u8>,
    at: int,
    count: nat,
    read_item: spec_fn(Seq<u8>, int) -> Option<(T, int)>,
) -> Option<(Seq<T>, int)>
    decreases count,
{
    if count == 0 {
        Some((Seq::<T>::empty(), at))
    } else {
        match read_items(bytes, at, (count - 1) as nat, read_item) {
            Some((items, next)) => match read_item(bytes, next) {
                Some((item, end)) => Some((items.push(item), end)),
                None => None,
            },
            None => None,
        }
    }
}

/// An item that cannot be read spoils every longer list.
pub proof fn lemma_read_items_stays_none<T>(
    bytes: Seq<u8>,
    at: int,
    fewer: nat,
    count: nat,
    read_item: spec_fn(Seq<u8>, int) -> Option<(T, int)>,
)
    requires
        fewer <= count,
        read_items(bytes, at, fewer, read_item) is None,
    ensures
        read_items(bytes, at, count, read_item) is None,
    decreases count,
{
    if fewer < count {
        lemma_read_items_stays_none(bytes, at, fewer, (count - 1) as nat, read_item);
    }
}

/// What was written as a whole number is read as that number.
pub proof fn lemma_uint_read_back(bytes: Seq<u8>, at: int, value: u16)
    requires
        stands_at(bytes, at, uint_bytes(value)),
    ensures
        read_uint(bytes, at) == Some((value as int, at + uint_bytes(value).len())),
{
    let part = uint_bytes(value);
    assert forall|k: int| 0 <= k < part.len() implies bytes[at + k] == part[k] by {
        assert(bytes.subrange(at, at + part.len())[k] == part[k]);
    }
    if value < 0x80 {
        assert(bytes[at] == part[0]);
    } else if value < 0x100 {
        assert(bytes[at] == part[0]);
        assert(bytes[at + 1] == part[1]);
    } else {
        assert(bytes[at] == part[0]);
        assert(bytes[at + 1] == part[1]);
        assert(bytes[at + 2] == part[2]);
    }
}

/// What was written as an array header is read as that header.
pub proof fn lemma_array_header_read_back(bytes: Seq<u8>, at: int, count: u32)
    requires
        stands_at(bytes, at, array_header(count)),
    ensures
        read_array_header(bytes, at) == Some((count as int, at + array_header(count).len())),
{
    let part = array_header(count);
    assert forall|k: int| 0 <= k < part.len() implies bytes[at + k] == part[k] by {
        assert(bytes.subrange(at, at + part.len())[k] == part[k]);
    }
    if count < 0x10 {
        assert(bytes[at] == part[0]);
    } else if count < 0x1_0000 {
        assert(bytes[at] == part[0]);
        assert(bytes[at + 1] == part[1]);
        assert(bytes[at + 2] == part[2]);
    } else {
        assert(bytes[at] == part[0]);
        assert(bytes[at + 1] == part[1]);
        assert(bytes[at + 2] == part[2]);
        assert(bytes[at + 3] == part[3]);
        assert(bytes[at + 4] == part[4]);
    }
}

/// What was written as a list of items is read as that list, where each of
/// the items that is `sound` is read as it was written.
pub proof fn lemma_items_read_back<T>(
    bytes: Seq<u8>,
    at: int,
    items: Seq<T>,
    sound: spec_fn(T) -> bool,
    item_bytes: spec_fn(T) -> Seq<u8>,
    read_item: spec_fn(Seq<u8>, int) -> Option<(T, int)>,
)
    requires
        stands_at(bytes, at, items_bytes(items, item_bytes)),
        forall|i: int| 0 <= i < items.len() ==> sound(#[trigger] items[i]),
        forall|item: T, from: int|
            sound(item) && #[trigger] stands_at(bytes, from, item_bytes(item)) ==> read_item(
                bytes,
                from,
            ) == Some((item, from + item_bytes(item).len())),
    ensures
        read_items(bytes, at, items.len(), read_item) == Some(
            (items, at + items_bytes(items, item_bytes).len()),
        ),
    decreases items.len(),
{
    if items.len() > 0 {
        let before = items.drop_last();
        lemma_stands_split(bytes, at, items_bytes(before, item_bytes), item_bytes(items.last()));
        assert forall|i: int| 0 <= i < before.len() implies sound(#[trigger] before[i]) by {
            assert(before[i] == items[i]);
        }
        lemma_items_read_back(bytes, at, before, sound, item_bytes, read_item);
        assert(sound(items[items.len() - 1]));
        assert(before.push(items.last()) =~= items);
    }
}

/// Writes `value` behind what `buf` holds.
pub fn write_uint(buf: &mut Vec<u8>, value: u16)
    ensures
        final(buf)@ == old(buf)@ + uint_bytes(value),
{
    if value < 0x80 {
        buf.push(value as u8);
    } else if value < 0x100 {
        buf.push(0xcc);
        buf.push(value as u8);
    } else {
        buf.push(0xcd);
        buf.push((value / 0x100) as u8);
        buf.push((value % 0x100) as u8);
    }
    assert(buf@ =~= old(buf)@ + uint_bytes(value));
}

/// Writes the header of an array of `count` items behind what `buf` holds.
pub fn write_array_header(buf: &mut Vec<u8>, count: u32)
    ensures
        final(buf)@ == old(buf)@ + array_header(count),
{
    if count < 0x10 {
        buf.push((0x90 + count) as u8);
    } else if count < 0x1_0000 {
        buf.push(0xdc);
        buf.push((count / 0x100) as u8);
        buf.push((count % 0x100) as u8);
    } else {
        buf.push(0xdd);
        buf.push((count / 0x100_0000) as u8);
        buf.push(((count / 0x1_0000) % 0x100) as u8);
        buf.push(((count / 0x100) % 0x100) as u8);
        buf.push((count % 0x100) as u8);
    }
    assert(buf@ =~= old(buf)@ + array_header(count));
}

/// Reads the `width` bytes from place `at` on as a number; see [`read_be`].
fn decode_be(bytes: &Vec<u8>, at: usize, width: usize, signed: bool) -> (r: Option<(u64, usize)>)
    requires
        width == 1 || width == 2 || width == 4 || width == 8,
    ensures
        match r {
            Some((value, next)) => read_be(bytes@, at as int, width as int, signed) == Some(
                (value as int, next as int),
            ),
            None => read_be(bytes@, at as int, width as int, signed) is None,
        },
{
    if at > bytes.len() || bytes.len() - at < width {
        return None;
    }
    if signed && bytes[at] >= 0x80 {
        return None;
    }
    let mut value: u64 = bytes[at] as u64;
    if width >= 2 {
        value = value * 0x100 + bytes[at + 1] as u64;
    }
    if width >= 4 {
        value = value * 0x100 + bytes[at + 2] as u64;
        value = value * 0x100 + bytes[at + 3] as u64;
    }
    if width >= 8 {
        value = value * 0x100 + bytes[at + 4] as u64;
        value = value * 0x100 + bytes[at + 5] as u64;
        value = value * 0x100 + bytes[at + 6] as u64;
        value = value * 0x100 + bytes[at + 7] as u64;
    }
    Some((value, at + width))
}

/// Reads the whole number that begins at place `at`; see [`read_uint`].
pub fn decode_uint(bytes: &Vec<u8>, at: usize) -> (r: Option<(u64, usize)>)
    ensures
        match r {
            Some((value, next)) => read_uint(bytes@, at as int) == Some(
                (value as int, next as int),
            ),
            None => read_uint(bytes@, at as int) is None,
        },
{
    if at >= bytes.len() {
        return None;
    }
    let marker: u8 = bytes[at];
    if marker < 0x80 {
        Some((marker as u64, at + 1))
    } else if marker == 0xcc {
        decode_be(bytes, at + 1, 1, false)
    } else if marker == 0xcd {
        decode_be(bytes, at + 1, 2, false)
    } else if marker == 0xce {
        decode_be(bytes, at + 1, 4, false)
    } else if marker == 0xcf {
        decode_be(bytes, at + 1, 8, false)
    } else if marker == 0xd0 {
        decode_be(bytes, at + 1, 1, true)
    } else if marker == 0xd1 {
        decode_be(bytes, at + 1, 2, true)
    } else if marker == 0xd2 {
        decode_be(bytes, at + 1, 4, true)
    } else if marker == 0xd3 {
        decode_be(bytes, at + 1, 8, true)
    } else {
        None
    }
}

/// Reads the whole number that begins at place `at`, if it is no larger than
/// `limit`; see [`read_uint_within`].
pub fn decode_uint_within(bytes: &Vec<u8>, at: usize, limit: u16) -> (r: Option<(u16, usize)>)
    ensures
        match r {
            Some((value, next)) => read_uint_within(bytes@, at as int, limit as int) == Some(
                (value as int, next as int),
            ),
            None => read_uint_within(bytes@, at as int, limit as int) is None,
        },
{
    match decode_uint(bytes, at) {
        Some((value, next)) => {
            if value <= limit as u64 {
                Some((value as u16, next))
            } else {
                None
            }
        },
        None => None,
    }
}

/// Reads the array header that begins at place `at`; see
/// [`read_array_header`].
pub fn decode_array_header(bytes: &Vec<u8>, at: usize) -> (r: Option<(u32, usize)>)
    ensures
        match r {
            Some((count, next)) => read_array_header(bytes@, at as int) == Some(
                (count as int, next as int),
            ),
            None => read_array_header(bytes@, at as int) is None,
        },
{
    if at >= bytes.len() {
        return None;
    }
    let marker: u8 = bytes[at];
    if 0x90 <= marker && marker < 0xa0 {
        Some(((marker - 0x90) as u32, at + 1))
    } else if marker == 0xdc {
        match decode_be(bytes, at + 1, 2, false) {
            Some((count, next)) => Some((count as u32, next)),
            None => None,
        }
    } else if marker == 0xdd {
        match decode_be(bytes, at + 1, 4, false) {
            Some((count, next)) => Some((count as u32, next)),
            None => None,
        }
    } else {
        None
    }
}

/// Reads the header of an array of exactly `count` items at place `at`; see
/// [`read_array_of`].
pub fn decode_array_of(bytes: &Vec<u8>, at: usize, count: u32) -> (r: Option<usize>)
    ensures
        match r {
            Some(next) => read_array_of(bytes@, at as int, count as int) == Some(next as int),
            None => read_array_of(bytes@, at as int, count as int) is None,
        },
{
    match decode_array_header(bytes, at) {
        Some((found, next)) => {
            if found == count {
                Some(next)
            } else {
                None
            }
        },
        None => None,
    }
}

} // verus!
