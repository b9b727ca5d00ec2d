//! ICO/CUR directories, DIB members and PNG-backed icon encoding.
use vstd::prelude::*;
use crate::bytes::{le16, le32, le16_bytes, le32_bytes, push_le16, push_le32, read_le16, read_le32};
use super::{checked_pixels, Error, Image, Pixel};

verus! {

#[derive(Debug, Clone, Copy, PartialEq, Eq, Structural)]
pub enum IconKind {
    Icon,
    Cursor,
}

/// One directory entry; the payload is `bytes[offset..offset + size]`.
#[derive(Debug, Clone, Copy, PartialEq, Eq)]
pub struct IconMember {
    pub width: u32,
    pub height: u32,
    pub planes_or_hotspot_x: u16,
    pub bit_count_or_hotspot_y: u16,
    pub offset: usize,
    pub size: usize,
    pub png: bool,
}

pub open spec fn png_signature() -> Seq<u8> {
    seq![0x89u8, 0x50, 0x4e, 0x47, 0x0d, 0x0a, 0x1a, 0x0a]
}

/// Whether `bytes[start..start + len]` begins with the PNG signature.
fn starts_png(bytes: &[u8], start: usize, len: usize) -> (r: bool)
    requires
        start + len <= bytes@.len(),
    ensures
        r == (len >= 8 && bytes@.subrange(start as int, start + 8) == png_signature()),
{
    if len < 8 {
        return false;
    }
    let sig: [u8; 8] = [0x89, 0x50, 0x4e, 0x47, 0x0d, 0x0a, 0x1a, 0x0a];
    let _n = bytes.len();
    let mut k: usize = 0;
    while k < 8
        invariant
            k <= 8,
            _n == bytes@.len(),
            start + 8 <= bytes@.len(),
            sig@ == png_signature(),
            forall|j: int| 0 <= j < k ==> bytes@[start + j] == png_signature()[j],
        decreases 8 - k,
    {
        if bytes[start + k] != sig[k] {
            assert(bytes@.subrange(start as int, start + 8)[k as int] != png_signature()[k as int]);
            return false;
        }
        k = k + 1;
    }
    assert(bytes@.subrange(start as int, start + 8) =~= png_signature());
    true
}

/// The ranges of `ms` are pairwise disjoint.
pub open spec fn disjoint(ms: Seq<IconMember>) -> bool {
    forall|i: int, j: int|
        0 <= i < j < ms.len() ==> #[trigger] ms[i].offset + ms[i].size <= ms[j].offset || #[trigger] ms[j].offset
            + ms[j].size <= ms[i].offset
}

/// What a successful parse of an ICO/CUR directory establishes.
pub open spec fn directory_ok(b: Seq<u8>, expected: IconKind, max_members: u32, ms: Seq<IconMember>) -> bool {
    &&& b.len() >= 6
    &&& le16(b, 0) == 0
    &&& le16(b, 2) == (if expected == IconKind::Icon { 1int } else { 2int })
    &&& ms.len() == le16(b, 4)
    &&& 1 <= ms.len() <= max_members
    &&& disjoint(ms)
    &&& forall|i: int|
        0 <= i < ms.len() ==> {
            &&& 6 + 16 * ms.len() <= #[trigger] ms[i].offset
            &&& ms[i].size >= 1
            &&& ms[i].offset + ms[i].size <= b.len()
            &&& ms[i].offset == le32(b, 6 + 16 * i + 12)
            &&& ms[i].size == le32(b, 6 + 16 * i + 8)
            &&& ms[i].width == entry_dimension(b[6 + 16 * i])
            &&& ms[i].height == entry_dimension(b[6 + 16 * i + 1])
            &&& ms[i].png == (ms[i].size >= 8 && b.subrange(ms[i].offset as int, ms[i].offset + 8)
                == png_signature())
        }
}

/// A directory's width or height byte: 0 stands for 256.
pub open spec fn entry_dimension(v: u8) -> int {
    if v == 0 {
        256
    } else {
        v as int
    }
}

/// The payload offset directory entry `i` declares.
pub open spec fn entry_offset(b: Seq<u8>, i: int) -> int {
    le32(b, 6 + 16 * i + 12)
}

/// The payload size directory entry `i` declares.
pub open spec fn entry_size(b: Seq<u8>, i: int) -> int {
    le32(b, 6 + 16 * i + 8)
}

/// Whether `b` starts with an acceptable ICO/CUR directory of the
/// `expected` kind: 1 to `max_members` entries, each with a non-empty
/// payload after the directory and inside the file, no two overlapping.
pub open spec fn directory_valid(b: Seq<u8>, expected: IconKind, max_members: u32) -> bool {
    let count = le16(b, 4);
    &&& b.len() >= 6
    &&& le16(b, 0) == 0
    &&& le16(b, 2) == (if expected == IconKind::Icon { 1int } else { 2int })
    &&& 1 <= count <= max_members
    &&& 6 + 16 * count <= b.len()
    &&& forall|i: int|
        0 <= i < count ==> {
            &&& entry_size(b, i) >= 1
            &&& 6 + 16 * count <= #[trigger] entry_offset(b, i)
            &&& entry_offset(b, i) + entry_size(b, i) <= b.len()
        }
    &&& forall|i: int, j: int|
        0 <= i < j < count ==> #[trigger] entry_offset(b, i) + entry_size(b, i) <= entry_offset(b, j)
            || #[trigger] entry_offset(b, j) + entry_size(b, j) <= entry_offset(b, i)
}

/// The refusal of directory entry `i` of `count`: an empty payload or one
/// that starts inside the directory, a payload past the end of `b`, or a
/// payload that overlaps an earlier entry's.
pub open spec fn entry_refusal(b: Seq<u8>, count: int, i: int) -> Option<Error> {
    let offset = entry_offset(b, i);
    let size = entry_size(b, i);
    if size == 0 || offset < 6 + 16 * count {
        Some(Error::Invalid("ICO/CUR member range"))
    } else if offset > b.len() || size > b.len() - offset {
        Some(Error::Truncated("ICO/CUR member payload"))
    } else if exists|j: int|
        0 <= j < i && offset < entry_offset(b, j) + entry_size(b, j) && #[trigger] entry_offset(b, j)
            < offset + size {
        Some(Error::Invalid("overlapping ICO/CUR member ranges"))
    } else {
        None
    }
}

/// The refusal of the first refused entry from `i` on, if any.
pub open spec fn member_refusal(b: Seq<u8>, count: int, i: int) -> Option<Error>
    decreases count - i,
{
    if i >= count {
        None
    } else {
        match entry_refusal(b, count, i) {
            Some(e) => Some(e),
            None => member_refusal(b, count, i + 1),
        }
    }
}

/// A parsed directory is a valid one.
pub proof fn lemma_directory_ok_valid(b: Seq<u8>, expected: IconKind, max_members: u32, ms: Seq<IconMember>)
    requires
        directory_ok(b, expected, max_members, ms),
    ensures
        directory_valid(b, expected, max_members),
{
    let count = le16(b, 4);
    assert(6 + 16 * count <= b.len()) by {
        assert(6 + 16 * ms.len() <= ms[0].offset);
    }
    assert forall|i: int| 0 <= i < count implies {
        &&& entry_size(b, i) >= 1
        &&& 6 + 16 * count <= #[trigger] entry_offset(b, i)
        &&& entry_offset(b, i) + entry_size(b, i) <= b.len()
    } by {
        assert(6 + 16 * ms.len() <= ms[i].offset);
    }
    assert forall|i: int, j: int| 0 <= i < j < count implies #[trigger] entry_offset(b, i) + entry_size(b, i)
        <= entry_offset(b, j) || #[trigger] entry_offset(b, j) + entry_size(b, j) <= entry_offset(b, i) by {
        assert(6 + 16 * ms.len() <= ms[i].offset);
        assert(6 + 16 * ms.len() <= ms[j].offset);
    }
    assert forall|i: int| 0 <= i < count implies #[trigger] entry_size(b, i) >= 1 by {
        assert(6 + 16 * ms.len() <= ms[i].offset);
        assert(ms[i].size >= 1);
    }
}

/// Parses and validates an ICO/CUR directory.
pub fn parse_icon(bytes: &[u8], expected: IconKind, max_members: u32) -> (r: Result<Vec<IconMember>, Error>)
    ensures
        r matches Ok(ms) ==> directory_ok(bytes@, expected, max_members, ms@),
        r is Ok <==> directory_valid(bytes@, expected, max_members),
        bytes@.len() < 6 ==> r == Err::<Vec<IconMember>, Error>(Error::Truncated("ICO/CUR header")),
        bytes@.len() >= 6 && (le16(bytes@, 0) != 0 || (le16(bytes@, 2) != 1 && le16(bytes@, 2) != 2)) ==> r
            == Err::<Vec<IconMember>, Error>(Error::Signature("ICO/CUR")),
        bytes@.len() >= 6 && le16(bytes@, 0) == 0 && (le16(bytes@, 2) == 1 || le16(bytes@, 2) == 2) && le16(
            bytes@,
            2,
        ) != (if expected == IconKind::Icon { 1int } else { 2int }) ==> r == Err::<Vec<IconMember>, Error>(
            Error::Signature(if expected == IconKind::Icon { "ICO" } else { "CUR" }),
        ),
        bytes@.len() >= 6 && le16(bytes@, 0) == 0 && le16(bytes@, 2) == (if expected == IconKind::Icon {
            1int
        } else {
            2int
        }) && (le16(bytes@, 4) == 0 || le16(bytes@, 4) > max_members) ==> r == Err::<Vec<IconMember>, Error>(
            Error::Limit("ICO/CUR member count"),
        ),
        bytes@.len() >= 6 && le16(bytes@, 0) == 0 && le16(bytes@, 2) == (if expected == IconKind::Icon {
            1int
        } else {
            2int
        }) && 1 <= le16(bytes@, 4) <= max_members && 6 + 16 * le16(bytes@, 4) > bytes@.len() ==> r == Err::<
            Vec<IconMember>,
            Error,
        >(Error::Truncated("ICO/CUR directory")),
        bytes@.len() >= 6 && le16(bytes@, 0) == 0 && le16(bytes@, 2) == (if expected == IconKind::Icon {
            1int
        } else {
            2int
        }) && 1 <= le16(bytes@, 4) <= max_members && 6 + 16 * le16(bytes@, 4) <= bytes@.len() ==> match member_refusal(
            bytes@,
            le16(bytes@, 4),
            0,
        ) {
            Some(e) => r == Err::<Vec<IconMember>, Error>(e),
            None => r is Ok,
        },
        r matches Err(e) ==> (e is Truncated || e is Signature || e is Limit || e is Invalid),
{
    let len = bytes.len();
    if len < 6 {
        return Err(Error::Truncated("ICO/CUR header"));
    }
    if read_le16(bytes, 0) != 0 {
        return Err(Error::Signature("ICO/CUR"));
    }
    let k = read_le16(bytes, 2);
    let kind = if k == 1 {
        IconKind::Icon
    } else if k == 2 {
        IconKind::Cursor
    } else {
        return Err(Error::Signature("ICO/CUR"));
    };
    if kind != expected {
        return Err(Error::Signature(if expected == IconKind::Icon { "ICO" } else { "CUR" }));
    }
    let count = read_le16(bytes, 4) as usize;
    if count == 0 || count > max_members as usize {
        return Err(Error::Limit("ICO/CUR member count"));
    }
    let directory_end = 6 + count * 16;
    if directory_end > len {
        return Err(Error::Truncated("ICO/CUR directory"));
    }
    let mut members: Vec<IconMember> = Vec::new();
    let mut index: usize = 0;
    while index < count
        invariant
            index <= count,
            count <= 65535,
            directory_end == 6 + count * 16,
            directory_end <= len,
            len == bytes@.len(),
            members@.len() == index,
            disjoint(members@),
            forall|i: int|
                0 <= i < members@.len() ==> {
                    &&& directory_end <= #[trigger] members@[i].offset
                    &&& members@[i].size >= 1
                    &&& members@[i].offset + members@[i].size <= len
                    &&& members@[i].offset == le32(bytes@, 6 + 16 * i + 12)
                    &&& members@[i].size == le32(bytes@, 6 + 16 * i + 8)
                    &&& members@[i].width == entry_dimension(bytes@[6 + 16 * i])
                    &&& members@[i].height == entry_dimension(bytes@[6 + 16 * i + 1])
                    &&& members@[i].png == (members@[i].size >= 8 && bytes@.subrange(
                        members@[i].offset as int,
                        members@[i].offset + 8,
                    ) == png_signature())
                },
            count == le16(bytes@, 4),
            len >= 6,
            le16(bytes@, 0) == 0,
            le16(bytes@, 2) == (if expected == IconKind::Icon { 1int } else { 2int }),
            1 <= count <= max_members,
            member_refusal(bytes@, count as int, 0) == member_refusal(bytes@, count as int, index as int),
        decreases count - index,
    {
        let e = 6 + index * 16;
        let width: u32 = if bytes[e] == 0 { 256 } else { bytes[e] as u32 };
        let height: u32 = if bytes[e + 1] == 0 { 256 } else { bytes[e + 1] as u32 };
        let size = read_le32(bytes, e + 8) as usize;
        let offset = read_le32(bytes, e + 12) as usize;
        assert(offset == entry_offset(bytes@, index as int) && size == entry_size(bytes@, index as int));
        if size == 0 || offset < directory_end {
            return Err(Error::Invalid("ICO/CUR member range"));
        }
        if offset > len || size > len - offset {
            return Err(Error::Truncated("ICO/CUR member payload"));
        }
        let end = offset + size;
        let mut j: usize = 0;
        while j < members.len()
            invariant
                j <= members@.len(),
                len == bytes@.len(),
                forall|i: int| 0 <= i < members@.len() ==> #[trigger] members@[i].offset + members@[i].size <= len,
                forall|i: int| 0 <= i < j ==> members@[i].offset + members@[i].size <= offset || end <= #[trigger] members@[i].offset,
                forall|i: int|
                    0 <= i < members@.len() ==> #[trigger] members@[i].offset == entry_offset(bytes@, i)
                        && members@[i].size == entry_size(bytes@, i),
                members@.len() == index,
                index < count,
                count == le16(bytes@, 4),
                offset == entry_offset(bytes@, index as int),
                size == entry_size(bytes@, index as int),
                end == offset + size,
                len >= 6,
                le16(bytes@, 0) == 0,
                le16(bytes@, 2) == (if expected == IconKind::Icon { 1int } else { 2int }),
                1 <= count <= max_members,
                6 + 16 * count <= len,
                size != 0 && offset >= 6 + 16 * count && offset <= len && size <= len - offset,
                member_refusal(bytes@, count as int, 0) == member_refusal(bytes@, count as int, index as int),
            decreases members@.len() - j,
        {
            let other = members[j];
            if offset < other.offset + other.size && other.offset < end {
                assert(!(entry_offset(bytes@, j as int) + entry_size(bytes@, j as int) <= entry_offset(bytes@, index as int)
                    || entry_offset(bytes@, index as int) + entry_size(bytes@, index as int) <= entry_offset(bytes@, j as int)));
                assert(offset < entry_offset(bytes@, j as int) + entry_size(bytes@, j as int) && entry_offset(
                    bytes@,
                    j as int,
                ) < offset + size);
                return Err(Error::Invalid("overlapping ICO/CUR member ranges"));
            }
            j = j + 1;
        }
        assert(entry_refusal(bytes@, count as int, index as int) is None) by {
            assert forall|j2: int| 0 <= j2 < index implies !(offset < entry_offset(bytes@, j2) + entry_size(bytes@, j2)
                && #[trigger] entry_offset(bytes@, j2) < offset + size) by {
                assert(members@[j2].offset == entry_offset(bytes@, j2));
            }
        }
        let png = starts_png(bytes, offset, size);
        let m = IconMember {
            width,
            height,
            planes_or_hotspot_x: read_le16(bytes, e + 4),
            bit_count_or_hotspot_y: read_le16(bytes, e + 6),
            offset,
            size,
            png,
        };
        let ghost before = members@;
        assert(m.width == entry_dimension(bytes@[6 + 16 * index]));
        assert(m.height == entry_dimension(bytes@[6 + 16 * index + 1]));
        members.push(m);
        assert forall|i: int| 0 <= i < before.len() implies #[trigger] members@[i] == before[i] by {}
        proof {
            assert forall|a: int, b: int| 0 <= a < b < members@.len() implies #[trigger] members@[a].offset + members@[a].size <= members@[b].offset || #[trigger] members@[b].offset + members@[b].size <= members@[a].offset by {
                if b < before.len() {
                    assert(members@[a] == before[a] && members@[b] == before[b]);
                }
            }
        }
        index = index + 1;
    }
    assert(members@.len() == count);
    assert forall|i: int| 0 <= i < members@.len() implies {
        &&& 6 + 16 * members@.len() <= #[trigger] members@[i].offset
        &&& members@[i].size >= 1
        &&& members@[i].offset + members@[i].size <= bytes@.len()
        &&& members@[i].offset == le32(bytes@, 6 + 16 * i + 12)
        &&& members@[i].size == le32(bytes@, 6 + 16 * i + 8)
        &&& members@[i].width == entry_dimension(bytes@[6 + 16 * i])
        &&& members@[i].height == entry_dimension(bytes@[6 + 16 * i + 1])
        &&& members@[i].png == (members@[i].size >= 8 && bytes@.subrange(
            members@[i].offset as int,
            members@[i].offset + 8,
        ) == png_signature())
    } by {
        assert(directory_end <= members@[i].offset);
    }
    assert(directory_ok(bytes@, expected, max_members, members@));
    assert forall|i: int| 0 <= i < le16(bytes@, 4) implies #[trigger] entry_size(bytes@, i) >= 1 by {
        assert(directory_end <= members@[i].offset);
        assert(members@[i].size == entry_size(bytes@, i));
        assert(members@[i].size >= 1);
    }
    assert(directory_valid(bytes@, expected, max_members)) by {
        assert(count == le16(bytes@, 4));
        assert forall|i: int| 0 <= i < le16(bytes@, 4) implies {
            &&& entry_size(bytes@, i) >= 1
            &&& 6 + 16 * le16(bytes@, 4) <= #[trigger] entry_offset(bytes@, i)
            &&& entry_offset(bytes@, i) + entry_size(bytes@, i) <= bytes@.len()
        } by {
            assert(members@[i].offset == entry_offset(bytes@, i) && members@[i].size == entry_size(bytes@, i));
            assert(directory_end <= members@[i].offset);
            assert(members@[i].size >= 1);
            assert(members@[i].offset + members@[i].size <= bytes@.len());
        }
        assert forall|i: int, j: int| 0 <= i < j < le16(bytes@, 4) implies #[trigger] entry_offset(bytes@, i) + entry_size(bytes@, i)
            <= entry_offset(bytes@, j) || #[trigger] entry_offset(bytes@, j) + entry_size(bytes@, j) <= entry_offset(
            bytes@,
            i,
        ) by {
            assert(directory_end <= members@[i].offset);
            assert(directory_end <= members@[j].offset);
            assert(members@[i].offset == entry_offset(bytes@, i) && members@[i].size == entry_size(bytes@, i));
            assert(members@[j].offset == entry_offset(bytes@, j) && members@[j].size == entry_size(bytes@, j));
            assert(disjoint(members@));
            assert(members@[i].offset + members@[i].size <= members@[j].offset || members@[j].offset
                + members@[j].size <= members@[i].offset);
        }
    }
    Ok(members)
}

/// The ranking key of a member: its area, then its depth (PNG members rank
/// as 65535).
pub open spec fn rank(m: IconMember) -> (int, int) {
    (m.width * m.height, if m.png { 65535int } else { m.bit_count_or_hotspot_y as int })
}

pub open spec fn rank_le(a: (int, int), b: (int, int)) -> bool {
    a.0 < b.0 || (a.0 == b.0 && a.1 <= b.1)
}

/// The index of the best member: the greatest rank, the last among equals.
pub fn select_best(members: &Vec<IconMember>) -> (r: Result<usize, Error>)
    ensures
        r is Ok <==> members@.len() > 0,
        r matches Ok(k) ==> k < members@.len() && (forall|i: int|
            0 <= i < members@.len() ==> rank_le(rank(#[trigger] members@[i]), rank(members@[k as int])))
            && (forall|i: int| k < i < members@.len() ==> !rank_le(rank(members@[k as int]), rank(#[trigger] members@[i]))),
{
    if members.len() == 0 {
        return Err(Error::Invalid("empty ICO/CUR member set"));
    }
    let mut best: usize = 0;
    let mut i: usize = 1;
    while i < members.len()
        invariant
            1 <= i <= members@.len(),
            best < i,
            forall|j: int| 0 <= j < i ==> rank_le(rank(#[trigger] members@[j]), rank(members@[best as int])),
            forall|j: int| best < j < i ==> !rank_le(rank(members@[best as int]), rank(#[trigger] members@[j])),
        decreases members@.len() - i,
    {
        let m = members[i];
        let b = members[best];
        assert(m.width as int * m.height as int <= 0xFFFF_FFFF * 0xFFFF_FFFF && b.width as int * b.height as int <= 0xFFFF_FFFF * 0xFFFF_FFFF) by (nonlinear_arith)
            requires
                m.width <= 0xFFFF_FFFF,
                m.height <= 0xFFFF_FFFF,
                b.width <= 0xFFFF_FFFF,
                b.height <= 0xFFFF_FFFF,
        ;
        let area_m = m.width as u64 * m.height as u64;
        let area_b = b.width as u64 * b.height as u64;
        let depth_m: u64 = if m.png { 65535 } else { m.bit_count_or_hotspot_y as u64 };
        let depth_b: u64 = if b.png { 65535 } else { b.bit_count_or_hotspot_y as u64 };
        if area_b < area_m || (area_b == area_m && depth_b <= depth_m) {
            best = i;
        }
        i = i + 1;
    }
    Ok(best)
}

/// The ICO/CUR file holding one PNG member.
pub open spec fn icon_file(png: Seq<u8>, width: u32, height: u32, kind: IconKind, hx: u16, hy: u16) -> Seq<u8> {
    le16_bytes(0) + le16_bytes(if kind == IconKind::Icon { 1 } else { 2 }) + le16_bytes(1) + seq![
        if width == 256 { 0u8 } else { width as u8 },
        if height == 256 { 0u8 } else { height as u8 },
        0u8,
        0u8,
    ] + (if kind == IconKind::Icon {
        le16_bytes(1) + le16_bytes(32)
    } else {
        le16_bytes(hx as int) + le16_bytes(hy as int)
    }) + le32_bytes(png.len() as int) + le32_bytes(22) + png
}

/// A single-member ICO/CUR file around an encoded PNG.
pub fn encode_icon(png: &[u8], width: u32, height: u32, kind: IconKind, hotspot_x: u16, hotspot_y: u16) -> (r: Result<Vec<u8>, Error>)
    ensures
        r is Ok <==> (png@.len() <= u32::MAX && 1 <= width <= 256 && 1 <= height <= 256 && (kind
            == IconKind::Cursor ==> hotspot_x < width && hotspot_y < height)),
        r matches Ok(out) ==> out@ == icon_file(png@, width, height, kind, hotspot_x, hotspot_y),
{
    if png.len() > 0xffff_ffff || width == 0 || height == 0 || width > 256 || height > 256 {
        return Err(Error::Limit("ICO/CUR PNG member dimensions or size"));
    }
    if kind == IconKind::Cursor && (hotspot_x as u32 >= width || hotspot_y as u32 >= height) {
        return Err(Error::Invalid("CUR hotspot outside image"));
    }
    let mut out: Vec<u8> = Vec::new();
    push_le16(&mut out, 0);
    push_le16(&mut out, if kind == IconKind::Icon { 1 } else { 2 });
    push_le16(&mut out, 1);
    out.push(if width == 256 { 0u8 } else { width as u8 });
    out.push(if height == 256 { 0u8 } else { height as u8 });
    out.push(0u8);
    out.push(0u8);
    if kind == IconKind::Icon {
        push_le16(&mut out, 1);
        push_le16(&mut out, 32);
    } else {
        push_le16(&mut out, hotspot_x);
        push_le16(&mut out, hotspot_y);
    }
    push_le32(&mut out, png.len() as u32);
    push_le32(&mut out, 22);
    crate::bytes::push_range(&mut out, png, 0, png.len());
    assert(png@.subrange(0, png@.len() as int) =~= png@);
    assert(out@ =~= icon_file(png@, width, height, kind, hotspot_x, hotspot_y));
    Ok(out)
}

/// The signed little-endian 32-bit field at `i`.
pub open spec fn le_i32(b: Seq<u8>, i: int) -> int {
    if le32(b, i) >= 0x8000_0000 { le32(b, i) - 0x1_0000_0000 } else { le32(b, i) }
}

fn read_i32(b: &[u8], i: usize) -> (r: i32)
    requires
        i + 4 <= b@.len(),
    ensures
        r as int == le_i32(b@, i as int),
{
    let v = read_le32(b, i);
    if v >= 0x8000_0000 {
        (v as i64 - 0x1_0000_0000i64) as i32
    } else {
        v as i32
    }
}

/// The opaque pixel of the BGRX palette entry at `at`.
pub open spec fn bgrx_entry(b: Seq<u8>, at: int) -> Pixel {
    Pixel { r: b[at + 2], g: b[at + 1], b: b[at], a: 255 }
}

/// `entries` BGRX palette entries at `start`, as opaque pixels.
fn dib_palette(payload: &[u8], start: usize, entries: usize) -> (r: Result<Vec<Pixel>, Error>)
    requires
        entries <= 256,
    ensures
        r is Ok <==> start + 4 * entries <= payload@.len(),
        r matches Ok(p) ==> p@.len() == entries && start + 4 * entries <= payload@.len(),
        r matches Ok(p) ==> forall|k: int|
            0 <= k < entries ==> #[trigger] p@[k] == bgrx_entry(payload@, start + 4 * k),
{
    let len = payload.len();
    if start > len || 4 * entries > len - start {
        return Err(Error::Truncated("ICO DIB palette"));
    }
    let mut p: Vec<Pixel> = Vec::new();
    let mut k: usize = 0;
    while k < entries
        invariant
            k <= entries,
            entries <= 256,
            start + 4 * entries <= len,
            len == payload@.len(),
            p@.len() == k,
            forall|j: int| 0 <= j < k ==> #[trigger] p@[j] == bgrx_entry(payload@, start + 4 * j),
        decreases entries - k,
    {
        let at = start + 4 * k;
        p.push(Pixel { r: payload[at + 2], g: payload[at + 1], b: payload[at], a: 255 });
        k = k + 1;
    }
    Ok(p)
}

/// Pixel `x` of a row at `row` packed at `bit_count` bits per pixel, most
/// significant bits first; zero at depths without a palette.
pub open spec fn packed_value(b: Seq<u8>, row: int, x: int, bit_count: u16) -> int {
    if bit_count == 1 {
        (((b[row + x / 8] as nat) / crate::extended::two_pow((7 - x % 8) as nat)) % 2) as int
    } else if bit_count == 4 {
        if x % 2 == 0 {
            b[row + x / 2] as int / 16
        } else {
            b[row + x / 2] as int % 16
        }
    } else if bit_count == 8 {
        b[row + x] as int
    } else {
        0
    }
}

/// The palette index of pixel `x` in a packed row starting at `row`.
fn packed_index(b: &[u8], row: usize, row_len: usize, x: usize, bit_count: u16) -> (v: u8)
    requires
        row + row_len <= b@.len(),
        bit_count == 1 ==> x / 8 < row_len,
        bit_count == 4 ==> x / 2 < row_len,
        bit_count == 8 ==> x < row_len,
    ensures
        v == packed_value(b@, row as int, x as int, bit_count),
{
    let _n = b.len();
    if bit_count == 1 {
        let d = crate::png_codec::pow2_small((7 - x % 8) as u32);
        proof {
            crate::extended::lemma_two_pow_pos((7 - x % 8) as nat);
        }
        ((b[row + x / 8] as u32 / d) % 2) as u8
    } else if bit_count == 4 {
        if x % 2 == 0 {
            b[row + x / 2] / 16
        } else {
            b[row + x / 2] % 16
        }
    } else if bit_count == 8 {
        b[row + x]
    } else {
        0
    }
}

/// Decodes an uncompressed DIB icon member (XOR bitmap plus AND mask).
/// The palette index of pixel `x` of stored row `s` of a packed bitmap at
/// `offset` with rows of `row` bytes.
pub open spec fn row_index(b: Seq<u8>, offset: int, row: int, s: int, x: int, bit_count: u16) -> int {
    packed_value(b, offset + s * row, x, bit_count)
}

/// The palette entries a DIB of `bit_count` bits declares, `declared` being
/// its colours-used field.
pub open spec fn dib_entries(bit_count: int, declared: int) -> int {
    if bit_count <= 8 {
        if declared == 0 {
            if bit_count == 1 {
                2
            } else if bit_count == 4 {
                16
            } else {
                256
            }
        } else {
            declared
        }
    } else {
        0
    }
}

/// Whether an ICO member's DIB decodes: a header of at least 40 bytes,
/// positive width, a non-zero even stored height (XOR bitmap and AND mask),
/// at most `max_pixels` pixels, one plane, 1/4/8/24/32 bits uncompressed, a
/// palette of at most 256 entries, both bitmaps inside the payload, and
/// every palette index within the palette.
pub open spec fn dib_accepts(b: Seq<u8>, max_pixels: int) -> bool {
    let len = b.len() as int;
    let hs = le32(b, 0);
    let sh = le_i32(b, 8);
    let ah = if sh < 0 {
        -sh
    } else {
        sh
    };
    let w = le_i32(b, 4);
    let h = ah / 2;
    let bc = le16(b, 14);
    let entries = dib_entries(bc, le32(b, 32));
    let xo = hs + 4 * entries;
    let xr = (w * bc + 31) / 32 * 4;
    let mr = (w + 31) / 32 * 4;
    &&& len >= 4
    &&& 40 <= hs <= len
    &&& w > 0 && sh != 0 && sh != i32::MIN && ah % 2 == 0
    &&& 1 <= h && w * h <= max_pixels && w * h <= usize::MAX
    &&& le16(b, 12) == 1
    &&& (bc == 1 || bc == 4 || bc == 8 || bc == 24 || bc == 32)
    &&& le32(b, 16) == 0
    &&& entries <= 256
    &&& xo <= len
    &&& xr * h <= u64::MAX
    &&& xr * h <= len - xo
    &&& mr * h <= len - (xo + xr * h)
    &&& bc <= 8 ==> forall|s: int, x: int|
        0 <= s < h && 0 <= x < w ==> #[trigger] row_index(b, xo, xr, s, x, bc as u16) < entries
}

/// The colour, before the AND mask, of column `x` of the stored row at `at`
/// of a DIB's XOR bitmap: a palette entry (the palette starting after the
/// `le32(b, 0)`-byte header), or a stored BGR / BGRA sample.
pub open spec fn dib_color(b: Seq<u8>, at: int, x: int, bc: int) -> Pixel {
    if bc <= 8 {
        bgrx_entry(b, le32(b, 0) + 4 * packed_value(b, at, x, bc as u16))
    } else if bc == 24 {
        Pixel { r: b[at + 3 * x + 2], g: b[at + 3 * x + 1], b: b[at + 3 * x], a: 255 }
    } else {
        Pixel { r: b[at + 4 * x + 2], g: b[at + 4 * x + 1], b: b[at + 4 * x], a: b[at + 4 * x + 3] }
    }
}

/// Whether the AND-mask row at `at` marks column `x` transparent.
pub open spec fn dib_masked(b: Seq<u8>, at: int, x: int) -> bool {
    (b[at + x / 8] as int / crate::extended::two_pow((7 - x % 8) as nat) as int) % 2 != 0
}

/// The colour `c` with its alpha set: from the mask `m` alone when
/// `from_mask`, else cleared where the mask is set and kept elsewhere.
pub open spec fn masked_alpha(c: Pixel, m: bool, from_mask: bool) -> Pixel {
    let a: u8 = if from_mask {
        if m { 0 } else { 255 }
    } else if m {
        0
    } else {
        c.a
    };
    Pixel { r: c.r, g: c.g, b: c.b, a }
}

/// Whether a 32-bit XOR bitmap of `size` bytes at `xo` has a non-zero alpha
/// byte in one of its whole four-byte samples.
pub open spec fn dib_any_alpha(b: Seq<u8>, xo: int, size: int) -> bool {
    exists|j: int| 0 <= j && 4 * j + 4 <= size && #[trigger] b[xo + 4 * j + 3] != 0
}

/// Pixel `x` of row `y` (from the top) of an accepted DIB `b`: its colour,
/// with alpha from the AND mask, except that a 32-bit DIB with some non-zero
/// alpha byte keeps its own alpha where the mask is clear.
pub open spec fn dib_pixel(b: Seq<u8>, y: int, x: int) -> Pixel {
    let hs = le32(b, 0);
    let sh = le_i32(b, 8);
    let w = le_i32(b, 4);
    let h = (if sh < 0 { -sh } else { sh }) / 2;
    let bc = le16(b, 14);
    let xo = hs + 4 * dib_entries(bc, le32(b, 32));
    let xr = (w * bc + 31) / 32 * 4;
    let mr = (w + 31) / 32 * 4;
    let mo = xo + xr * h;
    let s = if sh < 0 { y } else { h - 1 - y };
    masked_alpha(
        dib_color(b, xo + s * xr, x, bc),
        dib_masked(b, mo + s * mr, x),
        bc != 32 || !dib_any_alpha(b, xo, xr * h),
    )
}

/// Decodes column `x` of the stored row at `xrow` of the XOR bitmap, with
/// the AND-mask row at `mrow`.
fn dib_sample(
    payload: &[u8],
    palette: &Vec<Pixel>,
    xrow: usize,
    xor_row: usize,
    mrow: usize,
    mask_row: usize,
    x: usize,
    bit_count: u16,
    from_mask: bool,
) -> (r: Result<Pixel, Error>)
    requires
        xrow + xor_row <= payload@.len(),
        mrow + mask_row <= payload@.len(),
        bit_count == 1 ==> x / 8 < xor_row,
        bit_count == 4 ==> x / 2 < xor_row,
        bit_count == 8 ==> x < xor_row,
        bit_count == 24 ==> 3 * x + 3 <= xor_row,
        bit_count == 32 ==> 4 * x + 4 <= xor_row,
        x / 8 < mask_row,
        bit_count == 1 || bit_count == 4 || bit_count == 8 || bit_count == 24 || bit_count == 32,
        forall|k: int| 0 <= k < palette@.len() ==> #[trigger] palette@[k] == bgrx_entry(payload@, le32(payload@, 0) + 4 * k),
    ensures
        r is Err <==> bit_count <= 8 && packed_value(payload@, xrow as int, x as int, bit_count) >= palette@.len(),
        r matches Err(e) ==> e == Error::Invalid("ICO DIB palette index"),
        r matches Ok(p) ==> p == masked_alpha(
            dib_color(payload@, xrow as int, x as int, bit_count as int),
            dib_masked(payload@, mrow as int, x as int),
            from_mask,
        ),
{
    let _n = payload.len();
    let mut pixel = if bit_count <= 8 {
        let index = packed_index(payload, xrow, xor_row, x, bit_count) as usize;
        if index >= palette.len() {
            return Err(Error::Invalid("ICO DIB palette index"));
        }
        palette[index]
    } else if bit_count == 24 {
        assert(xrow + x * 3 + 3 <= payload@.len());
        let base = xrow + x * 3;
        Pixel { r: payload[base + 2], g: payload[base + 1], b: payload[base], a: 255 }
    } else {
        assert(xrow + x * 4 + 4 <= payload@.len());
        let base = xrow + x * 4;
        Pixel { r: payload[base + 2], g: payload[base + 1], b: payload[base], a: payload[base + 3] }
    };
    let d = crate::png_codec::pow2_small((7 - x % 8) as u32);
    proof {
        crate::extended::lemma_two_pow_pos((7 - x % 8) as nat);
    }
    let masked = (payload[mrow + x / 8] as u32 / d) % 2 != 0;
    if from_mask {
        pixel.a = if masked { 0 } else { 255 };
    } else if masked {
        pixel.a = 0;
    }
    Ok(pixel)
}

/// Whether a 32-bit XOR bitmap of `xor_size` bytes at `xor_offset` has a
/// non-zero alpha byte in one of its whole samples.
fn dib_alpha_scan(payload: &[u8], xor_offset: usize, xor_size: usize) -> (r: bool)
    requires
        xor_offset + xor_size <= payload@.len(),
    ensures
        r == dib_any_alpha(payload@, xor_offset as int, xor_size as int),
{
    let len = payload.len();
    let mut any_alpha = false;
    let mut k: usize = 0;
    while k <= xor_size && xor_size - k >= 4
        invariant
            xor_offset + xor_size <= len,
            len == payload@.len(),
            k % 4 == 0,
            k <= xor_size,
            any_alpha <==> exists|j: int| 0 <= j && 4 * j < k && #[trigger] payload@[xor_offset + 4 * j + 3] != 0,
        decreases xor_size - k,
    {
        if payload[xor_offset + k + 3] != 0 {
            any_alpha = true;
            assert(payload@[xor_offset + 4 * (k as int / 4) + 3] != 0);
        }
        k = k + 4;
    }
    proof {
        if dib_any_alpha(payload@, xor_offset as int, xor_size as int) {
            let j = choose|j: int| 0 <= j && 4 * j + 4 <= xor_size && #[trigger] payload@[xor_offset + 4 * j + 3] != 0;
            assert(4 * j < k);
        }
        if any_alpha {
            let j = choose|j: int| 0 <= j && 4 * j < k && #[trigger] payload@[xor_offset + 4 * j + 3] != 0;
            assert(4 * j + 4 <= xor_size);
        }
    }
    any_alpha
}

/// Appends the `w` pixels of the stored row whose XOR bitmap starts at
/// `xrow` and whose AND mask starts at `mrow`.
fn decode_dib_row(
    payload: &[u8],
    palette: &Vec<Pixel>,
    pixels: &mut Vec<Pixel>,
    xrow: usize,
    xor_row: usize,
    mrow: usize,
    mask_row: usize,
    w: usize,
    bit_count: u16,
    from_mask: bool,
) -> (r: Result<(), Error>)
    requires
        xrow + xor_row <= payload@.len(),
        mrow + mask_row <= payload@.len(),
        xor_row * 8 >= w * bit_count,
        mask_row * 8 >= w,
        bit_count == 1 || bit_count == 4 || bit_count == 8 || bit_count == 24 || bit_count == 32,
        forall|k: int| 0 <= k < palette@.len() ==> #[trigger] palette@[k] == bgrx_entry(payload@, le32(payload@, 0) + 4 * k),
    ensures
        r is Err <==> bit_count <= 8 && exists|x: int|
            0 <= x < w && #[trigger] packed_value(payload@, xrow as int, x, bit_count) >= palette@.len(),
        r matches Err(e) ==> e == Error::Invalid("ICO DIB palette index"),
        r is Ok ==> final(pixels)@.len() == old(pixels)@.len() + w,
        r is Ok ==> forall|i: int| 0 <= i < old(pixels)@.len() ==> #[trigger] final(pixels)@[i] == old(pixels)@[i],
        r is Ok ==> forall|x: int|
            0 <= x < w ==> final(pixels)@[old(pixels)@.len() + x] == masked_alpha(
                #[trigger] dib_color(payload@, xrow as int, x, bit_count as int),
                dib_masked(payload@, mrow as int, x),
                from_mask,
            ),
{
    let ghost start = pixels@;
    let mut x: usize = 0;
    while x < w
        invariant
            x <= w,
            pixels@.len() == start.len() + x,
            xrow + xor_row <= payload@.len(),
            mrow + mask_row <= payload@.len(),
            xor_row * 8 >= w * bit_count,
            mask_row * 8 >= w,
            bit_count == 1 || bit_count == 4 || bit_count == 8 || bit_count == 24 || bit_count == 32,
            forall|k: int| 0 <= k < palette@.len() ==> #[trigger] palette@[k] == bgrx_entry(payload@, le32(payload@, 0) + 4 * k),
            forall|i: int| 0 <= i < start.len() ==> #[trigger] pixels@[i] == start[i],
            forall|x2: int|
                0 <= x2 < x ==> pixels@[start.len() + x2] == masked_alpha(
                    #[trigger] dib_color(payload@, xrow as int, x2, bit_count as int),
                    dib_masked(payload@, mrow as int, x2),
                    from_mask,
                ),
            bit_count <= 8 ==> forall|x2: int|
                0 <= x2 < x ==> #[trigger] packed_value(payload@, xrow as int, x2, bit_count) < palette@.len(),
        decreases w - x,
    {
        assert(x / 8 < mask_row) by (nonlinear_arith)
            requires
                x < w,
                mask_row * 8 >= w,
        ;
        assert(bit_count == 1 ==> x / 8 < xor_row) by (nonlinear_arith)
            requires
                x < w,
                xor_row * 8 >= w * bit_count,
        ;
        assert(bit_count == 4 ==> x / 2 < xor_row) by (nonlinear_arith)
            requires
                x < w,
                xor_row * 8 >= w * bit_count,
        ;
        assert(bit_count == 8 ==> x < xor_row) by (nonlinear_arith)
            requires
                x < w,
                xor_row * 8 >= w * bit_count,
        ;
        assert(bit_count == 24 ==> 3 * x + 3 <= xor_row) by (nonlinear_arith)
            requires
                x < w,
                xor_row * 8 >= w * bit_count,
        ;
        assert(bit_count == 32 ==> 4 * x + 4 <= xor_row) by (nonlinear_arith)
            requires
                x < w,
                xor_row * 8 >= w * bit_count,
        ;
        let pixel = match dib_sample(payload, palette, xrow, xor_row, mrow, mask_row, x, bit_count, from_mask) {
            Ok(p) => p,
            Err(e) => return Err(e),
        };
        let ghost before = pixels@;
        pixels.push(pixel);
        assert forall|i: int| 0 <= i < start.len() implies #[trigger] pixels@[i] == start[i] by {
            assert(pixels@[i] == before[i]);
        }
        assert forall|x2: int| 0 <= x2 < x + 1 implies pixels@[start.len() + x2] == masked_alpha(
            #[trigger] dib_color(payload@, xrow as int, x2, bit_count as int),
            dib_masked(payload@, mrow as int, x2),
            from_mask,
        ) by {
            if x2 < x {
                assert(pixels@[start.len() + x2] == before[start.len() + x2]);
            }
        }
        x = x + 1;
    }
    Ok(())
}

#[verifier::spinoff_prover]
pub fn decode_dib(payload: &[u8], max_pixels: u64) -> (r: Result<Image, Error>)
    ensures
        r is Ok <==> dib_accepts(payload@, max_pixels as int),
        r matches Ok(img) ==> {
            &&& payload@.len() >= 40
            &&& img.width == le_i32(payload@, 4)
            &&& 2 * img.height == (if le_i32(payload@, 8) < 0 { -le_i32(payload@, 8) } else { le_i32(payload@, 8) })
            &&& img.pixels@.len() == img.width * img.height
            &&& img.width * img.height <= max_pixels
            &&& forall|y: int, x: int|
                0 <= y < img.height && 0 <= x < img.width ==> img.pixels@[y * img.width + x]
                    == #[trigger] dib_pixel(payload@, y, x)
        },
{
    let len = payload.len();
    if len < 4 {
        return Err(Error::Truncated("ICO DIB header size"));
    }
    let header_size = read_le32(payload, 0) as usize;
    if header_size < 40 {
        return Err(Error::Unsupported("ICO DIB header smaller than BITMAPINFOHEADER"));
    }
    if header_size > len {
        return Err(Error::Truncated("ICO DIB header"));
    }
    let width_raw = read_i32(payload, 4);
    let stored_height = read_i32(payload, 8);
    if width_raw <= 0 || stored_height == 0 || stored_height == i32::MIN {
        return Err(Error::Invalid("ICO DIB dimensions"));
    }
    let top_down = stored_height < 0;
    let absolute_height: u32 = if stored_height < 0 {
        (-(stored_height as i64)) as u32
    } else {
        stored_height as u32
    };
    if absolute_height % 2 != 0 {
        return Err(Error::Invalid("ICO DIB doubled height"));
    }
    let width = width_raw as u32;
    let height = absolute_height / 2;
    let count = match checked_pixels(width, height, max_pixels) {
        Ok(c) => c,
        Err(e) => return Err(e),
    };
    if read_le16(payload, 12) != 1 {
        return Err(Error::Invalid("ICO DIB planes"));
    }
    let bit_count = read_le16(payload, 14);
    if !(bit_count == 1 || bit_count == 4 || bit_count == 8 || bit_count == 24 || bit_count == 32) {
        return Err(Error::Unsupported("ICO DIB bit depth"));
    }
    if read_le32(payload, 16) != 0 {
        return Err(Error::Unsupported("compressed ICO DIB"));
    }
    let palette_entries: usize = if bit_count <= 8 {
        let declared = read_le32(payload, 32) as usize;
        if declared == 0 {
            if bit_count == 1 { 2 } else if bit_count == 4 { 16 } else { 256 }
        } else {
            declared
        }
    } else {
        0
    };
    if palette_entries > 256 {
        return Err(Error::Invalid("ICO DIB palette length"));
    }
    let palette = match dib_palette(payload, header_size, palette_entries) {
        Ok(p) => p,
        Err(e) => return Err(e),
    };
    let xor_offset = header_size + palette_entries * 4;
    let w = width as usize;
    let h = height as usize;
    assert(w as int * bit_count as int <= 0x7FFF_FFFF * 32) by (nonlinear_arith)
        requires
            w <= 0x7FFF_FFFF,
            bit_count <= 32,
    ;
    let xor_row64 = ((w as u64 * bit_count as u64 + 31) / 32) * 4;
    let mask_row64 = ((w as u64 + 31) / 32) * 4;
    proof {
        if xor_row64 != 0 {
            crate::png_to_qoi::bmp::lemma_div_bound(h as int, u64::MAX as int, xor_row64 as int);
        }
        assert(h as int * xor_row64 as int == xor_row64 as int * h as int) by (nonlinear_arith);
    }
    if xor_row64 != 0 && h as u64 > u64::MAX / xor_row64 {
        return Err(Error::Overflow("ICO DIB XOR bitmap"));
    }
    assert(xor_row64 as int * h as int <= u64::MAX) by (nonlinear_arith)
        requires
            xor_row64 == 0 || h as int <= u64::MAX as int / xor_row64 as int,
    ;
    let xor_size64 = xor_row64 * h as u64;
    if xor_offset as u64 > len as u64 || xor_size64 > (len - xor_offset) as u64 {
        return Err(Error::Truncated("ICO DIB XOR bitmap"));
    }
    let xor_size = xor_size64 as usize;
    assert(xor_row64 <= xor_size64) by (nonlinear_arith)
        requires
            xor_size64 == xor_row64 * h,
            h >= 1,
    ;
    let xor_row = xor_row64 as usize;
    assert(xor_row as int * h as int == xor_size as int);
    assert(mask_row64 as int * h as int <= 0x1000_0000 * 0x8000_0000) by (nonlinear_arith)
        requires
            mask_row64 <= 0x1000_0000,
            h <= 0x8000_0000,
    ;
    let mask_size64 = mask_row64 * h as u64;
    let mask_offset = xor_offset + xor_size;
    if mask_size64 > (len - mask_offset) as u64 {
        return Err(Error::Truncated("ICO DIB AND mask"));
    }
    assert(mask_row64 <= mask_size64) by (nonlinear_arith)
        requires
            mask_size64 == mask_row64 * h,
            h >= 1,
    ;
    let mask_row = mask_row64 as usize;
    assert(mask_row as int * h as int == mask_size64 as int);
    assert(xor_row * 8 >= w * bit_count) by {
        vstd::arithmetic::div_mod::lemma_fundamental_div_mod(w as int * bit_count as int + 31, 32);
    }
    assert(mask_row * 8 >= w) by {
        vstd::arithmetic::div_mod::lemma_fundamental_div_mod(w as int + 31, 32);
    }
    let any_alpha = if bit_count == 32 {
        dib_alpha_scan(payload, xor_offset, xor_size)
    } else {
        false
    };
    assert(bit_count == 32 ==> (any_alpha == dib_any_alpha(payload@, xor_offset as int, xor_size as int)));
    let mut pixels: Vec<Pixel> = Vec::new();
    let mut y: usize = 0;
    let ghost entries = palette_entries as int;
    assert(palette_entries as int == dib_entries(le16(payload@, 14), le32(payload@, 32)));
    assert(xor_offset as int == le32(payload@, 0) + 4 * dib_entries(le16(payload@, 14), le32(payload@, 32)));
    assert(xor_row as int == (le_i32(payload@, 4) * le16(payload@, 14) + 31) / 32 * 4);
    assert(h as int == (if le_i32(payload@, 8) < 0 { -le_i32(payload@, 8) } else { le_i32(payload@, 8) }) / 2);
    assert(w as int == le_i32(payload@, 4));
    assert(bit_count == le16(payload@, 14));
    assert(le16(payload@, 14) as u16 == bit_count);
    proof {
        if dib_accepts(payload@, max_pixels as int) && bit_count <= 8 {
            assert forall|s: int, x: int| 0 <= s < h && 0 <= x < w implies #[trigger] row_index(
                payload@,
                xor_offset as int,
                xor_row as int,
                s,
                x,
                bit_count,
            ) < entries by {
                assert(row_index(
                    payload@,
                    le32(payload@, 0) + 4 * dib_entries(le16(payload@, 14), le32(payload@, 32)),
                    (le_i32(payload@, 4) * le16(payload@, 14) + 31) / 32 * 4,
                    s,
                    x,
                    le16(payload@, 14) as u16,
                ) < dib_entries(le16(payload@, 14), le32(payload@, 32)));
            }
        }
    }
    while y < h
        invariant
            y <= h,
            pixels@.len() == y * w,
            palette@.len() == entries,
            bit_count <= 8 ==> forall|s: int, x: int|
                0 <= s < h && 0 <= x < w && (if top_down { s < y } else { s >= h - y }) ==> #[trigger] row_index(
                    payload@,
                    xor_offset as int,
                    xor_row as int,
                    s,
                    x,
                    bit_count,
                ) < entries,
            dib_accepts(payload@, max_pixels as int) ==> (bit_count <= 8 ==> forall|s: int, x: int|
                0 <= s < h && 0 <= x < w ==> #[trigger] row_index(payload@, xor_offset as int, xor_row as int, s, x, bit_count)
                    < entries),
            w == width,
            h == height,
            xor_offset + xor_row * h <= len,
            mask_offset == xor_offset + xor_row * h,
            mask_offset + mask_row * h <= len,
            xor_row * 8 >= w * bit_count,
            mask_row * 8 >= w,
            len == payload@.len(),
            bit_count == 1 || bit_count == 4 || bit_count == 8 || bit_count == 24 || bit_count == 32,
            top_down == (le_i32(payload@, 8) < 0),
            xor_offset == le32(payload@, 0) + 4 * dib_entries(le16(payload@, 14), le32(payload@, 32)),
            xor_row == (le_i32(payload@, 4) * le16(payload@, 14) + 31) / 32 * 4,
            mask_row == (le_i32(payload@, 4) + 31) / 32 * 4,
            h == (if le_i32(payload@, 8) < 0 { -le_i32(payload@, 8) } else { le_i32(payload@, 8) }) / 2,
            w == le_i32(payload@, 4),
            bit_count == le16(payload@, 14),
            bit_count == 32 ==> (any_alpha == dib_any_alpha(payload@, xor_offset as int, xor_row * h)),
            forall|k: int| 0 <= k < palette@.len() ==> #[trigger] palette@[k] == bgrx_entry(payload@, le32(payload@, 0) + 4 * k),
            forall|y2: int, x2: int|
                0 <= y2 < y && 0 <= x2 < w ==> pixels@[y2 * w + x2] == #[trigger] dib_pixel(payload@, y2, x2),
        decreases h - y,
    {
        let source_y = if top_down { y } else { h - 1 - y };
        assert(xor_offset + source_y * xor_row + xor_row <= xor_offset + xor_row * h) by (nonlinear_arith)
            requires
                source_y < h,
        ;
        assert(mask_offset + source_y * mask_row + mask_row <= mask_offset + mask_row * h) by (nonlinear_arith)
            requires
                source_y < h,
        ;
        let xrow = xor_offset + source_y * xor_row;
        let mrow = mask_offset + source_y * mask_row;
        let ghost before = pixels@;
        match decode_dib_row(
            payload,
            &palette,
            &mut pixels,
            xrow,
            xor_row,
            mrow,
            mask_row,
            w,
            bit_count,
            bit_count != 32 || !any_alpha,
        ) {
            Ok(()) => {},
            Err(e) => {
                proof {
                    let x = choose|x: int| 0 <= x < w && #[trigger] packed_value(payload@, xrow as int, x, bit_count)
                        >= palette@.len();
                    assert(row_index(payload@, xor_offset as int, xor_row as int, source_y as int, x, bit_count)
                        >= entries);
                }
                return Err(e);
            },
        }
        proof {
            let b = payload@;
            let xo = le32(b, 0) + 4 * dib_entries(le16(b, 14), le32(b, 32));
            let xr = (le_i32(b, 4) * le16(b, 14) + 31) / 32 * 4;
            let mr = (le_i32(b, 4) + 31) / 32 * 4;
            let mo = xo + xr * h;
            let sy = if le_i32(b, 8) < 0 { y as int } else { h - 1 - y };
            assert(sy == source_y);
            assert(xo + sy * xr == xrow);
            assert(mo + sy * mr == mrow);
            assert((bit_count != 32 || !any_alpha) == (le16(b, 14) != 32 || !dib_any_alpha(b, xo, xr * h)));
            assert forall|x2: int| 0 <= x2 < w implies pixels@[y * w + x2] == #[trigger] dib_pixel(payload@, y as int, x2) by {
                assert(pixels@[before.len() + x2] == masked_alpha(
                    dib_color(payload@, xrow as int, x2, bit_count as int),
                    dib_masked(payload@, mrow as int, x2),
                    bit_count != 32 || !any_alpha,
                ));
            }
            assert forall|y2: int, x2: int| 0 <= y2 < y && 0 <= x2 < w implies pixels@[y2 * w + x2] == #[trigger] dib_pixel(payload@, y2, x2) by {
                assert(y2 * w + x2 < y * w) by (nonlinear_arith)
                    requires
                        0 <= y2 < y,
                        0 <= x2 < w,
                ;
                assert(pixels@[y2 * w + x2] == before[y2 * w + x2]);
            }
            assert forall|x2: int| 0 <= x2 < w implies #[trigger] row_index(payload@, xor_offset as int, xor_row as int, source_y as int, x2, bit_count)
                < entries || bit_count > 8 by {
                if bit_count <= 8 {
                    assert(!(packed_value(payload@, xrow as int, x2, bit_count) >= palette@.len()));
                }
            }
        }
        assert((y + 1) * w == y * w + w) by (nonlinear_arith);
        y = y + 1;
    }
    assert(bit_count <= 8 ==> forall|s: int, x: int|
        0 <= s < h && 0 <= x < w ==> #[trigger] row_index(payload@, xor_offset as int, xor_row as int, s, x, bit_count)
            < entries);
    assert(pixels@.len() == count) by {
        assert(h as int * w as int == w as int * h as int) by (nonlinear_arith);
    }
    Ok(Image { width, height, pixels })
}

} // verus!
