//! A scanner over the box tree of an MP4 (ISO BMFF) buffer that finds the
//! display width and height recorded in the `tkhd` box of the video track.
//!
//! A box is a big-endian `u32` size (counting the 8-byte header), a 4-byte
//! type, and its data; a container's data is its children, one after the
//! other.  Every walk is stated as a recursive spec function over the bytes,
//! with offsets as mathematical integers; the executable walkers are proved
//! equal to those.  A walk can reach a box header that is cut off by the end
//! of the buffer while the enclosing range claims more bytes; reading that
//! header's type would index past the end, which the spec functions report
//! as `Walk::OutOfBounds`.
use vstd::prelude::*;

verus! {

/// Outcome of a walk over boxes: a value, or a read past the end of the buffer.
pub enum Walk<T> {
    Done(T),
    OutOfBounds,
}

/// The big-endian `u32` stored at `off`, if four bytes are there.
pub open spec fn be_u32_at(b: Seq<u8>, off: int) -> Option<u32> {
    if 0 <= off && off + 4 <= b.len() {
        Some(
            (b[off] as int * 0x100_0000 + b[off + 1] as int * 0x1_0000 + b[off + 2] as int * 0x100
                + b[off + 3] as int) as u32,
        )
    } else {
        None
    }
}

/// The four bytes at `off` are present and equal `cc`.
pub open spec fn tag_at(b: Seq<u8>, off: int, cc: Seq<u8>) -> bool {
    &&& 0 <= off
    &&& off + 4 <= b.len()
    &&& b.subrange(off, off + 4) == cc
}

/// The size field of the box starting at `s` (0 when it cannot be read).
pub open spec fn box_size(b: Seq<u8>, s: int) -> int {
    match be_u32_at(b, s) {
        Some(x) => x as int,
        None => 0,
    }
}

/// The end offset (start plus size) of the box starting at `s`.
pub open spec fn box_end(b: Seq<u8>, s: int) -> int {
    s + box_size(b, s)
}

/// Positions at or below this bound (2^96) never overflow the `u128`
/// arithmetic of the walkers.
pub open spec fn position_bound() -> int {
    0x1_0000_0000_0000_0000_0000_0000
}

fn be32_at(data: &[u8], off: u128) -> (r: Option<u32>)
    ensures
        r == be_u32_at(data@, off as int),
{
    if off < data.len() as u128 && data.len() as u128 - off >= 4 {
        let o = off as usize;
        let b0 = data[o] as u32;
        let b1 = data[o + 1] as u32;
        let b2 = data[o + 2] as u32;
        let b3 = data[o + 3] as u32;
        Some(b0 * 0x100_0000 + b1 * 0x1_0000 + b2 * 0x100 + b3)
    } else {
        None
    }
}

fn tag_is(data: &[u8], off: u128, fourcc: &[u8; 4]) -> (r: bool)
    ensures
        r == tag_at(data@, off as int, fourcc@),
{
    if off < data.len() as u128 && data.len() as u128 - off >= 4 {
        let o = off as usize;
        let r = data[o] == fourcc[0] && data[o + 1] == fourcc[1] && data[o + 2] == fourcc[2]
            && data[o + 3] == fourcc[3];
        proof {
            let s = data@.subrange(off as int, off + 4);
            if r {
                assert(s =~= fourcc@);
            } else {
                assert(s[0] != fourcc@[0] || s[1] != fourcc@[1] || s[2] != fourcc@[2] || s[3]
                    != fourcc@[3]);
            }
        }
        r
    } else {
        false
    }
}

/// Reads a big-endian `u32` at `offset`, or `None` when fewer than four
/// bytes remain there.
pub fn read_u32_be(data: &[u8], offset: usize) -> (r: Option<u32>)
    ensures
        r == be_u32_at(data@, offset as int),
{
    be32_at(data, offset as u128)
}

/// Whether the four bytes at `offset` are present and equal `fourcc`.
pub fn box_is(data: &[u8], offset: usize, fourcc: &[u8; 4]) -> (r: bool)
    ensures
        r == tag_at(data@, offset as int, fourcc@),
{
    tag_is(data, offset as u128, fourcc)
}

/// The walk over sibling boxes from `offset` while a whole header fits
/// before `end`: the start of the first box whose type is `cc`; `None` when
/// the walk meets a size below 8, a header it cannot read, or the end of
/// the range.
pub open spec fn find_box_walk(b: Seq<u8>, offset: int, end: int, cc: Seq<u8>) -> Walk<Option<int>>
    decreases end + 0x1_0000_0000 - offset,
{
    if offset + 8 > end {
        Walk::Done(None)
    } else {
        match be_u32_at(b, offset) {
            None => Walk::Done(None),
            Some(s) => {
                if s < 8 {
                    Walk::Done(None)
                } else if offset + 8 > b.len() {
                    Walk::OutOfBounds
                } else if b.subrange(offset + 4, offset + 8) == cc {
                    Walk::Done(Some(offset))
                } else {
                    find_box_walk(b, offset + s, end, cc)
                }
            },
        }
    }
}

/// What a found box is: its start lies in the range with a whole header
/// inside both the range and the buffer, its type is `cc`, and its size is
/// at least 8.
pub open spec fn found_box(b: Seq<u8>, offset: int, end: int, cc: Seq<u8>, s: int) -> bool {
    &&& offset <= s
    &&& s + 8 <= end
    &&& s + 8 <= b.len()
    &&& tag_at(b, s + 4, cc)
    &&& be_u32_at(b, s) is Some
    &&& box_size(b, s) >= 8
}

/// A box that a search reports is really there: inside the range, of the
/// type searched for, and of size at least 8.
pub proof fn lemma_found_box_is_in_range(b: Seq<u8>, offset: int, end: int, cc: Seq<u8>)
    ensures
        find_box_walk(b, offset, end, cc) matches Walk::Done(Some(s)) ==> found_box(
            b,
            offset,
            end,
            cc,
            s,
        ),
    decreases end + 0x1_0000_0000 - offset,
{
    if offset + 8 <= end {
        if let Some(s) = be_u32_at(b, offset) {
            if s >= 8 && offset + 8 <= b.len() {
                if b.subrange(offset + 4, offset + 8) == cc {
                    assert(b.subrange(offset + 4, offset + 8) == b.subrange(
                        offset + 4,
                        offset + 4 + 4,
                    ));
                } else {
                    lemma_found_box_is_in_range(b, offset + s, end, cc);
                }
            }
        }
    }
}

/// A search whose range ends within the buffer never reads past the
/// buffer's end.
pub proof fn lemma_search_within_buffer_stays_in_bounds(
    b: Seq<u8>,
    offset: int,
    end: int,
    cc: Seq<u8>,
)
    requires
        end <= b.len(),
    ensures
        !(find_box_walk(b, offset, end, cc) is OutOfBounds),
    decreases end + 0x1_0000_0000 - offset,
{
    if offset + 8 <= end {
        if let Some(s) = be_u32_at(b, offset) {
            if s >= 8 {
                lemma_search_within_buffer_stays_in_bounds(b, offset + s, end, cc);
            }
        }
    }
}

/// The executable result `r` is the spec walk `w`, offsets taken as integers.
pub open spec fn same_start_walk(r: Walk<Option<u128>>, w: Walk<Option<int>>) -> bool {
    match w {
        Walk::OutOfBounds => r is OutOfBounds,
        Walk::Done(None) => r == Walk::<Option<u128>>::Done(None),
        Walk::Done(Some(s)) => r matches Walk::Done(Some(x)) && x == s,
    }
}

fn find_box_start(buffer: &[u8], start: u128, end: u128, fourcc: &[u8; 4]) -> (r: Walk<Option<u128>>)
    requires
        start <= position_bound(),
        end <= position_bound(),
    ensures
        same_start_walk(r, find_box_walk(buffer@, start as int, end as int, fourcc@)),
        r matches Walk::Done(Some(s)) ==> found_box(buffer@, start as int, end as int, fourcc@, s as int),
{
    let mut offset = start;
    while offset + 8 <= end
        invariant
            start <= offset <= position_bound() + 0x1_0000_0000,
            end <= position_bound(),
            find_box_walk(buffer@, offset as int, end as int, fourcc@) == find_box_walk(
                buffer@,
                start as int,
                end as int,
                fourcc@,
            ),
        decreases end + 0x1_0000_0000 - offset,
    {
        let size = match be32_at(buffer, offset) {
            None => return Walk::Done(None),
            Some(s) => s,
        };
        if size < 8 {
            return Walk::Done(None);
        }
        if offset + 8 > buffer.len() as u128 {
            return Walk::OutOfBounds;
        }
        if tag_is(buffer, offset + 4, fourcc) {
            assert(buffer@.subrange(offset + 4, offset + 8) == fourcc@);
            assert(tag_at(buffer@, offset + 4, fourcc@));
            return Walk::Done(Some(offset));
        }
        assert(buffer@.subrange(offset + 4, offset + 8) != fourcc@);
        offset = offset + size as u128;
    }
    Walk::Done(None)
}

/// Finds the first box of type `fourcc` among the siblings in
/// `[start_offset, range_end)` and returns its end offset (start + size).
/// The walk stops at a size below 8, at a header it cannot read, or at the
/// end of the range.  Inputs whose walk would index past the end of the
/// buffer, or whose found box would end beyond `usize::MAX`, are left out.
pub fn find_box_in_range(buffer: &[u8], start_offset: usize, range_end: usize, fourcc: &[u8; 4]) -> (r:
    Option<usize>)
    requires
        !(find_box_walk(buffer@, start_offset as int, range_end as int, fourcc@) is OutOfBounds),
        find_box_walk(buffer@, start_offset as int, range_end as int, fourcc@) matches Walk::Done(
            Some(s),
        ) ==> box_end(buffer@, s) <= usize::MAX,
    ensures
        match find_box_walk(buffer@, start_offset as int, range_end as int, fourcc@) {
            Walk::Done(Some(s)) => r == Some(box_end(buffer@, s) as usize),
            _ => r is None,
        },
{
    match find_box_start(buffer, start_offset as u128, range_end as u128, fourcc) {
        Walk::Done(Some(s)) => {
            let size = match be32_at(buffer, s) {
                Some(x) => x,
                None => 0,
            };
            Some((s + size as u128) as usize)
        },
        _ => None,
    }
}

/// `find_box_in_range` over the rest of the whole buffer.
pub fn find_box(buffer: &[u8], start_offset: usize, fourcc: &[u8; 4]) -> (r: Option<usize>)
    requires
        find_box_walk(buffer@, start_offset as int, buffer@.len() as int, fourcc@) matches Walk::Done(
            Some(s),
        ) ==> box_end(buffer@, s) <= usize::MAX,
    ensures
        match find_box_walk(buffer@, start_offset as int, buffer@.len() as int, fourcc@) {
            Walk::Done(Some(s)) => r == Some(box_end(buffer@, s) as usize),
            _ => r is None,
        },
{
    proof {
        lemma_search_within_buffer_stays_in_bounds(
            buffer@,
            start_offset as int,
            buffer@.len() as int,
            fourcc@,
        );
    }
    find_box_in_range(buffer, start_offset, buffer.len(), fourcc)
}

/// The size of the outermost box that ends at `box_end`, looked for on the
/// chain of sibling boxes from `offset` whose headers lie whole before
/// `limit` and before the end of the buffer (sizes of at least 8): a box of
/// the chain that ends there answers; a box that holds `box_end` strictly
/// inside it is entered, and its children are looked through.
pub open spec fn size_of_box_ending_at(b: Seq<u8>, offset: int, limit: int, box_end: int) -> Option<int>
    decreases b.len() + 0x1_0000_0000 - offset,
{
    if offset < 0 || offset + 8 > limit || offset + 8 > b.len() {
        None
    } else {
        match be_u32_at(b, offset) {
            None => None,
            Some(s) => if s < 8 {
                None
            } else if offset + s == box_end {
                Some(s as int)
            } else if offset < box_end < offset + s {
                size_of_box_ending_at(b, offset + 8, offset + s, box_end)
            } else {
                size_of_box_ending_at(b, offset + s, limit, box_end)
            },
        }
    }
}

/// Reads the size of the box whose end is at `box_end`: the outermost box
/// of the buffer's box tree (top-level boxes from offset 0, and the boxes
/// inside whichever box holds `box_end`) that ends there; `None` when none
/// does.
pub fn box_size_at(buffer: &[u8], box_end: usize) -> (r: Option<usize>)
    ensures
        match size_of_box_ending_at(buffer@, 0, buffer@.len() as int, box_end as int) {
            Some(s) => r == Some(s as usize),
            None => r is None,
        },
        r matches Some(s) ==> s >= 8,
{
    let len = buffer.len() as u128;
    let target = box_end as u128;
    let mut offset: u128 = 0;
    let mut limit: u128 = len;
    while offset + 8 <= limit && offset + 8 <= len
        invariant
            len == buffer@.len(),
            target == box_end,
            len <= usize::MAX,
            offset <= len + 0x1_0000_0000,
            limit <= len + 0x1_0000_0000,
            size_of_box_ending_at(buffer@, offset as int, limit as int, box_end as int)
                == size_of_box_ending_at(buffer@, 0, len as int, box_end as int),
        decreases len + 0x1_0000_0000 - offset,
    {
        let size = match be32_at(buffer, offset) {
            None => return None,
            Some(s) => s as u128,
        };
        if size < 8 {
            return None;
        }
        if offset + size == target {
            return Some(size as usize);
        }
        if offset < target && target < offset + size {
            limit = offset + size;
            offset = offset + 8;
        } else {
            offset = offset + size;
        }
    }
    None
}

pub open spec fn moov_tag() -> Seq<u8> {
    seq![0x6du8, 0x6fu8, 0x6fu8, 0x76u8]
}

pub open spec fn trak_tag() -> Seq<u8> {
    seq![0x74u8, 0x72u8, 0x61u8, 0x6bu8]
}

pub open spec fn mdia_tag() -> Seq<u8> {
    seq![0x6du8, 0x64u8, 0x69u8, 0x61u8]
}

pub open spec fn minf_tag() -> Seq<u8> {
    seq![0x6du8, 0x69u8, 0x6eu8, 0x66u8]
}

pub open spec fn vmhd_tag() -> Seq<u8> {
    seq![0x76u8, 0x6du8, 0x68u8, 0x64u8]
}

pub open spec fn tkhd_tag() -> Seq<u8> {
    seq![0x74u8, 0x6bu8, 0x68u8, 0x64u8]
}

/// The descent trak -> mdia -> minf -> vmhd over the trak data
/// `[start, end)`: the first `mdia` among those children, the first `minf`
/// among its children, and whether a `vmhd` is among the children of that.
pub open spec fn trak_vmhd_walk(b: Seq<u8>, start: int, end: int) -> Walk<bool> {
    match find_box_walk(b, start, end, mdia_tag()) {
        Walk::OutOfBounds => Walk::OutOfBounds,
        Walk::Done(None) => Walk::Done(false),
        Walk::Done(Some(mdia)) => match find_box_walk(b, mdia + 8, box_end(b, mdia), minf_tag()) {
            Walk::OutOfBounds => Walk::OutOfBounds,
            Walk::Done(None) => Walk::Done(false),
            Walk::Done(Some(minf)) => match find_box_walk(
                b,
                minf + 8,
                box_end(b, minf),
                vmhd_tag(),
            ) {
                Walk::OutOfBounds => Walk::OutOfBounds,
                Walk::Done(found) => Walk::Done(found is Some),
            },
        },
    }
}

/// The end of the box found at `s` (whose size field is known to be there).
fn end_of_found(buffer: &[u8], s: u128) -> (r: u128)
    requires
        be_u32_at(buffer@, s as int) is Some,
        s <= position_bound(),
    ensures
        r == box_end(buffer@, s as int),
        r < s + 0x1_0000_0000,
{
    let size = match be32_at(buffer, s) {
        Some(x) => x,
        None => 0,
    };
    s + size as u128
}

fn trak_vmhd_walk_exec(buffer: &[u8], trak_data_start: u128, trak_data_end: u128) -> (r: Walk<bool>)
    requires
        trak_data_start <= position_bound(),
        trak_data_end + 0x3_0000_0000 <= position_bound(),
    ensures
        r == trak_vmhd_walk(buffer@, trak_data_start as int, trak_data_end as int),
{
    let mdia: [u8; 4] = [0x6d, 0x64, 0x69, 0x61];
    let minf: [u8; 4] = [0x6d, 0x69, 0x6e, 0x66];
    let vmhd: [u8; 4] = [0x76, 0x6d, 0x68, 0x64];
    assert(mdia@ =~= mdia_tag());
    assert(minf@ =~= minf_tag());
    assert(vmhd@ =~= vmhd_tag());
    let mdia_start = match find_box_start(buffer, trak_data_start, trak_data_end, &mdia) {
        Walk::OutOfBounds => return Walk::OutOfBounds,
        Walk::Done(None) => return Walk::Done(false),
        Walk::Done(Some(s)) => s,
    };
    let mdia_end = end_of_found(buffer, mdia_start);
    let minf_start = match find_box_start(buffer, mdia_start + 8, mdia_end, &minf) {
        Walk::OutOfBounds => return Walk::OutOfBounds,
        Walk::Done(None) => return Walk::Done(false),
        Walk::Done(Some(s)) => s,
    };
    let minf_end = end_of_found(buffer, minf_start);
    match find_box_start(buffer, minf_start + 8, minf_end, &vmhd) {
        Walk::OutOfBounds => Walk::OutOfBounds,
        Walk::Done(found) => Walk::Done(found.is_some()),
    }
}

/// Whether the `trak` whose data spans `[trak_data_start, trak_data_end)`
/// is a video track: trak -> mdia -> minf -> vmhd.  Inputs whose descent
/// would index past the end of the buffer are left out.
pub fn trak_contains_vmhd(buffer: &[u8], trak_data_start: usize, trak_data_end: usize) -> (r: bool)
    requires
        !(trak_vmhd_walk(buffer@, trak_data_start as int, trak_data_end as int) is OutOfBounds),
    ensures
        Walk::Done(r) == trak_vmhd_walk(buffer@, trak_data_start as int, trak_data_end as int),
{
    match trak_vmhd_walk_exec(buffer, trak_data_start as u128, trak_data_end as u128) {
        Walk::Done(r) => r,
        Walk::OutOfBounds => false,
    }
}

/// The upper 16 bits of a 16.16 fixed-point value, when present.
pub open spec fn integer_part(v: Option<u32>) -> Option<u32> {
    match v {
        Some(x) => Some(x >> 16),
        None => None,
    }
}

/// Width and height of the `tkhd` box at `tpos`: the integer parts of the
/// 16.16 values 76 and 80 bytes into the box data (88 and 92 for a version-1
/// box, whose version byte is the first data byte; a missing byte counts as 0).
pub open spec fn tkhd_dims_at(b: Seq<u8>, tpos: int) -> (Option<u32>, Option<u32>) {
    let version: u8 = if 0 <= tpos + 8 < b.len() {
        b[tpos + 8]
    } else {
        0
    };
    let w_off = if version == 1 {
        tpos + 8 + 88
    } else {
        tpos + 8 + 76
    };
    let h_off = if version == 1 {
        tpos + 8 + 92
    } else {
        tpos + 8 + 80
    };
    (integer_part(be_u32_at(b, w_off)), integer_part(be_u32_at(b, h_off)))
}

/// The walk over the children of a video `trak` from `tpos` while a header
/// fits strictly before `end`: the dimensions of the first `tkhd` box.
pub open spec fn tkhd_walk(b: Seq<u8>, tpos: int, end: int) -> Option<(Option<u32>, Option<u32>)>
    decreases end + 0x1_0000_0000 - tpos,
{
    if tpos + 8 < end {
        match be_u32_at(b, tpos) {
            None => None,
            Some(s) => if s < 8 {
                None
            } else if tag_at(b, tpos + 4, tkhd_tag()) {
                Some(tkhd_dims_at(b, tpos))
            } else {
                tkhd_walk(b, tpos + s, end)
            },
        }
    } else {
        None
    }
}

/// The walk over the children of `moov` from `pos` while a header fits
/// strictly before `end`: the dimensions from the first `trak` that holds a
/// `vmhd` and a `tkhd`; `(None, None)` when there is none.
pub open spec fn moov_walk(b: Seq<u8>, pos: int, end: int) -> Walk<(Option<u32>, Option<u32>)>
    decreases end + 0x1_0000_0000 - pos,
{
    if pos + 8 < end {
        match be_u32_at(b, pos) {
            None => Walk::Done((None, None)),
            Some(s) => if s < 8 {
                Walk::Done((None, None))
            } else if tag_at(b, pos + 4, trak_tag()) {
                match trak_vmhd_walk(b, pos + 8, pos + s) {
                    Walk::OutOfBounds => Walk::OutOfBounds,
                    Walk::Done(true) => match tkhd_walk(b, pos + 8, pos + s) {
                        Some(d) => Walk::Done(d),
                        None => moov_walk(b, pos + s, end),
                    },
                    Walk::Done(false) => moov_walk(b, pos + s, end),
                }
            } else {
                moov_walk(b, pos + s, end)
            },
        }
    } else {
        Walk::Done((None, None))
    }
}

/// The whole scan: find the first `moov` box on the top-level chain from
/// the buffer's start, and walk its children.
pub open spec fn tkhd_scan(b: Seq<u8>) -> Walk<(Option<u32>, Option<u32>)> {
    match find_box_walk(b, 0, b.len() as int, moov_tag()) {
        Walk::OutOfBounds => Walk::OutOfBounds,
        Walk::Done(None) => Walk::Done((None, None)),
        Walk::Done(Some(moov)) => moov_walk(b, moov + 8, box_end(b, moov)),
    }
}

fn tkhd_walk_exec(buffer: &[u8], trak_data_start: u128, trak_data_end: u128) -> (r: Option<
    (Option<u32>, Option<u32>),
>)
    requires
        trak_data_start <= position_bound(),
        trak_data_end <= position_bound(),
    ensures
        r == tkhd_walk(buffer@, trak_data_start as int, trak_data_end as int),
{
    let tkhd: [u8; 4] = [0x74, 0x6b, 0x68, 0x64];
    assert(tkhd@ =~= tkhd_tag());
    let mut tpos = trak_data_start;
    while tpos + 8 < trak_data_end
        invariant
            tpos <= position_bound() + 0x1_0000_0000,
            trak_data_end <= position_bound(),
            tkhd@ == tkhd_tag(),
            tkhd_walk(buffer@, tpos as int, trak_data_end as int) == tkhd_walk(
                buffer@,
                trak_data_start as int,
                trak_data_end as int,
            ),
        decreases trak_data_end + 0x1_0000_0000 - tpos,
    {
        let tsz = match be32_at(buffer, tpos) {
            Some(s) => if s < 8 {
                return None;
            } else {
                s as u128
            },
            None => return None,
        };
        if tag_is(buffer, tpos + 4, &tkhd) {
            let version = if tpos + 8 < buffer.len() as u128 {
                buffer[(tpos + 8) as usize]
            } else {
                0
            };
            let (w_off, h_off) = if version == 1 {
                (tpos + 8 + 88, tpos + 8 + 92)
            } else {
                (tpos + 8 + 76, tpos + 8 + 80)
            };
            let width = match be32_at(buffer, w_off) {
                Some(w) => Some(w >> 16),
                None => None,
            };
            let height = match be32_at(buffer, h_off) {
                Some(h) => Some(h >> 16),
                None => None,
            };
            return Some((width, height));
        }
        tpos = tpos + tsz;
    }
    None
}

fn moov_walk_exec(buffer: &[u8], moov_data_start: u128, moov_end: u128) -> (r: Walk<
    (Option<u32>, Option<u32>),
>)
    requires
        moov_data_start <= position_bound(),
        moov_end + 0x5_0000_0000 <= position_bound(),
    ensures
        r == moov_walk(buffer@, moov_data_start as int, moov_end as int),
{
    let trak: [u8; 4] = [0x74, 0x72, 0x61, 0x6b];
    assert(trak@ =~= trak_tag());
    let mut pos = moov_data_start;
    while pos + 8 < moov_end
        invariant
            pos <= position_bound(),
            moov_end + 0x5_0000_0000 <= position_bound(),
            trak@ == trak_tag(),
            moov_walk(buffer@, pos as int, moov_end as int) == moov_walk(
                buffer@,
                moov_data_start as int,
                moov_end as int,
            ),
        decreases moov_end + 0x1_0000_0000 - pos,
    {
        let box_sz = match be32_at(buffer, pos) {
            Some(s) => if s < 8 {
                return Walk::Done((None, None));
            } else {
                s as u128
            },
            None => return Walk::Done((None, None)),
        };
        if tag_is(buffer, pos + 4, &trak) {
            let trak_data_start = pos + 8;
            let trak_data_end = pos + box_sz;
            match trak_vmhd_walk_exec(buffer, trak_data_start, trak_data_end) {
                Walk::OutOfBounds => return Walk::OutOfBounds,
                Walk::Done(true) => {
                    match tkhd_walk_exec(buffer, trak_data_start, trak_data_end) {
                        Some(d) => return Walk::Done(d),
                        None => {},
                    }
                },
                Walk::Done(false) => {},
            }
        }
        pos = pos + box_sz;
    }
    Walk::Done((None, None))
}

fn tkhd_scan_exec(buffer: &[u8]) -> (r: Walk<(Option<u32>, Option<u32>)>)
    ensures
        r == tkhd_scan(buffer@),
{
    let moov: [u8; 4] = [0x6d, 0x6f, 0x6f, 0x76];
    assert(moov@ =~= moov_tag());
    let moov_start = match find_box_start(buffer, 0, buffer.len() as u128, &moov) {
        Walk::OutOfBounds => return Walk::OutOfBounds,
        Walk::Done(None) => return Walk::Done((None, None)),
        Walk::Done(Some(s)) => s,
    };
    let moov_end = end_of_found(buffer, moov_start);
    moov_walk_exec(buffer, moov_start + 8, moov_end)
}

/// The display width and height from the `tkhd` of the first video track
/// of the first `moov` box; `(None, None)` when there is none.  Buffers whose
/// scan would index past their end are left out: see
/// `try_scan_video_tkhd_dimensions`.
pub fn scan_video_tkhd_dimensions(buffer: &[u8]) -> (r: (Option<u32>, Option<u32>))
    requires
        !(tkhd_scan(buffer@) is OutOfBounds),
    ensures
        Walk::Done(r) == tkhd_scan(buffer@),
{
    match tkhd_scan_exec(buffer) {
        Walk::Done(r) => r,
        Walk::OutOfBounds => (None, None),
    }
}

/// The same scan on any buffer: `None` exactly when the scan would index
/// past the end of the buffer (a box header cut off by the end of a
/// truncated buffer inside a box that claims more bytes).
pub fn try_scan_video_tkhd_dimensions(buffer: &[u8]) -> (r: Option<(Option<u32>, Option<u32>)>)
    ensures
        match tkhd_scan(buffer@) {
            Walk::Done(d) => r == Some(d),
            Walk::OutOfBounds => r is None,
        },
{
    match tkhd_scan_exec(buffer) {
        Walk::Done(r) => Some(r),
        Walk::OutOfBounds => None,
    }
}


proof fn lemma_integer_part_is_small()
    ensures
        forall|x: u32| #[trigger] (x >> 16) < 0x1_0000u32,
{
    assert(forall|x: u32| #[trigger] (x >> 16) < 0x1_0000u32) by (bit_vector);
}

/// Reported dimensions are the integer parts of 16.16 values, so each is
/// below 65536.
pub proof fn lemma_dimensions_fit_in_sixteen_bits(b: Seq<u8>)
    ensures
        tkhd_scan(b) matches Walk::Done((w, h)) ==> (w matches Some(x) ==> x < 0x1_0000) && (
        h matches Some(y) ==> y < 0x1_0000),
{
    lemma_integer_part_is_small();
    if let Walk::Done(Some(moov)) = find_box_walk(b, 0, b.len() as int, moov_tag()) {
        lemma_moov_walk_dimensions(b, moov + 8, box_end(b, moov));
    }
}

proof fn lemma_moov_walk_dimensions(b: Seq<u8>, pos: int, end: int)
    requires
        forall|x: u32| #[trigger] (x >> 16) < 0x1_0000u32,
    ensures
        moov_walk(b, pos, end) matches Walk::Done((w, h)) ==> (w matches Some(x) ==> x < 0x1_0000)
            && (h matches Some(y) ==> y < 0x1_0000),
    decreases end + 0x1_0000_0000 - pos,
{
    if pos + 8 < end {
        if let Some(s) = be_u32_at(b, pos) {
            if s >= 8 {
                lemma_tkhd_walk_dimensions(b, pos + 8, pos + s);
                lemma_moov_walk_dimensions(b, pos + s, end);
            }
        }
    }
}

proof fn lemma_tkhd_walk_dimensions(b: Seq<u8>, tpos: int, end: int)
    requires
        forall|x: u32| #[trigger] (x >> 16) < 0x1_0000u32,
    ensures
        tkhd_walk(b, tpos, end) matches Some((w, h)) ==> (w matches Some(x) ==> x < 0x1_0000) && (
        h matches Some(y) ==> y < 0x1_0000),
    decreases end + 0x1_0000_0000 - tpos,
{
    if tpos + 8 < end {
        if let Some(s) = be_u32_at(b, tpos) {
            if s >= 8 {
                lemma_tkhd_walk_dimensions(b, tpos + s, end);
            }
        }
    }
}

/// The dimensions come from the first video track of the first movie box:
/// when the scan reports something, the top-level walk found a `moov` box,
/// and the walk over its children reported that result.  Each reported
/// value is read from a `tkhd` header: there is a box header whose type is
/// `tkhd` and whose dimension fields give exactly what was reported.
pub proof fn lemma_dimensions_come_from_tkhd(b: Seq<u8>)
    ensures
        tkhd_scan(b) matches Walk::Done((w, h)) ==> (w is Some || h is Some) ==> {
            &&& find_box_walk(b, 0, b.len() as int, moov_tag()) matches Walk::Done(Some(moov))
            &&& found_box(b, 0, b.len() as int, moov_tag(), moov)
            &&& moov_walk(b, moov + 8, box_end(b, moov)) == Walk::Done((w, h))
            &&& exists|tpos: int|
                #![trigger tkhd_dims_at(b, tpos)]
                tag_at(b, tpos + 4, tkhd_tag()) && tkhd_dims_at(b, tpos) == (w, h)
        },
{
    lemma_found_box_is_in_range(b, 0, b.len() as int, moov_tag());
    if let Walk::Done(Some(moov)) = find_box_walk(b, 0, b.len() as int, moov_tag()) {
        lemma_moov_walk_from_tkhd(b, moov + 8, box_end(b, moov));
    }
}

proof fn lemma_moov_walk_from_tkhd(b: Seq<u8>, pos: int, end: int)
    ensures
        moov_walk(b, pos, end) matches Walk::Done((w, h)) ==> (w is Some || h is Some) ==> exists|
            tpos: int,
        |
            #![trigger tkhd_dims_at(b, tpos)]
            tag_at(b, tpos + 4, tkhd_tag()) && tkhd_dims_at(b, tpos) == (w, h),
    decreases end + 0x1_0000_0000 - pos,
{
    if pos + 8 < end {
        if let Some(s) = be_u32_at(b, pos) {
            if s >= 8 {
                lemma_tkhd_walk_from_tkhd(b, pos + 8, pos + s);
                lemma_moov_walk_from_tkhd(b, pos + s, end);
            }
        }
    }
}

proof fn lemma_tkhd_walk_from_tkhd(b: Seq<u8>, tpos: int, end: int)
    ensures
        tkhd_walk(b, tpos, end) matches Some(d) ==> exists|t: int|
            #![trigger tkhd_dims_at(b, t)]
            tag_at(b, t + 4, tkhd_tag()) && tkhd_dims_at(b, t) == d,
    decreases end + 0x1_0000_0000 - tpos,
{
    if tpos + 8 < end {
        if let Some(s) = be_u32_at(b, tpos) {
            if s >= 8 {
                if tag_at(b, tpos + 4, tkhd_tag()) {
                    assert(tkhd_dims_at(b, tpos) == tkhd_dims_at(b, tpos));
                } else {
                    lemma_tkhd_walk_from_tkhd(b, tpos + s, end);
                }
            }
        }
    }
}

/// A search result moved `k` bytes further on.
pub open spec fn shifted(w: Walk<Option<int>>, k: int) -> Walk<Option<int>> {
    match w {
        Walk::Done(Some(s)) => Walk::Done(Some(s + k)),
        Walk::Done(None) => Walk::Done(None),
        Walk::OutOfBounds => Walk::OutOfBounds,
    }
}

proof fn lemma_shift_reads(p: Seq<u8>, b: Seq<u8>, o: int, cc: Seq<u8>)
    requires
        o >= 0,
    ensures
        be_u32_at(p + b, o + p.len()) == be_u32_at(b, o),
        tag_at(p + b, o + p.len(), cc) == tag_at(b, o, cc),
        box_size(p + b, o + p.len()) == box_size(b, o),
        box_end(p + b, o + p.len()) == box_end(b, o) + p.len(),
        0 <= o + 4 <= b.len() ==> (p + b).subrange(o + p.len(), o + p.len() + 4) == b.subrange(
            o,
            o + 4,
        ),
{
    let c = p + b;
    let k = p.len() as int;
    if o + 4 <= b.len() {
        assert(c[o + k] == b[o]);
        assert(c[o + k + 1] == b[o + 1]);
        assert(c[o + k + 2] == b[o + 2]);
        assert(c[o + k + 3] == b[o + 3]);
        assert(c.subrange(o + k, o + k + 4) =~= b.subrange(o, o + 4));
    }
}

proof fn lemma_shift_find(p: Seq<u8>, b: Seq<u8>, o: int, e: int, cc: Seq<u8>)
    requires
        o >= 0,
    ensures
        find_box_walk(p + b, o + p.len(), e + p.len(), cc) == shifted(
            find_box_walk(b, o, e, cc),
            p.len() as int,
        ),
    decreases e + 0x1_0000_0000 - o,
{
    let k = p.len() as int;
    lemma_shift_reads(p, b, o, cc);
    lemma_shift_reads(p, b, o + 4, cc);
    if o + 8 <= e {
        if let Some(s) = be_u32_at(b, o) {
            if s >= 8 && o + 8 <= b.len() {
                if b.subrange(o + 4, o + 8) != cc {
                    lemma_shift_find(p, b, o + s, e, cc);
                    assert(o + k + s == (o + s) + k);
                }
            }
        }
    }
}

proof fn lemma_shift_trak(p: Seq<u8>, b: Seq<u8>, s: int, e: int)
    requires
        s >= 0,
    ensures
        trak_vmhd_walk(p + b, s + p.len(), e + p.len()) == trak_vmhd_walk(b, s, e),
{
    let c = p + b;
    let k = p.len() as int;
    lemma_shift_find(p, b, s, e, mdia_tag());
    lemma_found_box_is_in_range(b, s, e, mdia_tag());
    if let Walk::Done(Some(mdia)) = find_box_walk(b, s, e, mdia_tag()) {
        lemma_shift_reads(p, b, mdia, mdia_tag());
        lemma_shift_find(p, b, mdia + 8, box_end(b, mdia), minf_tag());
        assert(mdia + k + 8 == (mdia + 8) + k);
        lemma_found_box_is_in_range(b, mdia + 8, box_end(b, mdia), minf_tag());
        if let Walk::Done(Some(minf)) = find_box_walk(b, mdia + 8, box_end(b, mdia), minf_tag()) {
            lemma_shift_reads(p, b, minf, minf_tag());
            lemma_shift_find(p, b, minf + 8, box_end(b, minf), vmhd_tag());
            assert(minf + k + 8 == (minf + 8) + k);
        }
    }
}

proof fn lemma_shift_tkhd_dims(p: Seq<u8>, b: Seq<u8>, t: int)
    requires
        t >= 0,
    ensures
        tkhd_dims_at(p + b, t + p.len()) == tkhd_dims_at(b, t),
{
    let c = p + b;
    let k = p.len() as int;
    if t + 8 < b.len() {
        assert(c[t + k + 8] == b[t + 8]);
    }
    lemma_shift_reads(p, b, t + 8 + 88, seq![]);
    lemma_shift_reads(p, b, t + 8 + 92, seq![]);
    lemma_shift_reads(p, b, t + 8 + 76, seq![]);
    lemma_shift_reads(p, b, t + 8 + 80, seq![]);
    assert(t + k + 8 + 88 == (t + 8 + 88) + k);
    assert(t + k + 8 + 92 == (t + 8 + 92) + k);
    assert(t + k + 8 + 76 == (t + 8 + 76) + k);
    assert(t + k + 8 + 80 == (t + 8 + 80) + k);
}

proof fn lemma_shift_tkhd_walk(p: Seq<u8>, b: Seq<u8>, t: int, e: int)
    requires
        t >= 0,
    ensures
        tkhd_walk(p + b, t + p.len(), e + p.len()) == tkhd_walk(b, t, e),
    decreases e + 0x1_0000_0000 - t,
{
    let k = p.len() as int;
    lemma_shift_reads(p, b, t, tkhd_tag());
    lemma_shift_reads(p, b, t + 4, tkhd_tag());
    assert(t + k + 4 == (t + 4) + k);
    if t + 8 < e {
        if let Some(s) = be_u32_at(b, t) {
            if s >= 8 {
                if tag_at(b, t + 4, tkhd_tag()) {
                    lemma_shift_tkhd_dims(p, b, t);
                } else {
                    lemma_shift_tkhd_walk(p, b, t + s, e);
                    assert(t + k + s == (t + s) + k);
                }
            }
        }
    }
}

proof fn lemma_shift_moov_walk(p: Seq<u8>, b: Seq<u8>, pos: int, e: int)
    requires
        pos >= 0,
    ensures
        moov_walk(p + b, pos + p.len(), e + p.len()) == moov_walk(b, pos, e),
    decreases e + 0x1_0000_0000 - pos,
{
    let k = p.len() as int;
    lemma_shift_reads(p, b, pos, trak_tag());
    lemma_shift_reads(p, b, pos + 4, trak_tag());
    assert(pos + k + 4 == (pos + 4) + k);
    if pos + 8 < e {
        if let Some(s) = be_u32_at(b, pos) {
            if s >= 8 {
                lemma_shift_moov_walk(p, b, pos + s, e);
                assert(pos + k + s == (pos + s) + k);
                assert(pos + k + 8 == (pos + 8) + k);
                if tag_at(b, pos + 4, trak_tag()) {
                    lemma_shift_trak(p, b, pos + 8, pos + s);
                    lemma_shift_tkhd_walk(p, b, pos + 8, pos + s);
                }
            }
        }
    }
}

/// A complete leading box of another type than `moov` (such as `ftyp`) does
/// not change the scan: only offsets relative to the boxes matter.
pub proof fn lemma_leading_box_is_skipped(p: Seq<u8>, b: Seq<u8>)
    requires
        8 <= p.len() <= u32::MAX,
        be_u32_at(p, 0) == Some(p.len() as u32),
        !tag_at(p, 4, moov_tag()),
    ensures
        tkhd_scan(p + b) == tkhd_scan(b),
{
    let c = p + b;
    let k = p.len() as int;
    assert(c[0] == p[0] && c[1] == p[1] && c[2] == p[2] && c[3] == p[3]);
    assert(be_u32_at(c, 0) == be_u32_at(p, 0));
    assert(c.subrange(4, 8) =~= p.subrange(4, 8));
    assert(c.subrange(4, 8) != moov_tag());
    assert(c.len() == b.len() + k);
    assert(be_u32_at(c, 0) == Some(k as u32));
    assert((k as u32) as int == k);
    lemma_shift_find(p, b, 0, b.len() as int, moov_tag());
    assert(find_box_walk(c, 0, c.len() as int, moov_tag()) == find_box_walk(
        c,
        0 + k,
        b.len() + k,
        moov_tag(),
    ));
    lemma_found_box_is_in_range(b, 0, b.len() as int, moov_tag());
    if let Walk::Done(Some(moov)) = find_box_walk(b, 0, b.len() as int, moov_tag()) {
        lemma_shift_reads(p, b, moov, moov_tag());
        lemma_shift_moov_walk(p, b, moov + 8, box_end(b, moov));
        assert(moov + k + 8 == (moov + 8) + k);
    }
}


/// `p` is a box on the chain of siblings that starts at `from`: stepping
/// from box to box by their sizes reaches `p`, and every box on the way, `p`
/// included, has a readable size of at least 8 and a header that ends at or
/// before `limit`.
pub open spec fn sibling_at(b: Seq<u8>, from: int, limit: int, p: int) -> bool
    decreases limit + 0x1_0000_0000 - from,
{
    if from + 8 <= limit {
        match be_u32_at(b, from) {
            Some(s) => s >= 8 && (p == from || sibling_at(b, from + s, limit, p)),
            None => false,
        }
    } else {
        false
    }
}

/// `p` is the first box of type `cc` on the sibling chain from `from`.
pub open spec fn first_with_tag(b: Seq<u8>, from: int, limit: int, cc: Seq<u8>, p: int) -> bool {
    &&& sibling_at(b, from, limit, p)
    &&& tag_at(b, p + 4, cc)
    &&& forall|q: int| #[trigger] sibling_at(b, from, limit, q) && q < p ==> !tag_at(b, q + 4, cc)
}

/// Some box of type `cc` is on the sibling chain from `from`.
pub open spec fn holds_tag(b: Seq<u8>, from: int, limit: int, cc: Seq<u8>) -> bool {
    exists|q: int| #[trigger] sibling_at(b, from, limit, q) && tag_at(b, q + 4, cc)
}

/// The `trak` box at `trak` is a video track: among the children of its
/// first `mdia` child's first `minf` child there is a `vmhd`.
pub open spec fn is_video_trak(b: Seq<u8>, trak: int) -> bool {
    exists|mdia: int, minf: int|
        #![trigger first_with_tag(b, trak + 8, box_end(b, trak), mdia_tag(), mdia), first_with_tag(b, mdia + 8, box_end(b, mdia), minf_tag(), minf)]
        first_with_tag(b, trak + 8, box_end(b, trak), mdia_tag(), mdia) && first_with_tag(
            b,
            mdia + 8,
            box_end(b, mdia),
            minf_tag(),
            minf,
        ) && holds_tag(b, minf + 8, box_end(b, minf), vmhd_tag())
}

/// Among the children of a container that spans up to `end` (whose child
/// headers must end strictly before `end`), `trak` is a video `trak` and
/// `t` is its first `tkhd` child.
pub open spec fn video_tkhd_at(b: Seq<u8>, from: int, end: int, trak: int, t: int) -> bool {
    &&& sibling_at(b, from, end - 1, trak)
    &&& tag_at(b, trak + 4, trak_tag())
    &&& is_video_trak(b, trak)
    &&& first_with_tag(b, trak + 8, box_end(b, trak) - 1, tkhd_tag(), t)
}

/// `trak` is the first video `trak` with a `tkhd` among the children of the
/// `moov` box at `moov`, and `t` is that `trak`'s first `tkhd`.
pub open spec fn first_video_tkhd(b: Seq<u8>, moov: int, trak: int, t: int) -> bool {
    &&& video_tkhd_at(b, moov + 8, box_end(b, moov), trak, t)
    &&& forall|q: int, u: int|
        #[trigger] video_tkhd_at(b, moov + 8, box_end(b, moov), q, u) ==> trak <= q
}

proof fn lemma_sibling_not_before(b: Seq<u8>, from: int, limit: int, q: int)
    ensures
        sibling_at(b, from, limit, q) ==> from <= q,
    decreases limit + 0x1_0000_0000 - from,
{
    if from + 8 <= limit {
        if let Some(s) = be_u32_at(b, from) {
            if s >= 8 {
                lemma_sibling_not_before(b, from + s, limit, q);
            }
        }
    }
}

proof fn lemma_first_is_unique(b: Seq<u8>, from: int, limit: int, cc: Seq<u8>, p1: int, p2: int)
    requires
        first_with_tag(b, from, limit, cc, p1),
        first_with_tag(b, from, limit, cc, p2),
    ensures
        p1 == p2,
{
    if p1 < p2 {
        assert(sibling_at(b, from, limit, p1));
    } else if p2 < p1 {
        assert(sibling_at(b, from, limit, p2));
    }
}

/// A search finds the first box of its type on the sibling chain it walks,
/// and reports none only when no box of that type is on the chain.
pub proof fn lemma_find_is_first(b: Seq<u8>, o: int, e: int, cc: Seq<u8>)
    ensures
        find_box_walk(b, o, e, cc) matches Walk::Done(Some(p)) ==> first_with_tag(b, o, e, cc, p),
        find_box_walk(b, o, e, cc) == Walk::<Option<int>>::Done(None) ==> forall|q: int|
            #[trigger] sibling_at(b, o, e, q) ==> !tag_at(b, q + 4, cc),
    decreases e + 0x1_0000_0000 - o,
{
    if o + 8 <= e {
        if let Some(s) = be_u32_at(b, o) {
            if s >= 8 && o + 8 <= b.len() {
                if b.subrange(o + 4, o + 8) == cc {
                    assert(tag_at(b, o + 4, cc));
                    assert forall|q: int| #[trigger] sibling_at(b, o, e, q) && q < o implies !tag_at(
                        b,
                        q + 4,
                        cc,
                    ) by {
                        lemma_sibling_not_before(b, o, e, q);
                    }
                } else {
                    lemma_find_is_first(b, o + s, e, cc);
                    assert(!tag_at(b, o + 4, cc));
                    if let Walk::Done(Some(p)) = find_box_walk(b, o + s, e, cc) {
                        assert(sibling_at(b, o, e, p));
                        assert forall|q: int| #[trigger]
                            sibling_at(b, o, e, q) && q < p implies !tag_at(b, q + 4, cc) by {
                            if q != o {
                                assert(sibling_at(b, o + s, e, q));
                            }
                        }
                    }
                    if find_box_walk(b, o + s, e, cc) == Walk::<Option<int>>::Done(None) {
                        assert forall|q: int| #[trigger] sibling_at(b, o, e, q) implies !tag_at(
                            b,
                            q + 4,
                            cc,
                        ) by {
                            if q != o {
                                assert(sibling_at(b, o + s, e, q));
                            }
                        }
                    }
                }
            }
        }
    }
}

proof fn lemma_tkhd_walk_is_first(b: Seq<u8>, t0: int, e: int) -> (t: int)
    ensures
        tkhd_walk(b, t0, e) matches Some(d) ==> first_with_tag(b, t0, e - 1, tkhd_tag(), t)
            && tkhd_dims_at(b, t) == d,
        tkhd_walk(b, t0, e) is None ==> forall|q: int|
            #[trigger] sibling_at(b, t0, e - 1, q) ==> !tag_at(b, q + 4, tkhd_tag()),
    decreases e + 0x1_0000_0000 - t0,
{
    if t0 + 8 < e {
        if let Some(s) = be_u32_at(b, t0) {
            if s >= 8 {
                if tag_at(b, t0 + 4, tkhd_tag()) {
                    assert(sibling_at(b, t0, e - 1, t0));
                    assert forall|q: int| #[trigger]
                        sibling_at(b, t0, e - 1, q) && q < t0 implies !tag_at(
                        b,
                        q + 4,
                        tkhd_tag(),
                    ) by {
                        lemma_sibling_not_before(b, t0, e - 1, q);
                    }
                    return t0;
                } else {
                    let t = lemma_tkhd_walk_is_first(b, t0 + s, e);
                    if tkhd_walk(b, t0 + s, e) is Some {
                        assert(sibling_at(b, t0, e - 1, t));
                        assert forall|q: int| #[trigger]
                            sibling_at(b, t0, e - 1, q) && q < t implies !tag_at(
                            b,
                            q + 4,
                            tkhd_tag(),
                        ) by {
                            if q != t0 {
                                assert(sibling_at(b, t0 + s, e - 1, q));
                            }
                        }
                    } else {
                        assert forall|q: int| #[trigger] sibling_at(b, t0, e - 1, q) implies !tag_at(
                            b,
                            q + 4,
                            tkhd_tag(),
                        ) by {
                            if q != t0 {
                                assert(sibling_at(b, t0 + s, e - 1, q));
                            }
                        }
                    }
                    return t;
                }
            }
        }
    }
    0
}

/// The video-track test on a `trak` box answers exactly whether the track is
/// a video track: whether its first `mdia` child's first `minf` child holds a
/// `vmhd`.
pub proof fn lemma_vmhd_walk_is_video(b: Seq<u8>, trak: int)
    requires
        be_u32_at(b, trak) is Some,
    ensures
        trak_vmhd_walk(b, trak + 8, box_end(b, trak)) matches Walk::Done(v) ==> (v
            <==> is_video_trak(b, trak)),
{
    let e = box_end(b, trak);
    lemma_find_is_first(b, trak + 8, e, mdia_tag());
    match find_box_walk(b, trak + 8, e, mdia_tag()) {
        Walk::OutOfBounds => {},
        Walk::Done(None) => {
            if is_video_trak(b, trak) {
                let (mdia, minf) = choose|mdia: int, minf: int|
                    first_with_tag(b, trak + 8, box_end(b, trak), mdia_tag(), mdia)
                        && first_with_tag(b, mdia + 8, box_end(b, mdia), minf_tag(), minf)
                        && holds_tag(b, minf + 8, box_end(b, minf), vmhd_tag());
                assert(sibling_at(b, trak + 8, e, mdia));
            }
        },
        Walk::Done(Some(mdia)) => {
            let me = box_end(b, mdia);
            lemma_find_is_first(b, mdia + 8, me, minf_tag());
            match find_box_walk(b, mdia + 8, me, minf_tag()) {
                Walk::OutOfBounds => {},
                Walk::Done(None) => {
                    if is_video_trak(b, trak) {
                        let (mdia2, minf) = choose|mdia2: int, minf: int|
                            first_with_tag(b, trak + 8, box_end(b, trak), mdia_tag(), mdia2)
                                && first_with_tag(b, mdia2 + 8, box_end(b, mdia2), minf_tag(), minf)
                                && holds_tag(b, minf + 8, box_end(b, minf), vmhd_tag());
                        lemma_first_is_unique(b, trak + 8, e, mdia_tag(), mdia, mdia2);
                        assert(sibling_at(b, mdia + 8, me, minf));
                    }
                },
                Walk::Done(Some(minf)) => {
                    let ne = box_end(b, minf);
                    lemma_find_is_first(b, minf + 8, ne, vmhd_tag());
                    match find_box_walk(b, minf + 8, ne, vmhd_tag()) {
                        Walk::OutOfBounds => {},
                        Walk::Done(None) => {
                            if is_video_trak(b, trak) {
                                let (mdia2, minf2) = choose|mdia2: int, minf2: int|
                                    first_with_tag(b, trak + 8, box_end(b, trak), mdia_tag(), mdia2)
                                        && first_with_tag(
                                        b,
                                        mdia2 + 8,
                                        box_end(b, mdia2),
                                        minf_tag(),
                                        minf2,
                                    ) && holds_tag(b, minf2 + 8, box_end(b, minf2), vmhd_tag());
                                lemma_first_is_unique(b, trak + 8, e, mdia_tag(), mdia, mdia2);
                                lemma_first_is_unique(b, mdia + 8, me, minf_tag(), minf, minf2);
                                let q = choose|q: int|
                                    #[trigger] sibling_at(b, minf + 8, ne, q) && tag_at(
                                        b,
                                        q + 4,
                                        vmhd_tag(),
                                    );
                            }
                        },
                        Walk::Done(Some(v)) => {
                            assert(sibling_at(b, minf + 8, ne, v) && tag_at(b, v + 4, vmhd_tag()));
                            assert(holds_tag(b, minf + 8, ne, vmhd_tag()));
                            assert(first_with_tag(b, trak + 8, box_end(b, trak), mdia_tag(), mdia)
                                && first_with_tag(b, mdia + 8, box_end(b, mdia), minf_tag(), minf));
                        },
                    }
                },
            }
        },
    }
}


proof fn lemma_moov_walk_is_first_video(b: Seq<u8>, pos: int, end: int) -> (found: (bool, int, int))
    ensures
        moov_walk(b, pos, end) matches Walk::Done(r) ==> if found.0 {
            &&& video_tkhd_at(b, pos, end, found.1, found.2)
            &&& r == tkhd_dims_at(b, found.2)
            &&& forall|q: int, u: int| #[trigger] video_tkhd_at(b, pos, end, q, u) ==> found.1 <= q
        } else {
            &&& r == (None::<u32>, None::<u32>)
            &&& forall|q: int, u: int| !#[trigger] video_tkhd_at(b, pos, end, q, u)
        },
    decreases end + 0x1_0000_0000 - pos,
{
    if pos + 8 < end {
        if let Some(s) = be_u32_at(b, pos) {
            if s >= 8 {
                assert(box_end(b, pos) == pos + s);
                let mut here = false;
                let mut t: int = 0;
                if tag_at(b, pos + 4, trak_tag()) {
                    lemma_vmhd_walk_is_video(b, pos);
                    t = lemma_tkhd_walk_is_first(b, pos + 8, pos + s);
                    if trak_vmhd_walk(b, pos + 8, pos + s) == Walk::Done(true) {
                        if tkhd_walk(b, pos + 8, pos + s) is Some {
                            here = true;
                        }
                    }
                }
                if here {
                    assert(sibling_at(b, pos, end - 1, pos));
                    assert(video_tkhd_at(b, pos, end, pos, t));
                    assert forall|q: int, u: int| #[trigger]
                        video_tkhd_at(b, pos, end, q, u) implies pos <= q by {
                        lemma_sibling_not_before(b, pos, end - 1, q);
                    }
                    return (true, pos, t);
                }
                let f = lemma_moov_walk_is_first_video(b, pos + s, end);
                if moov_walk(b, pos, end) is Done {
                    assert forall|u: int| !#[trigger] video_tkhd_at(b, pos, end, pos, u) by {
                        if video_tkhd_at(b, pos, end, pos, u) {
                            assert(tag_at(b, pos + 4, trak_tag()));
                            assert(is_video_trak(b, pos));
                            assert(trak_vmhd_walk(b, pos + 8, pos + s) == Walk::Done(true));
                            assert(sibling_at(b, pos + 8, pos + s - 1, u));
                            assert(tag_at(b, u + 4, tkhd_tag()));
                        }
                    }
                    assert(moov_walk(b, pos, end) == moov_walk(b, pos + s, end));
                    if f.0 {
                        assert(sibling_at(b, pos, end - 1, f.1));
                        assert(video_tkhd_at(b, pos, end, f.1, f.2));
                        assert forall|q: int, u: int| #[trigger]
                            video_tkhd_at(b, pos, end, q, u) implies f.1 <= q by {
                            if q != pos {
                                assert(sibling_at(b, pos + s, end - 1, q));
                                assert(video_tkhd_at(b, pos + s, end, q, u));
                            }
                        }
                    } else {
                        assert forall|q: int, u: int| !#[trigger] video_tkhd_at(b, pos, end, q, u) by {
                            if video_tkhd_at(b, pos, end, q, u) && q != pos {
                                assert(sibling_at(b, pos + s, end - 1, q));
                                assert(video_tkhd_at(b, pos + s, end, q, u));
                            }
                        }
                    }
                }
                return f;
            }
        }
    }
    (false, 0, 0)
}

/// The scan reads the video track itself: when the first `moov` box of the
/// top-level chain holds a video `trak` (one whose `mdia`/`minf` holds a
/// `vmhd`) with a `tkhd` child, and `trak` is the first such track and `t`
/// its first `tkhd`, a scan that completes reports exactly the width and
/// height recorded in `t`, whatever the other tracks hold.
pub proof fn lemma_scan_reads_the_first_video_track(b: Seq<u8>, moov: int, trak: int, t: int)
    requires
        first_with_tag(b, 0, b.len() as int, moov_tag(), moov),
        first_video_tkhd(b, moov, trak, t),
    ensures
        tkhd_scan(b) is Done ==> tkhd_scan(b) == Walk::Done(tkhd_dims_at(b, t)),
{
    lemma_find_is_first(b, 0, b.len() as int, moov_tag());
    match find_box_walk(b, 0, b.len() as int, moov_tag()) {
        Walk::Done(Some(m)) => {
            lemma_first_is_unique(b, 0, b.len() as int, moov_tag(), m, moov);
            let f = lemma_moov_walk_is_first_video(b, moov + 8, box_end(b, moov));
            if tkhd_scan(b) is Done {
                assert(video_tkhd_at(b, moov + 8, box_end(b, moov), trak, t));
                if f.0 {
                    assert(video_tkhd_at(b, moov + 8, box_end(b, moov), f.1, f.2));
                    assert(trak <= f.1 && f.1 <= trak);
                    lemma_first_is_unique(
                        b,
                        trak + 8,
                        box_end(b, trak) - 1,
                        tkhd_tag(),
                        t,
                        f.2,
                    );
                }
            }
        },
        Walk::Done(None) => {
            assert(sibling_at(b, 0, b.len() as int, moov));
        },
        Walk::OutOfBounds => {},
    }
}

/// Without a video track there are no dimensions: when no video `trak` with
/// a `tkhd` child is among the children of the first `moov` box (or there is
/// no `moov` box), a scan that completes reports neither width nor height.
pub proof fn lemma_scan_without_video_track(b: Seq<u8>)
    requires
        forall|moov: int, trak: int, t: int|
            first_with_tag(b, 0, b.len() as int, moov_tag(), moov) ==> !#[trigger] video_tkhd_at(
                b,
                moov + 8,
                box_end(b, moov),
                trak,
                t,
            ),
    ensures
        tkhd_scan(b) is Done ==> tkhd_scan(b) == Walk::Done((None::<u32>, None::<u32>)),
{
    lemma_find_is_first(b, 0, b.len() as int, moov_tag());
    if let Walk::Done(Some(m)) = find_box_walk(b, 0, b.len() as int, moov_tag()) {
        let f = lemma_moov_walk_is_first_video(b, m + 8, box_end(b, m));
        if tkhd_scan(b) is Done && f.0 {
            assert(video_tkhd_at(b, m + 8, box_end(b, m), f.1, f.2));
        }
    }
}

/// Whatever the scan reports other than nothing comes from the first video
/// track of the first `moov` box: it is the width and height of that
/// track's first `tkhd`.
pub proof fn lemma_reported_dimensions_are_the_first_video_track(b: Seq<u8>)
    ensures
        tkhd_scan(b) matches Walk::Done(r) ==> r == (None::<u32>, None::<u32>) || exists|
            moov: int,
            trak: int,
            t: int,
        |
            #![trigger first_video_tkhd(b, moov, trak, t)]
            first_with_tag(b, 0, b.len() as int, moov_tag(), moov) && first_video_tkhd(
                b,
                moov,
                trak,
                t,
            ) && r == tkhd_dims_at(b, t),
{
    lemma_find_is_first(b, 0, b.len() as int, moov_tag());
    if let Walk::Done(Some(m)) = find_box_walk(b, 0, b.len() as int, moov_tag()) {
        let f = lemma_moov_walk_is_first_video(b, m + 8, box_end(b, m));
        if tkhd_scan(b) is Done && f.0 {
            assert(first_video_tkhd(b, m, f.1, f.2));
        }
    }
}


proof fn lemma_high_half(x0: u8, x1: u8, x2: u8, x3: u8)
    ensures
        (((x0 as int * 0x100_0000 + x1 as int * 0x1_0000 + x2 as int * 0x100 + x3 as int) as u32)
            >> 16) as int == x0 as int * 0x100 + x1 as int,
{
    assert((((x0 as u32) * 0x100_0000u32 + (x1 as u32) * 0x1_0000u32 + (x2 as u32) * 0x100u32 + (
    x3 as u32)) as u32) >> 16 == (x0 as u32) * 0x100u32 + (x1 as u32)) by (bit_vector);
    assert((x0 as u32) * 0x100_0000u32 + (x1 as u32) * 0x1_0000u32 + (x2 as u32) * 0x100u32 + (
    x3 as u32) == x0 as int * 0x100_0000 + x1 as int * 0x1_0000 + x2 as int * 0x100 + x3 as int);
}

/// A `tkhd` box records its width and height as 16.16 fixed-point numbers,
/// at bytes 84 and 88 of the box when its version byte (byte 8) is 0, and at
/// bytes 96 and 100 when it is 1; what is reported is each number's integer
/// part, read big-endian from its first two bytes, whatever its fraction.
pub proof fn lemma_tkhd_reports_integer_parts(b: Seq<u8>, t: int)
    requires
        0 <= t,
        t + 9 <= b.len(),
    ensures
        b[t + 8] != 1 && t + 92 <= b.len() ==> tkhd_dims_at(b, t) == (
            Some((b[t + 84] as int * 0x100 + b[t + 85] as int) as u32),
            Some((b[t + 88] as int * 0x100 + b[t + 89] as int) as u32),
        ),
        b[t + 8] == 1 && t + 104 <= b.len() ==> tkhd_dims_at(b, t) == (
            Some((b[t + 96] as int * 0x100 + b[t + 97] as int) as u32),
            Some((b[t + 100] as int * 0x100 + b[t + 101] as int) as u32),
        ),
{
    if t + 92 <= b.len() {
        lemma_high_half(b[t + 84], b[t + 85], b[t + 86], b[t + 87]);
        lemma_high_half(b[t + 88], b[t + 89], b[t + 90], b[t + 91]);
    }
    if t + 104 <= b.len() {
        lemma_high_half(b[t + 96], b[t + 97], b[t + 98], b[t + 99]);
        lemma_high_half(b[t + 100], b[t + 101], b[t + 102], b[t + 103]);
    }
}


proof fn lemma_size_found_at(b: Seq<u8>, offset: int, limit: int, e: int) -> (p: int)
    ensures
        size_of_box_ending_at(b, offset, limit, e) matches Some(sz) ==> {
            &&& offset <= p
            &&& p + 8 <= b.len()
            &&& be_u32_at(b, p) == Some(sz as u32)
            &&& sz >= 8
            &&& p + sz == e
        },
    decreases b.len() + 0x1_0000_0000 - offset,
{
    if offset < 0 || offset + 8 > limit || offset + 8 > b.len() {
        0
    } else {
        match be_u32_at(b, offset) {
            None => 0,
            Some(s) => if s < 8 {
                0
            } else if offset + s == e {
                offset
            } else if offset < e < offset + s {
                lemma_size_found_at(b, offset + 8, offset + s, e)
            } else {
                lemma_size_found_at(b, offset + s, limit, e)
            },
        }
    }
}

/// A size reported for the box ending at `box_end` is that of a real box:
/// there is a box header in the buffer, at or after the walk's start, whose
/// size field holds that size (at least 8) and which ends exactly at
/// `box_end`.
pub proof fn lemma_reported_size_is_of_a_box_ending_there(b: Seq<u8>, box_end: int)
    ensures
        size_of_box_ending_at(b, 0, b.len() as int, box_end) matches Some(sz) ==> exists|p: int|
            #![trigger be_u32_at(b, p)]
            0 <= p && p + 8 <= b.len() && be_u32_at(b, p) == Some(sz as u32) && sz >= 8 && p + sz
                == box_end,
{
    let p = lemma_size_found_at(b, 0, b.len() as int, box_end);
    if let Some(sz) = size_of_box_ending_at(b, 0, b.len() as int, box_end) {
        assert(be_u32_at(b, p) == Some(sz as u32));
    }
}

} // verus!
