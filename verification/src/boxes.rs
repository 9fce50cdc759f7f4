//! ISO-BMFF (MP4) box walking over an in-memory buffer.
use crate::bytes::{be32, be32_at, be64, be64_at};
use crate::error::Mp4Error;
use vstd::prelude::*;

verus! {

/// A box as the walk reports it: its four-byte type and the span of its
/// payload (after the 8- or 16-byte header, clamped to the enclosing end).
pub type BoxEntry = ([u8; 4], usize, usize);

/// The mathematical view of a box entry.
pub open spec fn box_view(e: BoxEntry) -> (Seq<u8>, int, int) {
    (e.0@, e.1 as int, e.2 as int)
}

pub open spec fn boxes_view(v: Seq<BoxEntry>) -> Seq<(Seq<u8>, int, int)> {
    v.map_values(|e: BoxEntry| box_view(e))
}

/// Prepends `prefix` to an outcome that may be a failure (`None`).
pub open spec fn prepend<T>(prefix: Seq<T>, rest: Option<Seq<T>>) -> Option<Seq<T>> {
    match rest {
        Some(s) => Some(prefix + s),
        None => None,
    }
}

/// The boxes found walking `buf` from `pos` while a full 8-byte header fits
/// before `end`. A size field of 1 means a 64-bit size follows the type; 0
/// means "to the end". A box whose size is smaller than its header ends the
/// walk. `None` when a header runs past the buffer or a position overflows
/// `usize`.
pub open spec fn walk_spec(buf: Seq<u8>, pos: int, end: int) -> Option<Seq<(Seq<u8>, int, int)>>
    decreases usize::MAX - pos,
{
    if pos < 0 || pos + 8 > usize::MAX {
        None
    } else if pos + 8 > end {
        Some(seq![])
    } else if pos + 8 > buf.len() {
        None
    } else {
        let s32 = be32_at(buf, pos);
        let large = s32 == 1;
        if large && pos + 16 > buf.len() {
            None
        } else {
            let size: int = if large {
                be64_at(buf, pos + 8) as int
            } else if s32 == 0 {
                end - pos
            } else {
                s32 as int
            };
            let hdr: int = if large {
                16
            } else {
                8
            };
            if size < hdr {
                Some(seq![])
            } else if pos + size > usize::MAX {
                None
            } else {
                let pe = if pos + size < end {
                    pos + size
                } else {
                    end
                };
                prepend(
                    seq![(buf.subrange(pos + 4, pos + 8), pos + hdr, pe)],
                    walk_spec(buf, pos + size, end),
                )
            }
        }
    }
}

/// Walks the boxes in `buf[start..end]` (see [`walk_spec`]); `None` where
/// the bytes cannot be walked.
pub fn walk_boxes(buf: &[u8], start: usize, end: usize) -> (r: Option<Vec<BoxEntry>>)
    ensures
        match r {
            Some(v) => walk_spec(buf@, start as int, end as int) == Some(boxes_view(v@)),
            None => walk_spec(buf@, start as int, end as int) is None,
        },
{
    let mut out: Vec<BoxEntry> = Vec::new();
    let mut pos = start;
    loop
        invariant
            walk_spec(buf@, start as int, end as int) == prepend(
                boxes_view(out@),
                walk_spec(buf@, pos as int, end as int),
            ),
        decreases usize::MAX - pos,
    {
        proof {
            assert(boxes_view(out@) + seq![] =~= boxes_view(out@));
        }
        if pos > usize::MAX - 8 {
            return None;
        }
        if pos + 8 > end {
            return Some(out);
        }
        if pos + 8 > buf.len() {
            return None;
        }
        let s32 = be32(buf, pos);
        let btype: [u8; 4] = [buf[pos + 4], buf[pos + 5], buf[pos + 6], buf[pos + 7]];
        proof {
            assert(btype@ =~= buf@.subrange(pos + 4, pos + 8));
        }
        let size: usize;
        let hdr: usize;
        if s32 == 1 {
            if buf.len() - pos < 16 {
                return None;
            }
            let s = be64(buf, pos + 8);
            if s > usize::MAX as u64 {
                return None;
            }
            size = s as usize;
            hdr = 16;
        } else if s32 == 0 {
            size = end - pos;
            hdr = 8;
        } else {
            size = s32 as usize;
            hdr = 8;
        }
        if size < hdr {
            return Some(out);
        }
        if pos > usize::MAX - size {
            return None;
        }
        let pe = if pos + size < end {
            pos + size
        } else {
            end
        };
        let ghost old_out = out@;
        out.push((btype, pos + hdr, pe));
        proof {
            assert(boxes_view(out@) =~= boxes_view(old_out) + seq![
                (buf@.subrange(pos + 4, pos + 8), pos + hdr, pe as int),
            ]);
            assert(boxes_view(old_out) + (seq![
                (buf@.subrange(pos + 4, pos + 8), pos + hdr, pe as int),
            ]) =~= boxes_view(out@));
        }
        pos = pos + size;
        proof {
            match walk_spec(buf@, pos as int, end as int) {
                Some(s) => {
                    assert(boxes_view(old_out) + (seq![
                        (buf@.subrange(pos - size + 4, pos - size + 8), pos - size + hdr, pe as int),
                    ] + s) =~= boxes_view(out@) + s);
                },
                None => {},
            }
        }
    }
}

/// Index of the first box of type `kind` in `bs`.
pub open spec fn is_first_of_kind(bs: Seq<(Seq<u8>, int, int)>, kind: Seq<u8>, i: int) -> bool {
    &&& 0 <= i < bs.len()
    &&& bs[i].0 == kind
    &&& forall|j: int| 0 <= j < i ==> bs[j].0 != kind
}

/// Follows `path` down the box tree from the span `(start, end)`: at each
/// level the first box of the wanted type is entered. `Some(None)` when a
/// level lacks the type; `None` when a walk fails.
pub open spec fn find_spec(buf: Seq<u8>, start: int, end: int, path: Seq<Seq<u8>>) -> Option<
    Option<(int, int)>,
>
    decreases path.len(),
{
    if path.len() == 0 {
        Some(Some((start, end)))
    } else {
        match walk_spec(buf, start, end) {
            None => None,
            Some(bs) => if exists|i: int| is_first_of_kind(bs, path[0], i) {
                let i = choose|i: int| is_first_of_kind(bs, path[0], i);
                find_spec(buf, bs[i].1, bs[i].2, path.drop_first())
            } else {
                Some(None)
            },
        }
    }
}

pub open spec fn path_view(path: Seq<[u8; 4]>) -> Seq<Seq<u8>> {
    path.map_values(|t: [u8; 4]| t@)
}

/// Whether two box types are equal.
pub fn same_kind(a: &[u8; 4], b: &[u8; 4]) -> (r: bool)
    ensures
        r == (a@ == b@),
{
    let r = a[0] == b[0] && a[1] == b[1] && a[2] == b[2] && a[3] == b[3];
    proof {
        if r {
            assert(a@ =~= b@);
        }
    }
    r
}

/// Position of the first box of type `kind` in `bs`, if any.
pub fn first_of_kind(bs: &Vec<BoxEntry>, kind: &[u8; 4]) -> (r: Option<usize>)
    ensures
        match r {
            Some(i) => i < bs.len() && bs@[i as int].0@ == kind@ && (forall|j: int|
                0 <= j < i ==> bs@[j].0@ != kind@),
            None => forall|j: int| 0 <= j < bs.len() ==> bs@[j].0@ != kind@,
        },
{
    let mut i: usize = 0;
    while i < bs.len()
        invariant
            i <= bs.len(),
            forall|j: int| 0 <= j < i ==> bs@[j].0@ != kind@,
        decreases bs.len() - i,
    {
        if same_kind(&bs[i].0, kind) {
            return Some(i);
        }
        i = i + 1;
    }
    None
}

/// Following a path from a span enters, at that level, the first box (in
/// walk order) whose type is the path's first element: where the walk of
/// the span lists `bs` and `bs[i]` is of type `path[0]` with no box of that
/// type before it, the search goes on in `bs[i]`'s payload with the rest of
/// the path.
pub proof fn lemma_find_enters_first_match(
    buf: Seq<u8>,
    start: int,
    end: int,
    path: Seq<Seq<u8>>,
    bs: Seq<(Seq<u8>, int, int)>,
    i: int,
)
    requires
        path.len() > 0,
        walk_spec(buf, start, end) == Some(bs),
        0 <= i < bs.len(),
        bs[i].0 == path[0],
        forall|j: int| 0 <= j < i ==> bs[j].0 != path[0],
    ensures
        find_spec(buf, start, end, path) == find_spec(buf, bs[i].1, bs[i].2, path.drop_first()),
        path.len() == 1 ==> find_spec(buf, start, end, path) == Some(Some((bs[i].1, bs[i].2))),
{
    assert(is_first_of_kind(bs, path[0], i));
    let c = choose|j: int| is_first_of_kind(bs, path[0], j);
    if c < i {
        assert(bs[c].0 != path[0]);
    }
    if i < c {
        assert(bs[i].0 != path[0]);
    }
    assert(c == i);
}

/// Following a path from a span whose walk lists no box of the path's
/// first type finds nothing.
pub proof fn lemma_find_lacks_kind(
    buf: Seq<u8>,
    start: int,
    end: int,
    path: Seq<Seq<u8>>,
    bs: Seq<(Seq<u8>, int, int)>,
)
    requires
        path.len() > 0,
        walk_spec(buf, start, end) == Some(bs),
        forall|j: int| 0 <= j < bs.len() ==> bs[j].0 != path[0],
    ensures
        find_spec(buf, start, end, path) == Some(None::<(int, int)>),
{
}

/// Follows `path` from `buf[start..end]` (see [`find_spec`]): the payload
/// span of the box reached, `Ok(None)` when a level lacks the type,
/// `Err(Malformed)` when a walk fails.
pub fn find_box(buf: &[u8], start: usize, end: usize, path: &[[u8; 4]]) -> (r: Result<
    Option<(usize, usize)>,
    Mp4Error,
>)
    ensures
        match find_spec(buf@, start as int, end as int, path_view(path@)) {
            None => r == Err::<Option<(usize, usize)>, Mp4Error>(Mp4Error::Malformed),
            Some(None) => r == Ok::<Option<(usize, usize)>, Mp4Error>(None),
            Some(Some((s, e))) => r matches Ok(Some((rs, re))) && rs == s && re == e,
        },
{
    let ghost whole = path_view(path@);
    let mut s = start;
    let mut e = end;
    let mut k: usize = 0;
    assert(whole.skip(0) =~= whole);
    while k < path.len()
        invariant
            k <= path.len(),
            whole == path_view(path@),
            find_spec(buf@, start as int, end as int, whole) == find_spec(
                buf@,
                s as int,
                e as int,
                whole.skip(k as int),
            ),
        decreases path.len() - k,
    {
        let ghost rest = whole.skip(k as int);
        assert(rest.len() > 0);
        assert(rest[0] == path@[k as int]@);
        assert(rest.drop_first() =~= whole.skip(k + 1));
        let bs = match walk_boxes(buf, s, e) {
            Some(bs) => bs,
            None => {
                return Err(Mp4Error::Malformed);
            },
        };
        match first_of_kind(&bs, &path[k]) {
            Some(i) => {
                proof {
                    let v = boxes_view(bs@);
                    assert forall|j: int| 0 <= j < i implies v[j].0 != rest[0] by {
                        assert(v[j].0 == bs@[j].0@);
                    }
                    lemma_find_enters_first_match(buf@, s as int, e as int, rest, v, i as int);
                }
                s = bs[i].1;
                e = bs[i].2;
            },
            None => {
                proof {
                    let v = boxes_view(bs@);
                    assert forall|j: int| 0 <= j < v.len() implies v[j].0 != rest[0] by {
                        assert(v[j].0 == bs@[j].0@);
                    }
                    lemma_find_lacks_kind(buf@, s as int, e as int, rest, v);
                }
                return Ok(None);
            },
        }
        k = k + 1;
    }
    assert(whole.skip(k as int).len() == 0);
    Ok(Some((s, e)))
}

} // verus!

verus! {

/// A top-level box header as read from the file.
#[derive(Debug, Clone, Copy, PartialEq, Eq)]
pub enum TopHeader {
    /// The size field is 1: the 64-bit size in the next 8 bytes is needed.
    NeedLarge,
    /// The box spans `size` bytes from its start; its payload starts
    /// `header_len` bytes in.
    Box { size: u64, header_len: usize, is_moov: bool },
}

pub open spec fn k_moov() -> Seq<u8> {
    seq![0x6du8, 0x6f, 0x6f, 0x76]
}

/// Decodes the header `hdr` of the top-level box at file offset `pos` in a
/// file of `flen` bytes: a 32-bit size (1: a 64-bit size follows the type;
/// 0: the box runs to the end of the file) and the type.
pub fn top_box_header(hdr: &[u8], pos: u64, flen: u64) -> (r: TopHeader)
    requires
        hdr.len() >= 8,
        pos + 8 <= flen,
    ensures
        ({
            let s32 = be32_at(hdr@, 0);
            let is_moov = hdr@.subrange(4, 8) == k_moov();
            if s32 == 1 {
                if hdr.len() < 16 {
                    r == TopHeader::NeedLarge
                } else {
                    r == (TopHeader::Box { size: be64_at(hdr@, 8), header_len: 16, is_moov })
                }
            } else if s32 == 0 {
                r == (TopHeader::Box { size: (flen - pos) as u64, header_len: 8, is_moov })
            } else {
                r == (TopHeader::Box { size: s32, header_len: 8, is_moov })
            }
        }),
{
    let s32 = be32(hdr, 0);
    let is_moov = hdr[4] == 0x6d && hdr[5] == 0x6f && hdr[6] == 0x6f && hdr[7] == 0x76;
    proof {
        let t = hdr@.subrange(4, 8);
        if is_moov {
            assert(t =~= k_moov());
        } else if t == k_moov() {
            assert(t[0] == hdr@[4] && t[1] == hdr@[5] && t[2] == hdr@[6] && t[3] == hdr@[7]);
        }
    }
    if s32 == 1 {
        if hdr.len() < 16 {
            TopHeader::NeedLarge
        } else {
            TopHeader::Box { size: be64(hdr, 8), header_len: 16, is_moov }
        }
    } else if s32 == 0 {
        TopHeader::Box { size: flen - pos, header_len: 8, is_moov }
    } else {
        TopHeader::Box { size: s32, header_len: 8, is_moov }
    }
}

} // verus!
