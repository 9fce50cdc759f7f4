//! Sample table of the `meta`-handler track: where each telemetry sample
//! lies in the file and how large it is, from the `moov` box's `stsz`,
//! `stco`/`co64` and `stsc` tables.
use crate::boxes::{boxes_view, find_box, find_spec, path_view, walk_boxes, walk_spec, BoxEntry};
use crate::bytes::{be32, be32_at, be64, be64_at};
use crate::error::Mp4Error;
use vstd::prelude::*;

verus! {

pub open spec fn kind(a: u8, b: u8, c: u8, d: u8) -> Seq<u8> {
    seq![a, b, c, d]
}

fn fourcc(a: u8, b: u8, c: u8, d: u8) -> (r: [u8; 4])
    ensures
        r@ == kind(a, b, c, d),
{
    let r = [a, b, c, d];
    assert(r@ =~= kind(a, b, c, d));
    r
}

pub open spec fn k_trak() -> Seq<u8> {
    kind(0x74, 0x72, 0x61, 0x6b)
}

pub open spec fn k_mdia() -> Seq<u8> {
    kind(0x6d, 0x64, 0x69, 0x61)
}

pub open spec fn k_hdlr() -> Seq<u8> {
    kind(0x68, 0x64, 0x6c, 0x72)
}

pub open spec fn k_minf() -> Seq<u8> {
    kind(0x6d, 0x69, 0x6e, 0x66)
}

pub open spec fn k_stbl() -> Seq<u8> {
    kind(0x73, 0x74, 0x62, 0x6c)
}

pub open spec fn k_meta() -> Seq<u8> {
    kind(0x6d, 0x65, 0x74, 0x61)
}

pub open spec fn k_stsz() -> Seq<u8> {
    kind(0x73, 0x74, 0x73, 0x7a)
}

pub open spec fn k_stco() -> Seq<u8> {
    kind(0x73, 0x74, 0x63, 0x6f)
}

pub open spec fn k_co64() -> Seq<u8> {
    kind(0x63, 0x6f, 0x36, 0x34)
}

pub open spec fn k_stsc() -> Seq<u8> {
    kind(0x73, 0x74, 0x73, 0x63)
}

pub type BoxView = (Seq<u8>, int, int);

/// Payload span of the last box of type `k` (a later box of a type replaces
/// an earlier one).
pub open spec fn last_of_kind(bs: Seq<BoxView>, k: Seq<u8>) -> Option<(int, int)>
    decreases bs.len(),
{
    if bs.len() == 0 {
        None
    } else if bs.last().0 == k {
        Some((bs.last().1, bs.last().2))
    } else {
        last_of_kind(bs.drop_last(), k)
    }
}

/// Sample sizes from `stsz` at payload `sps`: a nonzero common size
/// repeated `count` times, or the `count` per-sample sizes that follow.
pub open spec fn sizes_spec(moov: Seq<u8>, sps: int) -> Option<Seq<u32>> {
    if sps < 0 || sps + 12 > moov.len() {
        None
    } else {
        let ss = be32_at(moov, sps + 4) as u32;
        let count = be32_at(moov, sps + 8) as int;
        if ss != 0 {
            Some(Seq::new(count as nat, |i: int| ss))
        } else if count > 0 && sps + 12 + 4 * count > moov.len() {
            None
        } else {
            Some(Seq::new(count as nat, |i: int| be32_at(moov, sps + 12 + 4 * i) as u32))
        }
    }
}

/// Chunk offsets from `stco` (32-bit) or, when `wide`, `co64` (64-bit).
pub open spec fn chunk_offsets_spec(moov: Seq<u8>, cps: int, wide: bool) -> Option<Seq<u64>> {
    if cps < 0 || cps + 8 > moov.len() {
        None
    } else {
        let n = be32_at(moov, cps + 4) as int;
        let w: int = if wide {
            8
        } else {
            4
        };
        if n > 0 && cps + 8 + w * n > moov.len() {
            None
        } else if wide {
            Some(Seq::new(n as nat, |i: int| be64_at(moov, cps + 8 + 8 * i)))
        } else {
            Some(Seq::new(n as nat, |i: int| be32_at(moov, cps + 8 + 4 * i)))
        }
    }
}

/// `(first_chunk, samples_per_chunk)` entries of `stsc`.
pub open spec fn stsc_spec(moov: Seq<u8>, cps: int) -> Option<Seq<(u64, u64)>> {
    if cps < 0 || cps + 8 > moov.len() {
        None
    } else {
        let n = be32_at(moov, cps + 4) as int;
        if n > 0 && cps + 4 + 12 * n > moov.len() {
            None
        } else {
            Some(
                Seq::new(
                    n as nat,
                    |i: int| (be32_at(moov, cps + 8 + 12 * i), be32_at(moov, cps + 12 + 12 * i)),
                ),
            )
        }
    }
}

/// Fills one chunk starting at file offset `off` with up to `k` samples,
/// from sample `si` on while `si < sizes.len()`; each sample follows the
/// previous one. Returns the samples and the next sample index; `None` when
/// an offset overflows `u64`.
pub open spec fn chunk_fill(off: int, sizes: Seq<u32>, si: int, k: int) -> Option<
    (Seq<(u64, u32)>, int),
>
    decreases k,
{
    if k <= 0 || si < 0 || si >= sizes.len() {
        Some((seq![], si))
    } else if off + sizes[si] > u64::MAX {
        None
    } else {
        match chunk_fill(off + sizes[si], sizes, si + 1, k - 1) {
            None => None,
            Some((s, si2)) => Some((seq![(off as u64, sizes[si])] + s, si2)),
        }
    }
}

/// Chunks `c..last`, each filled with up to `pc` samples. `None` when a
/// chunk index is past the offset table or an offset overflows.
pub open spec fn chunks_run(co: Seq<u64>, sizes: Seq<u32>, c: int, last: int, pc: int, si: int) -> Option<
    (Seq<(u64, u32)>, int),
>
    decreases last - c,
{
    if c >= last {
        Some((seq![], si))
    } else if c < 0 || c >= co.len() {
        None
    } else {
        match chunk_fill(co[c] as int, sizes, si, pc) {
            None => None,
            Some((s1, si1)) => match chunks_run(co, sizes, c + 1, last, pc, si1) {
                None => None,
                Some((s2, si2)) => Some((s1 + s2, si2)),
            },
        }
    }
}

/// The sample-to-chunk walk from entry `i` on: entry `i` covers chunks
/// `first_chunk - 1` up to (excluding) the next entry's `first_chunk - 1`,
/// or up to the end of the offset table for the last entry. `None` when a
/// first-chunk number is 0 or a walk step fails.
pub open spec fn stsc_walk(stsc: Seq<(u64, u64)>, co: Seq<u64>, sizes: Seq<u32>, i: int, si: int) -> Option<
    Seq<(u64, u32)>,
>
    decreases stsc.len() - i,
{
    if i < 0 || i >= stsc.len() {
        Some(seq![])
    } else if i + 1 < stsc.len() && stsc[i + 1].0 == 0 {
        None
    } else if stsc[i].0 == 0 {
        None
    } else {
        let last: int = if i + 1 < stsc.len() {
            stsc[i + 1].0 - 1
        } else {
            co.len() as int
        };
        match chunks_run(co, sizes, stsc[i].0 - 1, last, stsc[i].1 as int, si) {
            None => None,
            Some((s1, si1)) => match stsc_walk(stsc, co, sizes, i + 1, si1) {
                None => None,
                Some(s2) => Some(s1 + s2),
            },
        }
    }
}

/// The samples of the track whose sample table is `stbl`.
pub open spec fn table_spec(moov: Seq<u8>, bs: Seq<BoxView>) -> Option<
    Result<Seq<(u64, u32)>, Mp4Error>,
> {
    match last_of_kind(bs, k_stsz()) {
        None => Some(Err(Mp4Error::MissingStsz)),
        Some(sz) => match sizes_spec(moov, sz.0) {
            None => None,
            Some(sizes) => {
                let co = match last_of_kind(bs, k_stco()) {
                    Some(c) => Some(chunk_offsets_spec(moov, c.0, false)),
                    None => match last_of_kind(bs, k_co64()) {
                        Some(c) => Some(chunk_offsets_spec(moov, c.0, true)),
                        None => None,
                    },
                };
                match co {
                    None => Some(Err(Mp4Error::MissingChunkOffsets)),
                    Some(None) => None,
                    Some(Some(co)) => match last_of_kind(bs, k_stsc()) {
                        None => Some(Err(Mp4Error::MissingStsc)),
                        Some(sc) => match stsc_spec(moov, sc.0) {
                            None => None,
                            Some(stsc) => match stsc_walk(stsc, co, sizes, 0, 0) {
                                None => None,
                                Some(samples) => if samples.len() == sizes.len() {
                                    Some(Ok(samples))
                                } else {
                                    Some(
                                        Err(
                                            Mp4Error::SampleCountMismatch {
                                                walked: samples.len() as u64,
                                                count: sizes.len() as u64,
                                            },
                                        ),
                                    )
                                },
                            },
                        },
                    },
                }
            },
        },
    }
}

/// What one `trak` box contributes: `Some(None)` when it is not a usable
/// `meta`-handler track (the search goes on), `Some(Some(r))` when it is
/// (the search ends with `r`), `None` when it cannot be walked.
pub open spec fn trak_spec(moov: Seq<u8>, tps: int, tpe: int) -> Option<
    Option<Result<Seq<(u64, u32)>, Mp4Error>>,
> {
    match find_spec(moov, tps, tpe, seq![k_mdia()]) {
        None => None,
        Some(None) => Some(None),
        Some(Some(mdia)) => match find_spec(moov, mdia.0, mdia.1, seq![k_hdlr()]) {
            None => None,
            Some(None) => Some(None),
            Some(Some(hdlr)) => if hdlr.0 + 12 > usize::MAX {
                None
            } else if hdlr.0 + 12 > moov.len() || moov.subrange(hdlr.0 + 8, hdlr.0 + 12)
                != k_meta() {
                Some(None)
            } else {
                match find_spec(moov, mdia.0, mdia.1, seq![k_minf(), k_stbl()]) {
                    None => None,
                    Some(None) => Some(None),
                    Some(Some(stbl)) => match walk_spec(moov, stbl.0, stbl.1) {
                        None => None,
                        Some(bs) => match table_spec(moov, bs) {
                            None => None,
                            Some(r) => Some(Some(r)),
                        },
                    },
                }
            },
        },
    }
}

/// The first usable `meta` track among the top boxes `bs[i..]`.
pub open spec fn traks_spec(moov: Seq<u8>, bs: Seq<BoxView>, i: int) -> Option<
    Result<Seq<(u64, u32)>, Mp4Error>,
>
    decreases bs.len() - i,
{
    if i < 0 || i >= bs.len() {
        Some(Err(Mp4Error::NoMetaTrack))
    } else if bs[i].0 != k_trak() {
        traks_spec(moov, bs, i + 1)
    } else {
        match trak_spec(moov, bs[i].1, bs[i].2) {
            None => None,
            Some(None) => traks_spec(moov, bs, i + 1),
            Some(Some(r)) => Some(r),
        }
    }
}

/// `(file offset, size)` of every sample of the first `meta`-handler track
/// in the payload `moov[ps..pe]` of a `moov` box; `None` when the structure
/// cannot be walked.
pub open spec fn meta_samples_spec(moov: Seq<u8>, ps: int, pe: int) -> Option<
    Result<Seq<(u64, u32)>, Mp4Error>,
> {
    match walk_spec(moov, ps, pe) {
        None => None,
        Some(bs) => traks_spec(moov, bs, 0),
    }
}

/// Total size of samples `a..b`.
pub open spec fn size_sum(sizes: Seq<u32>, a: int, b: int) -> int
    decreases b - a,
{
    if a >= b {
        0
    } else {
        sizes[a] + size_sum(sizes, a + 1, b)
    }
}

/// Sample `j` of chunk `c` in a list of chunks of `k` samples each.
pub open spec fn in_chunk<T>(s: Seq<T>, k: int, c: int, j: int) -> T {
    s[c * k + j]
}

proof fn lemma_size_sum_nonneg(sizes: Seq<u32>, a: int, b: int)
    ensures
        size_sum(sizes, a, b) >= 0,
    decreases b - a,
{
    if a < b {
        lemma_size_sum_nonneg(sizes, a + 1, b);
    }
}

proof fn lemma_chunk_fill_full(off: int, sizes: Seq<u32>, si: int, k: int)
    requires
        0 <= si,
        0 <= k,
        si + k <= sizes.len(),
        0 <= off,
        off + size_sum(sizes, si, si + k) <= u64::MAX,
    ensures
        chunk_fill(off, sizes, si, k) matches Some((s, si2)) && si2 == si + k && s.len() == k
            && (forall|j: int|
            0 <= j < k ==> #[trigger] s[j] == ((off + size_sum(sizes, si, si + j)) as u64, sizes[si
                + j])),
    decreases k,
{
    if k > 0 {
        lemma_size_sum_nonneg(sizes, si + 1, si + k);
        lemma_chunk_fill_full(off + sizes[si], sizes, si + 1, k - 1);
        let rest = chunk_fill(off + sizes[si], sizes, si + 1, k - 1)->Some_0.0;
        let s = seq![(off as u64, sizes[si])] + rest;
        assert forall|j: int| 0 <= j < k implies #[trigger] s[j] == ((off + size_sum(
            sizes,
            si,
            si + j,
        )) as u64, sizes[si + j]) by {
            if j > 0 {
                assert(s[j] == rest[j - 1]);
                assert(size_sum(sizes, si, si + j) == sizes[si] + size_sum(sizes, si + 1, si + j));
            }
        }
    }
}

proof fn lemma_chunks_run_full(co: Seq<u64>, sizes: Seq<u32>, c: int, k: int)
    requires
        0 <= c <= co.len(),
        0 <= k,
        sizes.len() == co.len() * k,
        forall|c2: int|
            0 <= c2 < co.len() ==> #[trigger] co[c2] + size_sum(sizes, c2 * k, c2 * k + k)
                <= u64::MAX,
    ensures
        chunks_run(co, sizes, c, co.len() as int, k, c * k) matches Some((s, si)) && si == co.len()
            * k && s.len() == (co.len() - c) * k,
    decreases co.len() - c,
{
    let n = co.len() as int;
    if c < n {
        assert(c * k + k <= n * k) by (nonlinear_arith)
            requires
                c < n,
                0 <= k,
        ;
        assert(0 <= c * k) by (nonlinear_arith)
            requires
                0 <= c,
                0 <= k,
        ;
        assert(co[c] + size_sum(sizes, c * k, c * k + k) <= u64::MAX);
        lemma_chunk_fill_full(co[c] as int, sizes, c * k, k);
        assert(c * k + k == (c + 1) * k) by (nonlinear_arith);
        lemma_chunks_run_full(co, sizes, c + 1, k);
        assert((n - c) * k == k + (n - (c + 1)) * k) by (nonlinear_arith);
    } else {
        assert((n - c) * k == 0) by (nonlinear_arith)
            requires
                c == n,
        ;
    }
}

proof fn lemma_chunks_run_at(co: Seq<u64>, sizes: Seq<u32>, c: int, k: int, c2: int, j: int)
    requires
        0 <= c <= c2 < co.len(),
        0 <= j < k,
        sizes.len() == co.len() * k,
        forall|c3: int|
            0 <= c3 < co.len() ==> #[trigger] co[c3] + size_sum(sizes, c3 * k, c3 * k + k)
                <= u64::MAX,
    ensures
        chunks_run(co, sizes, c, co.len() as int, k, c * k) matches Some((s, _)) && s[(c2 - c) * k
            + j] == ((co[c2] + size_sum(sizes, c2 * k, c2 * k + j)) as u64, sizes[c2 * k + j]),
    decreases c2 - c,
{
    let n = co.len() as int;
    lemma_chunks_run_full(co, sizes, c, k);
    assert(c * k + k <= n * k) by (nonlinear_arith)
        requires
            c < n,
            0 <= k,
    ;
    assert(0 <= c * k) by (nonlinear_arith)
        requires
            0 <= c,
            0 <= k,
    ;
    assert(co[c] + size_sum(sizes, c * k, c * k + k) <= u64::MAX);
    lemma_chunk_fill_full(co[c] as int, sizes, c * k, k);
    assert(c * k + k == (c + 1) * k) by (nonlinear_arith);
    lemma_chunks_run_full(co, sizes, c + 1, k);
    let s1 = chunk_fill(co[c] as int, sizes, c * k, k)->Some_0.0;
    let s2 = chunks_run(co, sizes, c + 1, n, k, (c + 1) * k)->Some_0.0;
    if c2 == c {
        assert((c2 - c) * k + j == j) by (nonlinear_arith)
            requires
                c2 == c,
        ;
        assert((s1 + s2)[j] == s1[j]);
    } else {
        lemma_chunks_run_at(co, sizes, c + 1, k, c2, j);
        assert((c2 - c) * k + j == k + ((c2 - (c + 1)) * k + j)) by (nonlinear_arith);
        assert(0 <= (c2 - (c + 1)) * k) by (nonlinear_arith)
            requires
                c + 1 <= c2,
                0 <= k,
        ;
        assert((c2 - (c + 1)) * k + j < (n - (c + 1)) * k) by (nonlinear_arith)
            requires
                c2 < n,
                0 <= j < k,
        ;
        assert(s1.len() == k);
        assert(s2.len() == (n - (c + 1)) * k);
        assert((s1 + s2)[k + ((c2 - (c + 1)) * k + j)] == s2[(c2 - (c + 1)) * k + j]);
    }
}

/// A sample table whose `stsc` has the single entry `(1, k)` (every chunk,
/// from the first to the last of the chunk-offset table, holds `k`
/// samples) and whose `stsz` lists `k` samples per chunk gives every
/// sample: sample `j` of chunk `c` lies at the chunk's offset plus the sizes
/// of the chunk's earlier samples, and has its own size. (The sums must fit
/// in 64 bits.)
pub proof fn lemma_single_stsc_entry(
    moov: Seq<u8>,
    bs: Seq<BoxView>,
    k: u64,
    sizes: Seq<u32>,
    co: Seq<u64>,
)
    requires
        last_of_kind(bs, k_stsz()) matches Some(sz) && sizes_spec(moov, sz.0) == Some(sizes),
        match last_of_kind(bs, k_stco()) {
            Some(c) => chunk_offsets_spec(moov, c.0, false) == Some(co),
            None => last_of_kind(bs, k_co64()) matches Some(c) && chunk_offsets_spec(moov, c.0, true)
                == Some(co),
        },
        last_of_kind(bs, k_stsc()) matches Some(sc) && stsc_spec(moov, sc.0) == Some(
            seq![(1u64, k)],
        ),
        sizes.len() == co.len() * k,
        forall|c: int|
            0 <= c < co.len() ==> #[trigger] co[c] + size_sum(sizes, c * k, c * k + k)
                <= u64::MAX,
    ensures
        table_spec(moov, bs) matches Some(Ok(s)) && s.len() == sizes.len() && (forall|c: int, j: int|
            0 <= c < co.len() && 0 <= j < k ==> #[trigger] in_chunk(s, k as int, c, j) == ((co[c]
                + size_sum(sizes, c * k, c * k + j)) as u64, sizes[c * k + j])),
{
    let stsc = seq![(1u64, k)];
    let n = co.len() as int;
    lemma_chunks_run_full(co, sizes, 0, k as int);
    assert(0 * k == 0);
    let s = chunks_run(co, sizes, 0, n, k as int, 0)->Some_0.0;
    assert(stsc_walk(stsc, co, sizes, 1, n * k) == Some(Seq::<(u64, u32)>::empty()));
    assert(s + Seq::<(u64, u32)>::empty() =~= s);
    assert(stsc_walk(stsc, co, sizes, 0, 0) == Some(s));
    assert forall|c: int, j: int| 0 <= c < n && 0 <= j < k implies #[trigger] in_chunk(
        s,
        k as int,
        c,
        j,
    ) == ((co[c] + size_sum(sizes, c * k, c * k + j)) as u64, sizes[c * k + j]) by {
        lemma_chunks_run_at(co, sizes, 0, k as int, c, j);
        assert((c - 0) * k + j == c * k + j);
    }
}

fn last_box_of_kind(bs: &Vec<BoxEntry>, k: &[u8; 4]) -> (r: Option<(usize, usize)>)
    ensures
        match last_of_kind(boxes_view(bs@), k@) {
            None => r is None,
            Some((s, e)) => r matches Some((rs, re)) && rs == s && re == e,
        },
{
    let ghost v = boxes_view(bs@);
    let mut found: Option<(usize, usize)> = None;
    let mut i: usize = 0;
    assert(v.take(0) =~= seq![]);
    while i < bs.len()
        invariant
            i <= bs.len(),
            v == boxes_view(bs@),
            match last_of_kind(v.take(i as int), k@) {
                None => found is None,
                Some((s, e)) => found matches Some((fs, fe)) && fs == s && fe == e,
            },
        decreases bs.len() - i,
    {
        assert(v.take(i + 1).drop_last() =~= v.take(i as int));
        if crate::boxes::same_kind(&bs[i].0, k) {
            found = Some((bs[i].1, bs[i].2));
        }
        i = i + 1;
    }
    assert(v.take(bs.len() as int) =~= v);
    found
}

fn read_sizes(moov: &[u8], sps: usize) -> (r: Option<Vec<u32>>)
    ensures
        match sizes_spec(moov@, sps as int) {
            None => r is None,
            Some(s) => r matches Some(v) && v@ == s,
        },
{
    if sps > moov.len() || moov.len() - sps < 12 {
        return None;
    }
    let ss = be32(moov, sps + 4) as u32;
    let count = be32(moov, sps + 8) as usize;
    let mut sizes: Vec<u32> = Vec::new();
    if ss != 0 {
        let mut i: usize = 0;
        while i < count
            invariant
                i <= count,
                sizes@ =~= Seq::new(i as nat, |j: int| ss),
            decreases count - i,
        {
            sizes.push(ss);
            i = i + 1;
        }
        return Some(sizes);
    }
    if count > 0 && (moov.len() - sps - 12) / 4 < count {
        return None;
    }
    assert(sps + 12 + 4 * count <= moov.len()) by (nonlinear_arith)
        requires
            count > 0 ==> (moov.len() - sps - 12) / 4 >= count,
            sps + 12 <= moov.len(),
    ;
    let mut i: usize = 0;
    while i < count
        invariant
            i <= count,
            count == be32_at(moov@, sps + 8),
            sps + 12 + 4 * count <= moov.len(),
            sizes@ =~= Seq::new(i as nat, |j: int| be32_at(moov@, sps + 12 + 4 * j) as u32),
        decreases count - i,
    {
        assert(sps + 12 + 4 * i + 4 <= moov.len()) by (nonlinear_arith)
            requires
                i < count,
                sps + 12 + 4 * count <= moov.len(),
        ;
        sizes.push(be32(moov, sps + 12 + 4 * i) as u32);
        i = i + 1;
    }
    Some(sizes)
}

fn read_chunk_offsets(moov: &[u8], cps: usize, wide: bool) -> (r: Option<Vec<u64>>)
    ensures
        match chunk_offsets_spec(moov@, cps as int, wide) {
            None => r is None,
            Some(s) => r matches Some(v) && v@ == s,
        },
{
    if cps > moov.len() || moov.len() - cps < 8 {
        return None;
    }
    let n = be32(moov, cps + 4) as usize;
    let w: usize = if wide {
        8
    } else {
        4
    };
    if n > 0 && (moov.len() - cps - 8) / w < n {
        return None;
    }
    assert(cps + 8 + w * n <= moov.len()) by (nonlinear_arith)
        requires
            n > 0 ==> (moov.len() - cps - 8) / (w as int) >= n,
            w == 4 || w == 8,
            cps + 8 <= moov.len(),
    ;
    let mut out: Vec<u64> = Vec::new();
    let mut i: usize = 0;
    while i < n
        invariant
            i <= n,
            n == be32_at(moov@, cps + 4),
            w == (if wide {
                8int
            } else {
                4int
            }),
            cps + 8 + w * n <= moov.len(),
            wide ==> out@ =~= Seq::new(i as nat, |j: int| be64_at(moov@, cps + 8 + 8 * j)),
            !wide ==> out@ =~= Seq::new(i as nat, |j: int| be32_at(moov@, cps + 8 + 4 * j)),
        decreases n - i,
    {
        assert(cps + 8 + w * i + w <= moov.len()) by (nonlinear_arith)
            requires
                i < n,
                cps + 8 + w * n <= moov.len(),
                w > 0,
        ;
        if wide {
            out.push(be64(moov, cps + 8 + 8 * i));
        } else {
            out.push(be32(moov, cps + 8 + 4 * i));
        }
        i = i + 1;
    }
    Some(out)
}

fn read_stsc(moov: &[u8], cps: usize) -> (r: Option<Vec<(u64, u64)>>)
    ensures
        match stsc_spec(moov@, cps as int) {
            None => r is None,
            Some(s) => r matches Some(v) && v@ == s,
        },
{
    if cps > moov.len() || moov.len() - cps < 8 {
        return None;
    }
    let n = be32(moov, cps + 4) as usize;
    if n > 0 && (moov.len() - cps - 4) / 12 < n {
        return None;
    }
    assert(n > 0 ==> cps + 4 + 12 * n <= moov.len()) by (nonlinear_arith)
        requires
            n > 0 ==> (moov.len() - cps - 4) / 12 >= n,
            cps + 8 <= moov.len(),
    ;
    let mut out: Vec<(u64, u64)> = Vec::new();
    let mut i: usize = 0;
    while i < n
        invariant
            i <= n,
            n == be32_at(moov@, cps + 4),
            cps + 8 <= moov.len(),
            n > 0 ==> cps + 4 + 12 * n <= moov.len(),
            out@ =~= Seq::new(
                i as nat,
                |j: int| (be32_at(moov@, cps + 8 + 12 * j), be32_at(moov@, cps + 12 + 12 * j)),
            ),
        decreases n - i,
    {
        assert(cps + 16 + 12 * i <= moov.len()) by (nonlinear_arith)
            requires
                i < n,
                cps + 4 + 12 * n <= moov.len(),
        ;
        out.push((be32(moov, cps + 8 + 12 * i), be32(moov, cps + 12 + 12 * i)));
        i = i + 1;
    }
    Some(out)
}

proof fn lemma_chunk_fill_bound(off: int, sizes: Seq<u32>, si: int, k: int)
    requires
        0 <= si <= sizes.len(),
    ensures
        chunk_fill(off, sizes, si, k) matches Some((_, si2)) ==> si <= si2 <= sizes.len(),
    decreases k,
{
    if k <= 0 || si >= sizes.len() {
    } else if off + sizes[si] > u64::MAX {
    } else {
        lemma_chunk_fill_bound(off + sizes[si], sizes, si + 1, k - 1);
    }
}

proof fn lemma_chunks_run_bound(co: Seq<u64>, sizes: Seq<u32>, c: int, last: int, pc: int, si: int)
    requires
        0 <= si <= sizes.len(),
    ensures
        chunks_run(co, sizes, c, last, pc, si) matches Some((_, si2)) ==> si <= si2 <= sizes.len(),
    decreases last - c,
{
    if c >= last {
    } else if c < 0 || c >= co.len() {
    } else {
        lemma_chunk_fill_bound(co[c] as int, sizes, si, pc);
        match chunk_fill(co[c] as int, sizes, si, pc) {
            None => {},
            Some((s1, si1)) => {
                lemma_chunks_run_bound(co, sizes, c + 1, last, pc, si1);
            },
        }
    }
}

fn fill_chunk(out: &mut Vec<(u64, u32)>, off: u64, sizes: &Vec<u32>, si: usize, k: u64) -> (r: Option<usize>)
    requires
        si <= sizes.len(),
    ensures
        match chunk_fill(off as int, sizes@, si as int, k as int) {
            None => r is None,
            Some((s, si2)) => r matches Some(x) && x == si2 && final(out)@ == old(out)@ + s,
        },
{
    let mut cur_off = off;
    let mut cur_si = si;
    let mut j: u64 = 0;
    let ghost start = out@;
    assert(start + seq![] =~= start);
    while j < k && cur_si < sizes.len()
        invariant
            j <= k,
            cur_si <= sizes.len(),
            chunk_fill(off as int, sizes@, si as int, k as int) == match chunk_fill(
                cur_off as int,
                sizes@,
                cur_si as int,
                (k - j) as int,
            ) {
                None => None,
                Some((s, si2)) => Some((out@.skip(start.len() as int) + s, si2)),
            },
            out@.len() >= start.len(),
            out@.take(start.len() as int) == start,
        decreases k - j,
    {
        if cur_off > u64::MAX - sizes[cur_si] as u64 {
            assert(chunk_fill(cur_off as int, sizes@, cur_si as int, (k - j) as int) is None);
            return None;
        }
        let ghost before = out@;
        out.push((cur_off, sizes[cur_si]));
        proof {
            assert(out@.take(start.len() as int) =~= before.take(start.len() as int));
            assert(out@.skip(start.len() as int) =~= before.skip(start.len() as int).push(
                (cur_off, sizes@[cur_si as int]),
            ));
            match chunk_fill(
                cur_off + sizes@[cur_si as int],
                sizes@,
                cur_si + 1,
                (k - j - 1) as int,
            ) {
                None => {},
                Some((s, si2)) => {
                    assert(before.skip(start.len() as int) + (seq![
                        (cur_off, sizes@[cur_si as int]),
                    ] + s) =~= out@.skip(start.len() as int) + s);
                },
            }
        }
        cur_off = cur_off + sizes[cur_si] as u64;
        cur_si = cur_si + 1;
        j = j + 1;
    }
    assert(chunk_fill(cur_off as int, sizes@, cur_si as int, (k - j) as int) == Some(
        (Seq::<(u64, u32)>::empty(), cur_si as int),
    ));
    proof {
        assert(out@ =~= start + out@.skip(start.len() as int));
        assert(out@.skip(start.len() as int) + seq![] =~= out@.skip(start.len() as int));
    }
    Some(cur_si)
}

fn fill_chunks(
    out: &mut Vec<(u64, u32)>,
    co: &Vec<u64>,
    sizes: &Vec<u32>,
    first: u64,
    last: u64,
    pc: u64,
    si: usize,
) -> (r: Option<usize>)
    requires
        si <= sizes.len(),
    ensures
        match chunks_run(co@, sizes@, first as int, last as int, pc as int, si as int) {
            None => r is None,
            Some((s, si2)) => r matches Some(x) && x == si2 && final(out)@ == old(out)@ + s,
        },
{
    let mut c = first;
    let mut cur_si = si;
    let ghost start = out@;
    assert(start + seq![] =~= start);
    while c < last
        invariant
            cur_si <= sizes.len(),
            chunks_run(co@, sizes@, first as int, last as int, pc as int, si as int) == match chunks_run(
                co@,
                sizes@,
                c as int,
                last as int,
                pc as int,
                cur_si as int,
            ) {
                None => None,
                Some((s, si2)) => Some((out@.skip(start.len() as int) + s, si2)),
            },
            out@.len() >= start.len(),
            out@.take(start.len() as int) == start,
        decreases last - c,
    {
        if c >= co.len() as u64 {
            return None;
        }
        let ghost before = out@;
        proof {
            lemma_chunk_fill_bound(co@[c as int] as int, sizes@, cur_si as int, pc as int);
        }
        match fill_chunk(out, co[c as usize], sizes, cur_si, pc) {
            None => {
                return None;
            },
            Some(si1) => {
                proof {
                    let (s1, _x) = chunk_fill(co@[c as int] as int, sizes@, cur_si as int, pc as int).unwrap();
                    assert(out@.take(start.len() as int) =~= before.take(start.len() as int));
                    assert(out@.skip(start.len() as int) =~= before.skip(start.len() as int) + s1);
                    match chunks_run(co@, sizes@, c + 1, last as int, pc as int, si1 as int) {
                        None => {},
                        Some((s2, si2)) => {
                            assert(before.skip(start.len() as int) + (s1 + s2) =~= out@.skip(
                                start.len() as int,
                            ) + s2);
                        },
                    }
                }
                cur_si = si1;
            },
        }
        c = c + 1;
    }
    proof {
        assert(out@ =~= start + out@.skip(start.len() as int));
        assert(out@.skip(start.len() as int) + seq![] =~= out@.skip(start.len() as int));
    }
    Some(cur_si)
}

fn walk_stsc(stsc: &Vec<(u64, u64)>, co: &Vec<u64>, sizes: &Vec<u32>) -> (r: Option<Vec<(u64, u32)>>)
    ensures
        match stsc_walk(stsc@, co@, sizes@, 0, 0) {
            None => r is None,
            Some(s) => r matches Some(v) && v@ == s,
        },
{
    let mut out: Vec<(u64, u32)> = Vec::new();
    let mut si: usize = 0;
    let mut i: usize = 0;
    while i < stsc.len()
        invariant
            i <= stsc.len(),
            si <= sizes.len(),
            stsc_walk(stsc@, co@, sizes@, 0, 0) == match stsc_walk(
                stsc@,
                co@,
                sizes@,
                i as int,
                si as int,
            ) {
                None => None,
                Some(s) => Some(out@ + s),
            },
        decreases stsc.len() - i,
    {
        let (first_chunk, per_chunk) = stsc[i];
        let last: u64;
        if i + 1 < stsc.len() {
            if stsc[i + 1].0 == 0 {
                return None;
            }
            last = stsc[i + 1].0 - 1;
        } else {
            last = co.len() as u64;
        }
        if first_chunk == 0 {
            return None;
        }
        let ghost before = out@;
        proof {
            lemma_chunks_run_bound(co@, sizes@, first_chunk - 1, last as int, per_chunk as int, si as int);
        }
        match fill_chunks(&mut out, co, sizes, first_chunk - 1, last, per_chunk, si) {
            None => {
                return None;
            },
            Some(si1) => {
                proof {
                    let (s1, _x) = chunks_run(
                        co@,
                        sizes@,
                        first_chunk - 1,
                        last as int,
                        per_chunk as int,
                        si as int,
                    ).unwrap();
                    match stsc_walk(stsc@, co@, sizes@, i + 1, si1 as int) {
                        None => {},
                        Some(s2) => {
                            assert(before + (s1 + s2) =~= out@ + s2);
                        },
                    }
                }
                si = si1;
            },
        }
        i = i + 1;
    }
    assert(out@ + seq![] =~= out@);
    Some(out)
}

fn read_table(moov: &[u8], bs: &Vec<BoxEntry>) -> (r: Result<Vec<(u64, u32)>, Mp4Error>)
    ensures
        match table_spec(moov@, boxes_view(bs@)) {
            None => r == Err::<Vec<(u64, u32)>, Mp4Error>(Mp4Error::Malformed),
            Some(Ok(s)) => r matches Ok(v) && v@ == s,
            Some(Err(e)) => r == Err::<Vec<(u64, u32)>, Mp4Error>(e),
        },
{
    let sz = match last_box_of_kind(bs, &fourcc(0x73, 0x74, 0x73, 0x7a)) {
        None => {
            return Err(Mp4Error::MissingStsz);
        },
        Some(sz) => sz,
    };
    let sizes = match read_sizes(moov, sz.0) {
        None => {
            return Err(Mp4Error::Malformed);
        },
        Some(s) => s,
    };
    let co = match last_box_of_kind(bs, &fourcc(0x73, 0x74, 0x63, 0x6f)) {
        Some(c) => read_chunk_offsets(moov, c.0, false),
        None => match last_box_of_kind(bs, &fourcc(0x63, 0x6f, 0x36, 0x34)) {
            Some(c) => read_chunk_offsets(moov, c.0, true),
            None => {
                return Err(Mp4Error::MissingChunkOffsets);
            },
        },
    };
    let co = match co {
        None => {
            return Err(Mp4Error::Malformed);
        },
        Some(co) => co,
    };
    let sc = match last_box_of_kind(bs, &fourcc(0x73, 0x74, 0x73, 0x63)) {
        None => {
            return Err(Mp4Error::MissingStsc);
        },
        Some(sc) => sc,
    };
    let stsc = match read_stsc(moov, sc.0) {
        None => {
            return Err(Mp4Error::Malformed);
        },
        Some(s) => s,
    };
    let samples = match walk_stsc(&stsc, &co, &sizes) {
        None => {
            return Err(Mp4Error::Malformed);
        },
        Some(s) => s,
    };
    if samples.len() != sizes.len() {
        return Err(
            Mp4Error::SampleCountMismatch { walked: samples.len() as u64, count: sizes.len() as u64 },
        );
    }
    Ok(samples)
}

fn is_meta_handler(moov: &[u8], p: usize) -> (r: bool)
    requires
        p + 12 <= moov.len(),
    ensures
        r == (moov@.subrange(p + 8, p + 12) == k_meta()),
{
    let r = moov[p + 8] == 0x6d && moov[p + 9] == 0x65 && moov[p + 10] == 0x74 && moov[p + 11]
        == 0x61;
    proof {
        if r {
            assert(moov@.subrange(p + 8, p + 12) =~= k_meta());
        } else {
            if moov@.subrange(p + 8, p + 12) == k_meta() {
                assert(moov@.subrange(p + 8, p + 12)[0] == moov@[p + 8]);
                assert(moov@.subrange(p + 8, p + 12)[1] == moov@[p + 9]);
                assert(moov@.subrange(p + 8, p + 12)[2] == moov@[p + 10]);
                assert(moov@.subrange(p + 8, p + 12)[3] == moov@[p + 11]);
            }
        }
    }
    r
}

fn read_trak(moov: &[u8], tps: usize, tpe: usize) -> (r: Result<
    Option<Result<Vec<(u64, u32)>, Mp4Error>>,
    Mp4Error,
>)
    ensures
        match trak_spec(moov@, tps as int, tpe as int) {
            None => r is Err,
            Some(None) => r matches Ok(None),
            Some(Some(Ok(s))) => r matches Ok(Some(Ok(v))) && v@ == s,
            Some(Some(Err(e))) => r matches Ok(Some(Err(re))) && re == e,
        },
{
    let p_mdia = [fourcc(0x6d, 0x64, 0x69, 0x61)];
    assert(path_view(p_mdia@) =~= seq![k_mdia()]);
    let mdia = match find_box(moov, tps, tpe, &p_mdia) {
        Err(e) => {
            return Err(e);
        },
        Ok(None) => {
            return Ok(None);
        },
        Ok(Some(m)) => m,
    };
    let p_hdlr = [fourcc(0x68, 0x64, 0x6c, 0x72)];
    assert(path_view(p_hdlr@) =~= seq![k_hdlr()]);
    let hdlr = match find_box(moov, mdia.0, mdia.1, &p_hdlr) {
        Err(e) => {
            return Err(e);
        },
        Ok(None) => {
            return Ok(None);
        },
        Ok(Some(h)) => h,
    };
    if hdlr.0 > usize::MAX - 12 {
        return Err(Mp4Error::Malformed);
    }
    if hdlr.0 + 12 > moov.len() || !is_meta_handler(moov, hdlr.0) {
        return Ok(None);
    }
    let p_stbl = [fourcc(0x6d, 0x69, 0x6e, 0x66), fourcc(0x73, 0x74, 0x62, 0x6c)];
    assert(path_view(p_stbl@) =~= seq![k_minf(), k_stbl()]);
    let stbl = match find_box(moov, mdia.0, mdia.1, &p_stbl) {
        Err(e) => {
            return Err(e);
        },
        Ok(None) => {
            return Ok(None);
        },
        Ok(Some(s)) => s,
    };
    let bs = match walk_boxes(moov, stbl.0, stbl.1) {
        None => {
            return Err(Mp4Error::Malformed);
        },
        Some(bs) => bs,
    };
    match read_table(moov, &bs) {
        Err(Mp4Error::Malformed) => Err(Mp4Error::Malformed),
        r => Ok(Some(r)),
    }
}

/// `(file offset, size)` of every sample of the first `meta`-handler track
/// in the payload `moov[ps..pe]` of the `moov` box (see
/// [`meta_samples_spec`]). `Err(Malformed)` exactly when the structure
/// cannot be walked.
pub fn meta_track_samples(moov: &[u8], ps: usize, pe: usize) -> (r: Result<
    Vec<(u64, u32)>,
    Mp4Error,
>)
    ensures
        match meta_samples_spec(moov@, ps as int, pe as int) {
            None => r == Err::<Vec<(u64, u32)>, Mp4Error>(Mp4Error::Malformed),
            Some(Ok(s)) => r matches Ok(v) && v@ == s,
            Some(Err(e)) => r == Err::<Vec<(u64, u32)>, Mp4Error>(e),
        },
{
    let bs = match walk_boxes(moov, ps, pe) {
        None => {
            return Err(Mp4Error::Malformed);
        },
        Some(bs) => bs,
    };
    let ghost v = boxes_view(bs@);
    let trak = fourcc(0x74, 0x72, 0x61, 0x6b);
    let mut i: usize = 0;
    while i < bs.len()
        invariant
            i <= bs.len(),
            v == boxes_view(bs@),
            trak@ == k_trak(),
            meta_samples_spec(moov@, ps as int, pe as int) == traks_spec(moov@, v, i as int),
        decreases bs.len() - i,
    {
        if crate::boxes::same_kind(&bs[i].0, &trak) {
            match read_trak(moov, bs[i].1, bs[i].2) {
                Err(e) => {
                    return Err(Mp4Error::Malformed);
                },
                Ok(None) => {},
                Ok(Some(r)) => {
                    return r;
                },
            }
        }
        i = i + 1;
    }
    Err(Mp4Error::NoMetaTrack)
}

} // verus!
