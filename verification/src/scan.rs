//! Scan of one telemetry sample of the `meta` track: frame timestamp, the
//! attitude quaternions with the absolute file offsets of their four float
//! payloads, and the attitude offset field. Floats are carried as their
//! IEEE-754 bit patterns (the little-endian `u32` of their four bytes).
use crate::bytes::{le32, le32_at};
use crate::error::Mp4Error;
use crate::proto::{fields, fields_spec, fields_view, read_varint, sub_spec, varint_spec};
use vstd::prelude::*;

verus! {

/// One attitude quaternion: for each of w, x, y, z the absolute file offset
/// of its 4-byte payload (if the field is present) and its bits.
pub type AttEntry = ([Option<u64>; 4], [u32; 4]);

pub type AttView = (Seq<Option<u64>>, Seq<u32>);

pub open spec fn att_view(e: AttEntry) -> AttView {
    (e.0@, e.1@)
}

pub open spec fn atts_view(v: Seq<AttEntry>) -> Seq<AttView> {
    v.map_values(|e: AttEntry| att_view(e))
}

pub type FieldView = (u64, u8, int, int);

/// Frame timestamp carried by the header fields: the value of the last
/// field 2 of wire type 0.
pub open spec fn ts_fold(data: Seq<u8>, fs: Seq<FieldView>) -> Option<Option<u64>>
    decreases fs.len(),
{
    if fs.len() == 0 {
        Some(None)
    } else {
        match ts_fold(data, fs.drop_last()) {
            None => None,
            Some(prev) => {
                let f = fs.last();
                if f.0 == 2 && f.1 == 0 {
                    match varint_spec(data, f.2) {
                        None => None,
                        Some((v, _)) => Some(Some(v)),
                    }
                } else {
                    Some(prev)
                }
            },
        }
    }
}

pub open spec fn empty_att() -> AttView {
    (seq![None, None, None, None], seq![0u32, 0u32, 0u32, 0u32])
}

/// The quaternion assembled from the fields of its message: field k (1 to
/// 4) of wire type 5 gives component k-1; a later occurrence replaces an
/// earlier one. `None` when an offset overflows `u64` or a payload runs
/// past the data.
pub open spec fn quat_fold(data: Seq<u8>, fs: Seq<FieldView>, base: u64) -> Option<AttView>
    decreases fs.len(),
{
    if fs.len() == 0 {
        Some(empty_att())
    } else {
        match quat_fold(data, fs.drop_last(), base) {
            None => None,
            Some(e) => {
                let f = fs.last();
                if 1 <= f.0 <= 4 && f.1 == 5 {
                    if f.2 < 0 || base + f.2 > u64::MAX || f.2 + 4 > data.len() {
                        None
                    } else {
                        Some(
                            (
                                e.0.update(f.0 - 1, Some((base + f.2) as u64)),
                                e.1.update(f.0 - 1, le32_at(data, f.2)),
                            ),
                        )
                    }
                } else {
                    Some(e)
                }
            },
        }
    }
}

pub open spec fn quat_spec(data: Seq<u8>, ps: int, pe: int, base: u64) -> Option<AttView> {
    match fields_spec(data, ps, pe) {
        None => None,
        Some(qfs) => quat_fold(data, qfs, base),
    }
}

/// Quaternions (field 3, length-delimited) and attitude offset (field 4,
/// wire type 5, last one wins) of the fusion message.
pub open spec fn fusion_fold(data: Seq<u8>, fs: Seq<FieldView>, base: u64) -> Option<
    (Seq<AttView>, u32),
>
    decreases fs.len(),
{
    if fs.len() == 0 {
        Some((seq![], 0u32))
    } else {
        match fusion_fold(data, fs.drop_last(), base) {
            None => None,
            Some((atts, off)) => {
                let f = fs.last();
                if f.0 == 4 && f.1 == 5 {
                    if f.2 + 4 > data.len() {
                        None
                    } else {
                        Some((atts, le32_at(data, f.2)))
                    }
                } else if f.0 == 3 && f.1 == 2 {
                    match quat_spec(data, f.2, f.3, base) {
                        None => None,
                        Some(e) => Some((atts.push(e), off)),
                    }
                } else {
                    Some((atts, off))
                }
            },
        }
    }
}

/// The frame timestamp of the frame message's header (field 1 of the frame
/// message, field 3 of the sample), `Some(None)` without one.
pub open spec fn frame_ts_spec(data: Seq<u8>, fm: (int, int)) -> Option<Option<u64>> {
    match sub_spec(data, fm, 1) {
        None => None,
        Some(None) => Some(None),
        Some(Some(hdr)) => match fields_spec(data, hdr.0, hdr.1) {
            None => None,
            Some(hfs) => ts_fold(data, hfs),
        },
    }
}

/// What the scan of a sample at file offset `base` yields: frame
/// timestamp, quaternions of the fusion message (field 2 of the IMU
/// message, field 3 of the frame message) and attitude offset. A missing
/// message yields no quaternions and offset 0. `None` when the bytes
/// cannot be scanned.
pub open spec fn scan_spec(data: Seq<u8>, base: u64) -> Option<(Option<u64>, Seq<AttView>, u32)> {
    match sub_spec(data, (0, data.len() as int), 3) {
        None => None,
        Some(None) => Some((None, seq![], 0u32)),
        Some(Some(fm)) => match frame_ts_spec(data, fm) {
            None => None,
            Some(ts) => match sub_spec(data, fm, 3) {
                None => None,
                Some(None) => Some((ts, seq![], 0u32)),
                Some(Some(imu)) => match sub_spec(data, imu, 2) {
                    None => None,
                    Some(None) => Some((ts, seq![], 0u32)),
                    Some(Some(fusion)) => match fields_spec(data, fusion.0, fusion.1) {
                        None => None,
                        Some(ffs) => match fusion_fold(data, ffs, base) {
                            None => None,
                            Some((atts, off)) => Some((ts, atts, off)),
                        },
                    },
                },
            },
        },
    }
}

/// The length-delimited fields numbered 3 of a field list, in order.
pub open spec fn quat_fields(fs: Seq<FieldView>) -> Seq<FieldView> {
    fs.filter(|f: FieldView| f.0 == 3 && f.1 == 2)
}

/// The quaternions gathered from a fusion field list are one per
/// length-delimited field 3, in order, each built from its own field.
pub proof fn lemma_fusion_one_quat_per_field(data: Seq<u8>, fs: Seq<FieldView>, base: u64)
    ensures
        fusion_fold(data, fs, base) matches Some((atts, _)) ==> {
            &&& atts.len() == quat_fields(fs).len()
            &&& forall|a: int|
                0 <= a < atts.len() ==> quat_spec(
                    data,
                    #[trigger] quat_fields(fs)[a].2,
                    quat_fields(fs)[a].3,
                    base,
                ) == Some(atts[a])
        },
    decreases fs.len(),
{
    reveal(Seq::filter);
    if fs.len() > 0 {
        lemma_fusion_one_quat_per_field(data, fs.drop_last(), base);
        let q0 = quat_fields(fs.drop_last());
        let q = quat_fields(fs);
        let f = fs.last();
        if f.0 == 3 && f.1 == 2 {
            assert(q == q0.push(f));
        } else {
            assert(q == q0);
        }
    }
}

/// A scanned sample yields exactly one quaternion for each length-delimited
/// field 3 of its fusion message (field 2 of the IMU message, field 3 of
/// the frame message), in order, the `a`-th built from the `a`-th such
/// field whatever its values.
pub proof fn lemma_scan_one_quat_per_field(
    data: Seq<u8>,
    base: u64,
    fm: (int, int),
    imu: (int, int),
    fusion: (int, int),
    ffs: Seq<FieldView>,
)
    requires
        sub_spec(data, (0, data.len() as int), 3) == Some(Some(fm)),
        sub_spec(data, fm, 3) == Some(Some(imu)),
        sub_spec(data, imu, 2) == Some(Some(fusion)),
        fields_spec(data, fusion.0, fusion.1) == Some(ffs),
        scan_spec(data, base) is Some,
    ensures
        scan_spec(data, base) matches Some((_, atts, _)) && atts.len() == quat_fields(ffs).len()
            && (forall|a: int|
            0 <= a < atts.len() ==> quat_spec(
                data,
                #[trigger] quat_fields(ffs)[a].2,
                quat_fields(ffs)[a].3,
                base,
            ) == Some(atts[a])),
{
    lemma_fusion_one_quat_per_field(data, ffs, base);
}

/// A scanned sample of the meta track.
pub struct ScanSample {
    pub offset: u64,
    pub size: u32,
    pub frame_ts: Option<u64>,
    pub atts: Vec<AttEntry>,
    /// Bits of the attitude offset float.
    pub att_offset: u32,
}

fn frame_ts(data: &[u8], hdr: (usize, usize)) -> (r: Option<Option<u64>>)
    ensures
        r == match fields_spec(data@, hdr.0 as int, hdr.1 as int) {
            None => None,
            Some(hfs) => ts_fold(data@, hfs),
        },
{
    let fs = match fields(data, hdr.0, hdr.1) {
        Some(fs) => fs,
        None => {
            return None;
        },
    };
    let ghost v = fields_view(fs@);
    let mut ts: Option<u64> = None;
    let mut i: usize = 0;
    assert(v.take(0) =~= seq![]);
    while i < fs.len()
        invariant
            i <= fs.len(),
            v == fields_view(fs@),
            fields_spec(data@, hdr.0 as int, hdr.1 as int) == Some(v),
            ts_fold(data@, v.take(i as int)) == Some(ts),
        decreases fs.len() - i,
    {
        let (fno, wt, ps, _) = fs[i];
        assert(v.take(i + 1).drop_last() =~= v.take(i as int));
        assert(v.take(i + 1).last() == (fno, wt, ps as int, fs@[i as int].3 as int));
        if fno == 2 && wt == 0 {
            match read_varint(data, ps) {
                Some((val, _)) => {
                    ts = Some(val);
                },
                None => {
                    assert(ts_fold(data@, v.take(i + 1)) is None);
                    assert(v.take(fs.len() as int) =~= v);
                    proof {
                        lemma_ts_fold_none_extends(data@, v, (i + 1) as int);
                    }
                    return None;
                },
            }
        }
        i = i + 1;
    }
    assert(v.take(fs.len() as int) =~= v);
    Some(ts)
}

/// Once the timestamp fold fails on a prefix it fails on the whole.
proof fn lemma_ts_fold_none_extends(data: Seq<u8>, v: Seq<FieldView>, n: int)
    requires
        0 <= n <= v.len(),
        ts_fold(data, v.take(n)) is None,
    ensures
        ts_fold(data, v) is None,
    decreases v.len() - n,
{
    if n < v.len() {
        assert(v.take(n + 1).drop_last() =~= v.take(n));
        lemma_ts_fold_none_extends(data, v, n + 1);
    } else {
        assert(v.take(n) =~= v);
    }
}

proof fn lemma_quat_fold_none_extends(data: Seq<u8>, v: Seq<FieldView>, base: u64, n: int)
    requires
        0 <= n <= v.len(),
        quat_fold(data, v.take(n), base) is None,
    ensures
        quat_fold(data, v, base) is None,
    decreases v.len() - n,
{
    if n < v.len() {
        assert(v.take(n + 1).drop_last() =~= v.take(n));
        lemma_quat_fold_none_extends(data, v, base, n + 1);
    } else {
        assert(v.take(n) =~= v);
    }
}

proof fn lemma_fusion_fold_none_extends(data: Seq<u8>, v: Seq<FieldView>, base: u64, n: int)
    requires
        0 <= n <= v.len(),
        fusion_fold(data, v.take(n), base) is None,
    ensures
        fusion_fold(data, v, base) is None,
    decreases v.len() - n,
{
    if n < v.len() {
        assert(v.take(n + 1).drop_last() =~= v.take(n));
        lemma_fusion_fold_none_extends(data, v, base, n + 1);
    } else {
        assert(v.take(n) =~= v);
    }
}

fn quat_entry(data: &[u8], ps: usize, pe: usize, base: u64) -> (r: Option<AttEntry>)
    ensures
        match r {
            Some(e) => quat_spec(data@, ps as int, pe as int, base) == Some(att_view(e)),
            None => quat_spec(data@, ps as int, pe as int, base) is None,
        },
{
    let fs = match fields(data, ps, pe) {
        Some(fs) => fs,
        None => {
            return None;
        },
    };
    let ghost v = fields_view(fs@);
    let mut offs: [Option<u64>; 4] = [None, None, None, None];
    let mut vals: [u32; 4] = [0, 0, 0, 0];
    let mut i: usize = 0;
    assert(v.take(0) =~= seq![]);
    assert(att_view((offs, vals)) =~= empty_att());
    while i < fs.len()
        invariant
            i <= fs.len(),
            v == fields_view(fs@),
            fields_spec(data@, ps as int, pe as int) == Some(v),
            quat_fold(data@, v.take(i as int), base) == Some(att_view((offs, vals))),
        decreases fs.len() - i,
    {
        let (qf, qwt, qps, _) = fs[i];
        assert(v.take(i + 1).drop_last() =~= v.take(i as int));
        assert(v.take(i + 1).last() == (qf, qwt, qps as int, fs@[i as int].3 as int));
        if 1 <= qf && qf <= 4 && qwt == 5 {
            if base > u64::MAX - qps as u64 || qps > data.len() || data.len() - qps < 4 {
                assert(quat_fold(data@, v.take(i + 1), base) is None);
                proof {
                    lemma_quat_fold_none_extends(data@, v, base, (i + 1) as int);
                }
                return None;
            }
            let k = (qf - 1) as usize;
            let ghost old_e = att_view((offs, vals));
            offs[k] = Some(base + qps as u64);
            vals[k] = le32(data, qps);
            assert(att_view((offs, vals)).0 =~= old_e.0.update(k as int, Some(
                (base + qps) as u64,
            )));
            assert(att_view((offs, vals)).1 =~= old_e.1.update(k as int, le32_at(data@, qps as int)));
        }
        i = i + 1;
    }
    assert(v.take(fs.len() as int) =~= v);
    Some((offs, vals))
}

/// Scans one sample (`data`, read from file offset `base_off`); see
/// [`scan_spec`]. `Err(Malformed)` exactly when the bytes cannot be
/// scanned.
pub fn scan_sample(data: &[u8], base_off: u64) -> (r: Result<
    (Option<u64>, Vec<AttEntry>, u32),
    Mp4Error,
>)
    ensures
        match scan_spec(data@, base_off) {
            None => r is Err && r == Err::<(Option<u64>, Vec<AttEntry>, u32), Mp4Error>(
                Mp4Error::Malformed,
            ),
            Some((ts, atts, off)) => r matches Ok((rts, ratts, roff)) && rts == ts && atts_view(
                ratts@,
            ) == atts && roff == off,
        },
{
    let fm = match crate::proto::sub(data, (0, data.len()), 3) {
        Err(e) => {
            return Err(e);
        },
        Ok(None) => {
            let none: Vec<AttEntry> = Vec::new();
            assert(atts_view(none@) =~= seq![]);
            return Ok((None, none, 0));
        },
        Ok(Some(fm)) => fm,
    };
    let frame_ts: Option<u64> = match crate::proto::sub(data, fm, 1) {
        Err(e) => {
            return Err(e);
        },
        Ok(None) => None,
        Ok(Some(hdr)) => match frame_ts(data, hdr) {
            Some(ts) => ts,
            None => {
                return Err(Mp4Error::Malformed);
            },
        },
    };
    assert(frame_ts_spec(data@, (fm.0 as int, fm.1 as int)) == Some(frame_ts));
    let imu = match crate::proto::sub(data, fm, 3) {
        Err(e) => {
            return Err(e);
        },
        Ok(None) => {
            let none: Vec<AttEntry> = Vec::new();
            assert(atts_view(none@) =~= seq![]);
            return Ok((frame_ts, none, 0));
        },
        Ok(Some(imu)) => imu,
    };
    let fusion = match crate::proto::sub(data, imu, 2) {
        Err(e) => {
            return Err(e);
        },
        Ok(None) => {
            let none: Vec<AttEntry> = Vec::new();
            assert(atts_view(none@) =~= seq![]);
            return Ok((frame_ts, none, 0));
        },
        Ok(Some(fusion)) => fusion,
    };
    let fs = match fields(data, fusion.0, fusion.1) {
        Some(fs) => fs,
        None => {
            return Err(Mp4Error::Malformed);
        },
    };
    let ghost v = fields_view(fs@);
    let mut atts: Vec<AttEntry> = Vec::new();
    let mut att_offset: u32 = 0;
    let mut i: usize = 0;
    assert(v.take(0) =~= seq![]);
    assert(atts_view(atts@) =~= seq![]);
    assert(scan_spec(data@, base_off) == match fusion_fold(data@, v, base_off) {
        None => None,
        Some((a, o)) => Some((frame_ts, a, o)),
    });
    while i < fs.len()
        invariant
            i <= fs.len(),
            v == fields_view(fs@),
            scan_spec(data@, base_off) == match fusion_fold(data@, v, base_off) {
                None => None,
                Some((a, o)) => Some((frame_ts, a, o)),
            },
            fusion_fold(data@, v.take(i as int), base_off) == Some((atts_view(atts@), att_offset)),
        decreases fs.len() - i,
    {
        let (fno, wt, ps, pe) = fs[i];
        assert(v.take(i + 1).drop_last() =~= v.take(i as int));
        assert(v.take(i + 1).last() == (fno, wt, ps as int, pe as int));
        if fno == 4 && wt == 5 {
            if ps > data.len() || data.len() - ps < 4 {
                assert(fusion_fold(data@, v.take(i + 1), base_off) is None);
                proof {
                    lemma_fusion_fold_none_extends(data@, v, base_off, (i + 1) as int);
                }
                return Err(Mp4Error::Malformed);
            }
            att_offset = le32(data, ps);
        }
        if fno == 3 && wt == 2 {
            match quat_entry(data, ps, pe, base_off) {
                Some(e) => {
                    let ghost old_atts = atts@;
                    atts.push(e);
                    assert(atts_view(atts@) =~= atts_view(old_atts).push(att_view(e)));
                },
                None => {
                    assert(fusion_fold(data@, v.take(i + 1), base_off) is None);
                    proof {
                        lemma_fusion_fold_none_extends(data@, v, base_off, (i + 1) as int);
                    }
                    return Err(Mp4Error::Malformed);
                },
            }
        }
        i = i + 1;
    }
    assert(v.take(fs.len() as int) =~= v);
    Ok((frame_ts, atts, att_offset))
}

} // verus!
