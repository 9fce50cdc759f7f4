//! The in-place patch plan: the 4-byte writes that put new quaternion bits
//! into the float slots of the file, in file order, and what applying them
//! does to the file's bytes.
use crate::bytes::{le32_at, le_bytes, lemma_le_bytes_of_le32, to_le_bytes};
use crate::error::Mp4Error;
use crate::scan::{fusion_fold, quat_fold, scan_spec, AttEntry, AttView, FieldView};
use crate::proto::fields_spec;
use vstd::prelude::*;

verus! {

/// A write of four bytes at a file offset.
pub type SlotWrite = (u64, [u8; 4]);

/// The writes at offset `o`, in their order in `ws`.
pub open spec fn at_offset(ws: Seq<SlotWrite>, o: u64) -> Seq<SlotWrite>
    decreases ws.len(),
{
    if ws.len() == 0 {
        seq![]
    } else if ws.last().0 == o {
        at_offset(ws.drop_last(), o).push(ws.last())
    } else {
        at_offset(ws.drop_last(), o)
    }
}

pub proof fn lemma_at_offset_add(a: Seq<SlotWrite>, b: Seq<SlotWrite>, o: u64)
    ensures
        at_offset(a + b, o) == at_offset(a, o) + at_offset(b, o),
    decreases b.len(),
{
    if b.len() == 0 {
        assert(a + b =~= a);
        assert(at_offset(a, o) + at_offset(b, o) =~= at_offset(a, o));
    } else {
        assert((a + b).drop_last() =~= a + b.drop_last());
        lemma_at_offset_add(a, b.drop_last(), o);
        if b.last().0 == o {
            assert(at_offset(a, o) + at_offset(b.drop_last(), o).push(b.last()) =~= (at_offset(
                a,
                o,
            ) + at_offset(b.drop_last(), o)).push(b.last()));
        }
    }
}

pub proof fn lemma_at_offset_none(a: Seq<SlotWrite>, o: u64)
    requires
        forall|j: int| 0 <= j < a.len() ==> a[j].0 != o,
    ensures
        at_offset(a, o) == Seq::<SlotWrite>::empty(),
    decreases a.len(),
{
    if a.len() > 0 {
        lemma_at_offset_none(a.drop_last(), o);
    }
}

pub proof fn lemma_at_offset_single(w: SlotWrite, o: u64)
    ensures
        at_offset(seq![w], o) == (if w.0 == o {
            seq![w]
        } else {
            Seq::<SlotWrite>::empty()
        }),
{
    assert(seq![w].drop_last() =~= Seq::<SlotWrite>::empty());
    assert(seq![w].last() == w);
    assert(at_offset(Seq::<SlotWrite>::empty(), o) =~= Seq::<SlotWrite>::empty());
    if w.0 == o {
        assert(Seq::<SlotWrite>::empty().push(w) =~= seq![w]);
    }
}

/// Every write of `at_offset(ws, o)` is a write of `ws`.
pub proof fn lemma_at_offset_members(ws: Seq<SlotWrite>, o: u64, j: int)
    requires
        0 <= j < at_offset(ws, o).len(),
    ensures
        ws.contains(at_offset(ws, o)[j]),
        at_offset(ws, o)[j].0 == o,
    decreases ws.len(),
{
    if ws.len() > 0 {
        let rest = at_offset(ws.drop_last(), o);
        if j < rest.len() {
            lemma_at_offset_members(ws.drop_last(), o, j);
            let k = choose|k: int| 0 <= k < ws.drop_last().len() && ws.drop_last()[k] == rest[j];
            assert(ws[k] == rest[j]);
        } else {
            assert(ws[ws.len() - 1] == ws.last());
        }
    }
}

/// Writes in nondecreasing offset order.
pub open spec fn sorted_by_offset(ws: Seq<SlotWrite>) -> bool {
    forall|i: int, j: int| 0 <= i < j < ws.len() ==> ws[i].0 <= ws[j].0
}

/// The writes for quaternion slots `i < n` (n the shorter of the two
/// tables), four per slot in component order: component `k` of slot `i`
/// puts the little-endian bytes of `vals[i][k]` at `offs[i][k]`.
pub open spec fn flat_writes(offs: Seq<[u64; 4]>, vals: Seq<[u32; 4]>) -> Seq<SlotWrite> {
    let n = if offs.len() < vals.len() {
        offs.len()
    } else {
        vals.len()
    };
    Seq::new(
        (4 * n) as nat,
        |j: int| (offs[j / 4][j % 4], le_array(vals[j / 4][j % 4])),
    )
}

/// The little-endian bytes of `v` as an array.
pub open spec fn le_array(v: u32) -> [u8; 4] {
    [
        (v % 0x100) as u8,
        ((v / 0x100) % 0x100) as u8,
        ((v / 0x10000) % 0x100) as u8,
        ((v / 0x1000000) % 0x100) as u8,
    ]
}

/// `plan` writes exactly the slot writes of `offs`/`vals`, sorted by file
/// offset, writes at one offset in slot order.
pub open spec fn is_patch_plan(plan: Seq<SlotWrite>, offs: Seq<[u64; 4]>, vals: Seq<[u32; 4]>) -> bool {
    &&& sorted_by_offset(plan)
    &&& forall|o: u64| at_offset(plan, o) == at_offset(flat_writes(offs, vals), o)
}

/// The file after writing the four bytes of `w` at offset `w.0` (a write
/// past the end extends the file, with zero bytes in any gap).
pub open spec fn write_at(file: Seq<u8>, w: SlotWrite) -> Seq<u8> {
    let o = w.0 as int;
    let n = if o + 4 > file.len() {
        o + 4
    } else {
        file.len() as int
    };
    Seq::new(
        n as nat,
        |j: int|
            if o <= j < o + 4 {
                w.1[j - o]
            } else if j < file.len() {
                file[j]
            } else {
                0u8
            },
    )
}

/// The file after the writes of `ws`, in order.
pub open spec fn apply_writes(file: Seq<u8>, ws: Seq<SlotWrite>) -> Seq<u8>
    decreases ws.len(),
{
    if ws.len() == 0 {
        file
    } else {
        write_at(apply_writes(file, ws.drop_last()), ws.last())
    }
}

/// The file already holds the bytes of write `w`.
pub open spec fn holds(file: Seq<u8>, w: SlotWrite) -> bool {
    &&& w.0 + 4 <= file.len()
    &&& file.subrange(w.0 as int, w.0 + 4) == w.1@
}

/// Every slot of `offs`/`vals` already holds its value's bytes in `file`.
pub open spec fn slots_hold(file: Seq<u8>, offs: Seq<[u64; 4]>, vals: Seq<[u32; 4]>) -> bool {
    forall|j: int|
        0 <= j < flat_writes(offs, vals).len() ==> holds(file, #[trigger] flat_writes(offs, vals)[j])
}

/// Writes that all lie within the file and pairwise do not overlap.
pub open spec fn disjoint_in(file: Seq<u8>, ws: Seq<SlotWrite>) -> bool {
    &&& forall|j: int| 0 <= j < ws.len() ==> #[trigger] ws[j].0 + 4 <= file.len()
    &&& forall|i: int, j: int|
        0 <= i < ws.len() && 0 <= j < ws.len() && i != j ==> #[trigger] ws[i].0 + 4 <= #[trigger] ws[j].0
            || ws[j].0 + 4 <= ws[i].0
}

/// Byte `p` lies in the range of write `w`.
pub open spec fn covers(w: SlotWrite, p: int) -> bool {
    w.0 <= p < w.0 + 4
}

proof fn lemma_rewrite_same(file: Seq<u8>, ws: Seq<SlotWrite>)
    requires
        forall|j: int| 0 <= j < ws.len() ==> holds(file, #[trigger] ws[j]),
    ensures
        apply_writes(file, ws) == file,
    decreases ws.len(),
{
    if ws.len() > 0 {
        lemma_rewrite_same(file, ws.drop_last());
        let w = ws.last();
        assert(holds(file, ws[ws.len() - 1]));
        assert forall|j: int| 0 <= j < file.len() implies write_at(file, w)[j] == file[j] by {
            if w.0 <= j < w.0 + 4 {
                assert(file.subrange(w.0 as int, w.0 + 4)[j - w.0] == file[j]);
            }
        }
        assert(write_at(file, w) =~= file);
    }
}

/// A member of the plan is one of the slot writes.
proof fn lemma_plan_member(plan: Seq<SlotWrite>, flat: Seq<SlotWrite>, j: int)
    requires
        0 <= j < plan.len(),
        forall|o: u64| at_offset(plan, o) == at_offset(flat, o),
    ensures
        flat.contains(plan[j]),
{
    lemma_member_at_offset(plan, j);
    let a = at_offset(plan, plan[j].0);
    let k = choose|k: int| 0 <= k < a.len() && a[k] == plan[j];
    assert(at_offset(flat, plan[j].0) == a);
    lemma_at_offset_members(flat, plan[j].0, k);
}

/// Writing back the bytes that the slots already hold leaves the file as it
/// was: a patch whose values are those read from the file is byte-identical.
pub proof fn lemma_null_patch(
    file: Seq<u8>,
    offs: Seq<[u64; 4]>,
    vals: Seq<[u32; 4]>,
    plan: Seq<SlotWrite>,
)
    requires
        is_patch_plan(plan, offs, vals),
        slots_hold(file, offs, vals),
    ensures
        apply_writes(file, plan) == file,
{
    let flat = flat_writes(offs, vals);
    assert forall|j: int| 0 <= j < plan.len() implies holds(file, #[trigger] plan[j]) by {
        lemma_plan_member(plan, flat, j);
        let k = choose|k: int| 0 <= k < flat.len() && flat[k] == plan[j];
        assert(holds(file, flat[k]));
    }
    lemma_rewrite_same(file, plan);
}


proof fn lemma_at_offset_grows(ws: Seq<SlotWrite>, o: u64)
    requires
        ws.len() > 0,
    ensures
        at_offset(ws.drop_last(), o).len() <= at_offset(ws, o).len(),
{
}

proof fn lemma_at_offset_at_most_one(ws: Seq<SlotWrite>, o: u64)
    requires
        forall|i: int, j: int| 0 <= i < ws.len() && 0 <= j < ws.len() && i != j ==> ws[i].0 != ws[j].0,
    ensures
        at_offset(ws, o).len() <= 1,
    decreases ws.len(),
{
    if ws.len() > 0 {
        let d = ws.drop_last();
        lemma_at_offset_at_most_one(d, o);
        if ws.last().0 == o {
            assert forall|j: int| 0 <= j < d.len() implies d[j].0 != o by {
                assert(ws[j].0 != ws[ws.len() - 1].0);
            }
            lemma_at_offset_none(d, o);
        }
    }
}

proof fn lemma_at_offset_two(ws: Seq<SlotWrite>, i: int, j: int)
    requires
        0 <= i < j < ws.len(),
        ws[i].0 == ws[j].0,
    ensures
        at_offset(ws, ws[i].0).len() >= 2,
    decreases ws.len(),
{
    let o = ws[i].0;
    let d = ws.drop_last();
    if j == ws.len() - 1 {
        lemma_member_at_offset(d, i);
        assert(d[i] == ws[i]);
    } else {
        assert(d[i] == ws[i] && d[j] == ws[j]);
        lemma_at_offset_two(d, i, j);
        lemma_at_offset_grows(ws, o);
    }
}

/// The file after pairwise disjoint in-range writes: each write's bytes in
/// its range, the file's bytes elsewhere.
proof fn lemma_apply_disjoint(file: Seq<u8>, ws: Seq<SlotWrite>)
    requires
        disjoint_in(file, ws),
    ensures
        apply_writes(file, ws).len() == file.len(),
        forall|p: int|
            0 <= p < file.len() && (forall|j: int| 0 <= j < ws.len() ==> !covers(#[trigger] ws[j], p))
                ==> apply_writes(file, ws)[p] == file[p],
        forall|j: int, p: int|
            0 <= j < ws.len() && #[trigger] covers(ws[j], p) ==> apply_writes(file, ws)[p]
                == ws[j].1[p - ws[j].0],
    decreases ws.len(),
{
    if ws.len() > 0 {
        let d = ws.drop_last();
        let w = ws.last();
        assert forall|j: int| 0 <= j < d.len() implies #[trigger] d[j].0 + 4 <= file.len() by {
            assert(ws[j].0 + 4 <= file.len());
        }
        assert forall|i: int, j: int|
            0 <= i < d.len() && 0 <= j < d.len() && i != j implies #[trigger] d[i].0 + 4
            <= #[trigger] d[j].0 || d[j].0 + 4 <= d[i].0 by {
            assert(ws[i] == d[i] && ws[j] == d[j]);
        }
        lemma_apply_disjoint(file, d);
        let prev = apply_writes(file, d);
        assert(ws[ws.len() - 1].0 + 4 <= file.len());
        assert forall|p: int|
            0 <= p < file.len() && (forall|j: int| 0 <= j < ws.len() ==> !covers(#[trigger] ws[j], p))
                implies apply_writes(file, ws)[p] == file[p] by {
            assert(!covers(ws[ws.len() - 1], p));
            assert forall|j: int| 0 <= j < d.len() implies !covers(#[trigger] d[j], p) by {
                assert(!covers(ws[j], p));
            }
        }
        assert forall|j: int, p: int|
            0 <= j < ws.len() && #[trigger] covers(ws[j], p) implies apply_writes(file, ws)[p]
                == ws[j].1[p - ws[j].0] by {
            if j < ws.len() - 1 {
                assert(ws[j] == d[j]);
                assert(ws[j].0 + 4 <= w.0 || w.0 + 4 <= ws[j].0);
                assert(covers(d[j], p));
            }
        }
    }
}

/// Number of slots a plan for `offs`/`vals` covers.
pub open spec fn slot_count(offs: Seq<[u64; 4]>, vals: Seq<[u32; 4]>) -> int {
    if offs.len() < vals.len() {
        offs.len() as int
    } else {
        vals.len() as int
    }
}

/// Applying a patch plan whose slots lie in the file and do not overlap
/// writes exactly the new values: reading a slot back gives its new value,
/// and every byte outside the slots is unchanged (round trip of an
/// injection).
pub proof fn lemma_patch_round_trip(
    file: Seq<u8>,
    offs: Seq<[u64; 4]>,
    vals: Seq<[u32; 4]>,
    plan: Seq<SlotWrite>,
)
    requires
        is_patch_plan(plan, offs, vals),
        disjoint_in(file, flat_writes(offs, vals)),
    ensures
        apply_writes(file, plan).len() == file.len(),
        forall|i: int, k: int|
            0 <= i < slot_count(offs, vals) && 0 <= k < 4 ==> le32_at(
                apply_writes(file, plan),
                #[trigger] offs[i][k] as int,
            ) == vals[i][k],
        forall|p: int|
            0 <= p < file.len() && (forall|j: int|
                0 <= j < flat_writes(offs, vals).len() ==> !covers(
                    #[trigger] flat_writes(offs, vals)[j],
                    p,
                )) ==> apply_writes(file, plan)[p] == file[p],
{
    let flat = flat_writes(offs, vals);
    // the plan's writes are slot writes, at pairwise distinct offsets
    assert forall|i: int, j: int|
        0 <= i < flat.len() && 0 <= j < flat.len() && i != j implies flat[i].0 != flat[j].0 by {
        assert(flat[i].0 + 4 <= flat[j].0 || flat[j].0 + 4 <= flat[i].0);
    }
    assert forall|j: int| 0 <= j < plan.len() implies #[trigger] plan[j].0 + 4 <= file.len() by {
        lemma_plan_member(plan, flat, j);
        let a = choose|a: int| 0 <= a < flat.len() && flat[a] == plan[j];
        assert(flat[a].0 + 4 <= file.len());
    }
    assert forall|i: int, j: int|
        0 <= i < plan.len() && 0 <= j < plan.len() && i != j implies #[trigger] plan[i].0 + 4
        <= #[trigger] plan[j].0 || plan[j].0 + 4 <= plan[i].0 by {
        lemma_plan_member(plan, flat, i);
        lemma_plan_member(plan, flat, j);
        let a = choose|a: int| 0 <= a < flat.len() && flat[a] == plan[i];
        let b = choose|b: int| 0 <= b < flat.len() && flat[b] == plan[j];
        if plan[i].0 == plan[j].0 {
            if i < j {
                lemma_at_offset_two(plan, i, j);
            } else {
                lemma_at_offset_two(plan, j, i);
            }
            lemma_at_offset_at_most_one(flat, plan[i].0);
        }
        assert(a != b);
        assert(flat[a].0 + 4 <= flat[b].0 || flat[b].0 + 4 <= flat[a].0);
    }
    assert(disjoint_in(file, plan));
    lemma_apply_disjoint(file, plan);
    let out = apply_writes(file, plan);
    // every slot write is in the plan
    assert forall|i: int, k: int|
        0 <= i < slot_count(offs, vals) && 0 <= k < 4 implies le32_at(
        out,
        #[trigger] offs[i][k] as int,
    ) == vals[i][k] by {
        let j = 4 * i + k;
        assert(j / 4 == i && j % 4 == k) by (nonlinear_arith)
            requires
                j == 4 * i + k,
                0 <= k < 4,
        ;
        assert(0 <= j < flat.len());
        let w = flat[j];
        assert(w == (offs[i][k], le_array(vals[i][k])));
        lemma_member_at_offset(flat, j);
        let a = at_offset(flat, w.0);
        let c = choose|c: int| 0 <= c < a.len() && a[c] == w;
        assert(at_offset(plan, w.0) == a);
        lemma_at_offset_members(plan, w.0, c);
        let q = choose|q: int| 0 <= q < plan.len() && plan[q] == w;
        let o = w.0 as int;
        assert(covers(plan[q], o) && covers(plan[q], o + 1) && covers(plan[q], o + 2) && covers(
            plan[q],
            o + 3,
        ));
        assert(out.subrange(o, o + 4) =~= le_bytes(vals[i][k]));
        crate::bytes::lemma_le32_of_le_bytes(vals[i][k]);
        assert(le32_at(out, o) == le32_at(out.subrange(o, o + 4), 0));
    }
    assert forall|p: int|
        0 <= p < file.len() && (forall|j: int|
            0 <= j < flat.len() ==> !covers(#[trigger] flat[j], p)) implies out[p] == file[p] by {
        assert forall|j: int| 0 <= j < plan.len() implies !covers(#[trigger] plan[j], p) by {
            lemma_plan_member(plan, flat, j);
            let a = choose|a: int| 0 <= a < flat.len() && flat[a] == plan[j];
            assert(!covers(flat[a], p));
        }
    }
}

/// Every present component of `e` points at bytes of `data` (read from
/// file offset `base`) that hold its bits.
pub open spec fn att_from(data: Seq<u8>, base: u64, e: AttView) -> bool {
    &&& e.0.len() == 4 && e.1.len() == 4
    &&& forall|k: int|
        0 <= k < 4 ==> (#[trigger] e.0[k] matches Some(o) ==> base <= o && o - base + 4
            <= data.len() && e.1[k] == le32_at(data, o - base))
}

proof fn lemma_quat_fold_from(data: Seq<u8>, fs: Seq<FieldView>, base: u64)
    ensures
        quat_fold(data, fs, base) matches Some(e) ==> att_from(data, base, e),
    decreases fs.len(),
{
    if fs.len() == 0 {
        let e = crate::scan::empty_att();
        assert forall|k: int| 0 <= k < 4 implies #[trigger] e.0[k] is None by {}
    } else {
        lemma_quat_fold_from(data, fs.drop_last(), base);
        match quat_fold(data, fs.drop_last(), base) {
            None => {},
            Some(e) => {
                let f = fs.last();
                if 1 <= f.0 <= 4 && f.1 == 5 && !(f.2 < 0 || base + f.2 > u64::MAX || f.2 + 4 > data.len()) {
                    let e2 = (
                        e.0.update(f.0 - 1, Some((base + f.2) as u64)),
                        e.1.update(f.0 - 1, le32_at(data, f.2)),
                    );
                    assert(quat_fold(data, fs, base) == Some(e2));
                    assert forall|k: int| 0 <= k < 4 implies (#[trigger] e2.0[k] matches Some(o)
                        ==> base <= o && o - base + 4 <= data.len() && e2.1[k] == le32_at(
                        data,
                        o - base,
                    )) by {
                        if k != f.0 - 1 {
                            assert(e2.0[k] == e.0[k] && e2.1[k] == e.1[k]);
                        }
                    }
                }
            },
        }
    }
}

proof fn lemma_fusion_fold_from(data: Seq<u8>, fs: Seq<FieldView>, base: u64)
    ensures
        fusion_fold(data, fs, base) matches Some((atts, _)) ==> forall|a: int|
            0 <= a < atts.len() ==> att_from(data, base, #[trigger] atts[a]),
    decreases fs.len(),
{
    if fs.len() > 0 {
        lemma_fusion_fold_from(data, fs.drop_last(), base);
        let f = fs.last();
        if f.0 == 3 && f.1 == 2 {
            match fields_spec(data, f.2, f.3) {
                None => {},
                Some(qfs) => {
                    lemma_quat_fold_from(data, qfs, base);
                },
            }
        }
    }
}

/// The quaternion slots that the scan of a sample reports hold, in the
/// file the sample was read from, exactly the bits the scan reports for
/// them: writing the scanned values back changes no byte.
pub proof fn lemma_scanned_slots_hold(file: Seq<u8>, base: u64, data: Seq<u8>)
    requires
        base + data.len() <= file.len(),
        data == file.subrange(base as int, base + data.len()),
    ensures
        scan_spec(data, base) matches Some((_, atts, _)) ==> forall|a: int, k: int|
            0 <= a < atts.len() && 0 <= k < 4 ==> (#[trigger] atts[a].0[k] matches Some(o) ==> holds(
                file,
                (o, le_array(atts[a].1[k])),
            )),
{
    match scan_spec(data, base) {
        None => {},
        Some((_, atts, _)) => {
            if atts.len() > 0 {
                let fm = crate::proto::sub_spec(data, (0, data.len() as int), 3)->0->0;
                let imu = crate::proto::sub_spec(data, fm, 3)->0->0;
                let fusion = crate::proto::sub_spec(data, imu, 2)->0->0;
                let ffs = fields_spec(data, fusion.0, fusion.1)->0;
                lemma_fusion_fold_from(data, ffs, base);
            }
            assert forall|a: int, k: int|
                0 <= a < atts.len() && 0 <= k < 4 implies (#[trigger] atts[a].0[k] matches Some(o)
                ==> holds(file, (o, le_array(atts[a].1[k])))) by {
                if let Some(o) = atts[a].0[k] {
                    assert(att_from(data, base, atts[a]));
                    let p = o - base;
                    lemma_le_bytes_of_le32(data, p);
                    assert(file.subrange(o as int, o + 4) =~= data.subrange(p, p + 4));
                    assert(le_array(atts[a].1[k])@ =~= le_bytes(atts[a].1[k]));
                }
            }
        },
    }
}

/// The four file offsets of a quaternion whose four components are all
/// present; `Err(OmittedField)` otherwise (such a slot cannot be patched in
/// place).
pub fn complete_offsets(e: &AttEntry) -> (r: Result<[u64; 4], Mp4Error>)
    ensures
        match r {
            Ok(o) => forall|k: int| 0 <= k < 4 ==> e.0[k] == Some(#[trigger] o[k]),
            Err(err) => err == Mp4Error::OmittedField && exists|k: int|
                0 <= k < 4 && #[trigger] e.0[k] is None,
        },
{
    match (e.0[0], e.0[1], e.0[2], e.0[3]) {
        (Some(a), Some(b), Some(c), Some(d)) => Ok([a, b, c, d]),
        _ => {
            proof {
                if e.0[0] is None {
                    assert(e.0[0] is None);
                } else if e.0[1] is None {
                    assert(e.0[1] is None);
                } else if e.0[2] is None {
                    assert(e.0[2] is None);
                } else {
                    assert(e.0[3] is None);
                }
            }
            Err(Mp4Error::OmittedField)
        },
    }
}

fn le_array_of(v: u32) -> (r: [u8; 4])
    ensures
        r == le_array(v),
{
    let r = to_le_bytes(v);
    assert(r =~= le_array(v));
    r
}

/// The writes of all slots, unsorted (see [`flat_writes`]).
pub fn flatten_writes(offs: &[[u64; 4]], vals: &[[u32; 4]]) -> (r: Vec<SlotWrite>)
    ensures
        r@ == flat_writes(offs@, vals@),
{
    let n = if offs.len() < vals.len() {
        offs.len()
    } else {
        vals.len()
    };
    let ghost f = flat_writes(offs@, vals@);
    let mut r: Vec<SlotWrite> = Vec::new();
    let mut i: usize = 0;
    while i < n
        invariant
            i <= n,
            n == (if offs.len() < vals.len() {
                offs.len()
            } else {
                vals.len()
            }),
            f == flat_writes(offs@, vals@),
            r@.len() == 4 * i,
            forall|j: int| 0 <= j < 4 * i ==> r@[j] == f[j],
        decreases n - i,
    {
        let mut k: usize = 0;
        while k < 4
            invariant
                i < n,
                k <= 4,
                n == (if offs.len() < vals.len() {
                    offs.len()
                } else {
                    vals.len()
                }),
                f == flat_writes(offs@, vals@),
                r@.len() == 4 * i + k,
                forall|j: int| 0 <= j < 4 * i + k ==> r@[j] == f[j],
            decreases 4 - k,
        {
            let w = (offs[i][k], le_array_of(vals[i][k]));
            proof {
                let j = 4 * i + k;
                assert(j / 4 == i && j % 4 == k) by (nonlinear_arith)
                    requires
                        j == 4 * i + k,
                        0 <= k < 4,
                ;
            }
            r.push(w);
            k = k + 1;
        }
        i = i + 1;
    }
    assert(r@ =~= f);
    r
}

/// Whether `w` is in `at_offset(ws, w.0)` whenever it is in `ws`.
pub proof fn lemma_member_at_offset(ws: Seq<SlotWrite>, j: int)
    requires
        0 <= j < ws.len(),
    ensures
        at_offset(ws, ws[j].0).contains(ws[j]),
    decreases ws.len(),
{
    let o = ws[j].0;
    if j == ws.len() - 1 {
        let a = at_offset(ws, o);
        assert(a[a.len() - 1] == ws[j]);
    } else {
        lemma_member_at_offset(ws.drop_last(), j);
        let rest = at_offset(ws.drop_last(), o);
        let k = choose|k: int| 0 <= k < rest.len() && rest[k] == ws[j];
        if ws.last().0 == o {
            assert(at_offset(ws, o)[k] == ws[j]);
        }
    }
}

/// Sorts writes by offset, keeping the order of writes at the same offset.
#[verifier::rlimit(40)]
pub fn sort_writes(ws: &Vec<SlotWrite>) -> (r: Vec<SlotWrite>)
    ensures
        sorted_by_offset(r@),
        forall|o: u64| at_offset(r@, o) == at_offset(ws@, o),
{
    let mut r: Vec<SlotWrite> = Vec::new();
    let mut i: usize = 0;
    while i < ws.len()
        invariant
            i <= ws.len(),
            sorted_by_offset(r@),
            forall|o: u64| at_offset(r@, o) == at_offset(ws@.take(i as int), o),
        decreases ws.len() - i,
    {
        let x = ws[i];
        let mut p = r.len();
        while p > 0 && r[p - 1].0 > x.0
            invariant
                p <= r.len(),
                forall|j: int| p <= j < r.len() ==> r@[j].0 > x.0,
            decreases p,
        {
            p = p - 1;
        }
        let ghost old_r = r@;
        proof {
            assert forall|j: int| 0 <= j < p implies old_r[j].0 <= x.0 by {
                if j < p - 1 {
                    assert(old_r[j].0 <= old_r[p - 1].0);
                }
            }
        }
        r.insert(p, x);
        proof {
            let lo = old_r.subrange(0, p as int);
            let hi = old_r.subrange(p as int, old_r.len() as int);
            assert(old_r =~= lo + hi);
            assert(r@ =~= lo + seq![x] + hi);
            assert(ws@.take(i + 1) =~= ws@.take(i as int).push(x));
            assert forall|o: u64| at_offset(r@, o) == at_offset(ws@.take(i + 1), o) by {
                lemma_at_offset_add(lo + seq![x], hi, o);
                lemma_at_offset_add(lo, seq![x], o);
                lemma_at_offset_add(lo, hi, o);
                lemma_at_offset_single(x, o);
                assert(ws@.take(i + 1).drop_last() =~= ws@.take(i as int));
                if o == x.0 {
                    lemma_at_offset_none(hi, o);
                    assert(at_offset(lo, o) + seq![x] + Seq::<SlotWrite>::empty() =~= (at_offset(
                        lo,
                        o,
                    ) + Seq::<SlotWrite>::empty()).push(x));
                } else {
                    assert(at_offset(lo, o) + Seq::<SlotWrite>::empty() =~= at_offset(lo, o));
                }
            }
            assert forall|a: int, b: int| 0 <= a < b < r@.len() implies r@[a].0 <= r@[b].0 by {
                if a < p && b < p {
                } else if a < p && b == p {
                } else if a < p {
                    assert(r@[b] == old_r[b - 1]);
                } else if a == p {
                    assert(r@[b] == old_r[b - 1]);
                } else {
                    assert(r@[a] == old_r[a - 1] && r@[b] == old_r[b - 1]);
                }
            }
        }
        i = i + 1;
    }
    assert(ws@.take(ws.len() as int) =~= ws@);
    r
}

/// The patch plan: the writes of all slots `i < min(offs.len(), vals.len())`
/// (component `k` of slot `i` puts the little-endian bytes of `vals[i][k]`
/// at `offs[i][k]`), sorted by file offset; writes at the same offset keep
/// their slot order.
pub fn slot_writes(offs: &[[u64; 4]], vals: &[[u32; 4]]) -> (r: Vec<SlotWrite>)
    ensures
        is_patch_plan(r@, offs@, vals@),
{
    let flat = flatten_writes(offs, vals);
    sort_writes(&flat)
}

} // verus!
