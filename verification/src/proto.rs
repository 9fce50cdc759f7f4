//! Protobuf wire-format scanning (wire types 0, 1, 2 and 5) over a buffer.
use crate::boxes::prepend;
use crate::error::Mp4Error;
use vstd::prelude::*;

verus! {

/// Continues decoding a varint whose first `k` bytes (from `pos`) gave
/// `acc`: byte `k` contributes its low seven bits at bit `7k`; a byte
/// without the continuation bit ends the varint. `None` when the bytes run
/// past the buffer or an eleventh byte would be needed (its shift, 70, is
/// out of range for 64 bits).
pub open spec fn varint_from(buf: Seq<u8>, pos: int, k: int, acc: u64) -> Option<(u64, int)>
    decreases 10 - k,
{
    if k < 0 || k >= 10 || pos < 0 || pos + k >= buf.len() {
        None
    } else {
        let b = buf[pos + k];
        let acc2 = acc | (((b & 0x7f) as u64) << ((7 * k) as u32));
        if b & 0x80 == 0 {
            Some((acc2, pos + k + 1))
        } else {
            varint_from(buf, pos, k + 1, acc2)
        }
    }
}

/// The varint at `pos`: its value and the position after it.
pub open spec fn varint_spec(buf: Seq<u8>, pos: int) -> Option<(u64, int)> {
    varint_from(buf, pos, 0, 0)
}

pub proof fn lemma_varint_from_advances(buf: Seq<u8>, pos: int, k: int, acc: u64)
    ensures
        varint_from(buf, pos, k, acc) matches Some((_, np)) ==> pos + k < np <= buf.len(),
    decreases 10 - k,
{
    if k < 0 || k >= 10 || pos < 0 || pos + k >= buf.len() {
    } else {
        let b = buf[pos + k];
        let acc2 = acc | (((b & 0x7f) as u64) << ((7 * k) as u32));
        if b & 0x80 != 0 {
            lemma_varint_from_advances(buf, pos, k + 1, acc2);
        }
    }
}

/// A varint ends after its start and within the buffer.
pub proof fn lemma_varint_advances(buf: Seq<u8>, pos: int)
    ensures
        varint_spec(buf, pos) matches Some((_, np)) ==> pos < np <= buf.len(),
{
    lemma_varint_from_advances(buf, pos, 0, 0);
}

/// Reads the varint at `pos` (see [`varint_spec`]).
pub fn read_varint(buf: &[u8], pos: usize) -> (r: Option<(u64, usize)>)
    ensures
        match r {
            Some((v, np)) => varint_spec(buf@, pos as int) == Some((v, np as int)),
            None => varint_spec(buf@, pos as int) is None,
        },
{
    let mut val: u64 = 0;
    let mut shift: u32 = 0;
    let mut p = pos;
    let ghost mut k: int = 0;
    loop
        invariant
            0 <= k < 10,
            p == pos + k,
            shift == 7 * k,
            varint_spec(buf@, pos as int) == varint_from(buf@, pos as int, k, val),
        decreases 10 - k,
    {
        if p >= buf.len() {
            return None;
        }
        let b = buf[p];
        val = val | (((b & 0x7f) as u64) << shift);
        p = p + 1;
        if b & 0x80 == 0 {
            return Some((val, p));
        }
        if shift == 63 {
            proof {
                assert(varint_from(buf@, pos as int, k + 1, val) is None);
            }
            return None;
        }
        shift = shift + 7;
        proof {
            k = k + 1;
        }
    }
}

/// A scanned field: number, wire type, payload start and end. For wire
/// type 2 the payload is the length-delimited body; for 0 it is the value
/// varint; for 1 and 5 the 8 or 4 fixed bytes.
pub type Field = (u64, u8, usize, usize);

pub open spec fn field_view(f: Field) -> (u64, u8, int, int) {
    (f.0, f.1, f.2 as int, f.3 as int)
}

pub open spec fn fields_view(v: Seq<Field>) -> Seq<(u64, u8, int, int)> {
    v.map_values(|f: Field| field_view(f))
}

/// The fields scanned from `pos` while `pos < end`. A field's payload may
/// reach past `end`; the scan then stops after it. `None` when a varint
/// cannot be read, a position overflows `usize`, or a key has a wire type
/// other than 0, 1, 2 or 5.
pub open spec fn fields_spec(buf: Seq<u8>, pos: int, end: int) -> Option<Seq<(u64, u8, int, int)>>
    decreases usize::MAX - pos,
{
    if pos < 0 || pos > usize::MAX {
        None
    } else if pos >= end {
        Some(seq![])
    } else {
        match varint_spec(buf, pos) {
            None => None,
            Some((key, np)) => {
                proof {
                    lemma_varint_advances(buf, pos);
                }
                let fno = key / 8;
                let wt = key % 8;
                if wt == 0 {
                    match varint_spec(buf, np) {
                        None => None,
                        Some((_, np2)) => {
                            proof {
                                lemma_varint_advances(buf, np);
                            }
                            if np2 > usize::MAX {
                                None
                            } else {
                                prepend(seq![(fno, 0u8, np, np2)], fields_spec(buf, np2, end))
                            }
                        },
                    }
                } else if wt == 1 {
                    if np + 8 > usize::MAX {
                        None
                    } else {
                        prepend(seq![(fno, 1u8, np, np + 8)], fields_spec(buf, np + 8, end))
                    }
                } else if wt == 2 {
                    match varint_spec(buf, np) {
                        None => None,
                        Some((ln, np2)) => {
                            proof {
                                lemma_varint_advances(buf, np);
                            }
                            if np2 + ln > usize::MAX {
                                None
                            } else {
                                prepend(
                                    seq![(fno, 2u8, np2, np2 + ln)],
                                    fields_spec(buf, np2 + ln, end),
                                )
                            }
                        },
                    }
                } else if wt == 5 {
                    if np + 4 > usize::MAX {
                        None
                    } else {
                        prepend(seq![(fno, 5u8, np, np + 4)], fields_spec(buf, np + 4, end))
                    }
                } else {
                    None
                }
            },
        }
    }
}

/// Scans the protobuf fields of `buf[start..end]` (see [`fields_spec`]).
pub fn fields(buf: &[u8], start: usize, end: usize) -> (r: Option<Vec<Field>>)
    ensures
        match r {
            Some(v) => fields_spec(buf@, start as int, end as int) == Some(fields_view(v@)),
            None => fields_spec(buf@, start as int, end as int) is None,
        },
{
    let mut out: Vec<Field> = Vec::new();
    let mut pos = start;
    loop
        invariant
            fields_spec(buf@, start as int, end as int) == prepend(
                fields_view(out@),
                fields_spec(buf@, pos as int, end as int),
            ),
        decreases usize::MAX - pos,
    {
        proof {
            assert(fields_view(out@) + seq![] =~= fields_view(out@));
        }
        if pos >= end {
            return Some(out);
        }
        let (key, np) = match read_varint(buf, pos) {
            Some(kv) => kv,
            None => {
                return None;
            },
        };
        proof {
            lemma_varint_advances(buf@, pos as int);
        }
        assert((key >> 3) == key / 8 && (key & 7) == key % 8 && (key & 7) < 8) by (bit_vector);
        let fno = key >> 3;
        let wt = (key & 7) as u8;
        let ghost old_out = out@;
        let entry: Field;
        let next: usize;
        if wt == 0 {
            let (_, np2) = match read_varint(buf, np) {
                Some(kv) => kv,
                None => {
                    return None;
                },
            };
            proof {
                lemma_varint_advances(buf@, np as int);
            }
            entry = (fno, 0, np, np2);
            next = np2;
        } else if wt == 1 {
            if np > usize::MAX - 8 {
                return None;
            }
            entry = (fno, 1, np, np + 8);
            next = np + 8;
        } else if wt == 2 {
            let (ln, np2) = match read_varint(buf, np) {
                Some(kv) => kv,
                None => {
                    return None;
                },
            };
            proof {
                lemma_varint_advances(buf@, np as int);
            }
            if ln > (usize::MAX - np2) as u64 {
                return None;
            }
            entry = (fno, 2, np2, np2 + ln as usize);
            next = np2 + ln as usize;
        } else if wt == 5 {
            if np > usize::MAX - 4 {
                return None;
            }
            entry = (fno, 5, np, np + 4);
            next = np + 4;
        } else {
            return None;
        }
        out.push(entry);
        proof {
            assert(fields_view(out@) =~= fields_view(old_out) + seq![field_view(entry)]);
            match fields_spec(buf@, next as int, end as int) {
                Some(s) => {
                    assert(fields_view(old_out) + (seq![field_view(entry)] + s) =~= fields_view(
                        out@,
                    ) + s);
                },
                None => {},
            }
        }
        pos = next;
    }
}

/// The payload span of the first length-delimited field numbered
/// `field_no` in `fs`.
pub open spec fn first_sub(fs: Seq<(u64, u8, int, int)>, field_no: u64) -> Option<(int, int)>
    decreases fs.len(),
{
    if fs.len() == 0 {
        None
    } else if fs[0].0 == field_no && fs[0].1 == 2 {
        Some((fs[0].2, fs[0].3))
    } else {
        first_sub(fs.drop_first(), field_no)
    }
}

/// The payload span of the first length-delimited field `field_no` among
/// the fields of `span`; `Some(None)` when there is none, `None` when the
/// span cannot be scanned.
pub open spec fn sub_spec(buf: Seq<u8>, span: (int, int), field_no: u64) -> Option<
    Option<(int, int)>,
> {
    match fields_spec(buf, span.0, span.1) {
        None => None,
        Some(fs) => Some(first_sub(fs, field_no)),
    }
}

proof fn lemma_first_sub_earliest(fs: Seq<(u64, u8, int, int)>, field_no: u64, i: int)
    requires
        0 <= i < fs.len(),
        fs[i].0 == field_no && fs[i].1 == 2,
        forall|j: int| 0 <= j < i ==> !(fs[j].0 == field_no && fs[j].1 == 2),
    ensures
        first_sub(fs, field_no) == Some((fs[i].2, fs[i].3)),
    decreases i,
{
    if i > 0 {
        assert(!(fs[0].0 == field_no && fs[0].1 == 2));
        lemma_first_sub_earliest(fs.drop_first(), field_no, i - 1);
    }
}

proof fn lemma_first_sub_absent(fs: Seq<(u64, u8, int, int)>, field_no: u64)
    requires
        forall|j: int| 0 <= j < fs.len() ==> !(fs[j].0 == field_no && fs[j].1 == 2),
    ensures
        first_sub(fs, field_no) is None,
    decreases fs.len(),
{
    if fs.len() > 0 {
        assert(!(fs[0].0 == field_no && fs[0].1 == 2));
        lemma_first_sub_absent(fs.drop_first(), field_no);
    }
}

/// Where the scanned field list of a span holds a length-delimited field
/// `field_no` at index `i` and none before it, the sub-message found for
/// `field_no` is the payload of that field: the earliest match wins.
pub proof fn lemma_sub_is_earliest(
    buf: Seq<u8>,
    span: (int, int),
    field_no: u64,
    fs: Seq<(u64, u8, int, int)>,
    i: int,
)
    requires
        fields_spec(buf, span.0, span.1) == Some(fs),
        0 <= i < fs.len(),
        fs[i].0 == field_no,
        fs[i].1 == 2,
        forall|j: int| 0 <= j < i ==> !(fs[j].0 == field_no && fs[j].1 == 2),
    ensures
        sub_spec(buf, span, field_no) == Some(Some((fs[i].2, fs[i].3))),
{
    lemma_first_sub_earliest(fs, field_no, i);
}

/// Where the scanned field list of a span holds no length-delimited field
/// `field_no`, no sub-message is found for it.
pub proof fn lemma_sub_absent(
    buf: Seq<u8>,
    span: (int, int),
    field_no: u64,
    fs: Seq<(u64, u8, int, int)>,
)
    requires
        fields_spec(buf, span.0, span.1) == Some(fs),
        forall|j: int| 0 <= j < fs.len() ==> !(fs[j].0 == field_no && fs[j].1 == 2),
    ensures
        sub_spec(buf, span, field_no) == Some(None::<(int, int)>),
{
    lemma_first_sub_absent(fs, field_no);
}

/// The payload span of the first length-delimited field `field_no` in
/// `buf[span.0..span.1]` (see [`sub_spec`]).
pub fn sub(buf: &[u8], span: (usize, usize), field_no: u64) -> (r: Result<
    Option<(usize, usize)>,
    Mp4Error,
>)
    ensures
        match sub_spec(buf@, (span.0 as int, span.1 as int), field_no) {
            None => r == Err::<Option<(usize, usize)>, Mp4Error>(Mp4Error::Malformed),
            Some(None) => r == Ok::<Option<(usize, usize)>, Mp4Error>(None),
            Some(Some((s, e))) => r matches Ok(Some((rs, re))) && rs == s && re == e,
        },
{
    let fs = match fields(buf, span.0, span.1) {
        Some(fs) => fs,
        None => {
            return Err(Mp4Error::Malformed);
        },
    };
    let ghost v = fields_view(fs@);
    let mut i: usize = 0;
    assert(v.skip(0) =~= v);
    while i < fs.len()
        invariant
            i <= fs.len(),
            v == fields_view(fs@),
            fields_spec(buf@, span.0 as int, span.1 as int) == Some(v),
            first_sub(v, field_no) == first_sub(v.skip(i as int), field_no),
        decreases fs.len() - i,
    {
        assert(v.skip(i as int)[0] == field_view(fs@[i as int]));
        if fs[i].0 == field_no && fs[i].1 == 2 {
            return Ok(Some((fs[i].2, fs[i].3)));
        }
        assert(v.skip(i as int).drop_first() =~= v.skip(i + 1));
        i = i + 1;
    }
    Ok(None)
}

} // verus!
