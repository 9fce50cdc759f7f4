use o4core::error::Mp4Error;
use o4core::proto::{fields, read_varint, sub};
use o4core::scan::scan_sample;

fn varint(mut v: u64) -> Vec<u8> {
    let mut out = Vec::new();
    loop {
        let b = (v & 0x7f) as u8;
        v >>= 7;
        if v == 0 {
            out.push(b);
            return out;
        }
        out.push(b | 0x80);
    }
}

fn key(field: u64, wire: u64) -> Vec<u8> {
    varint((field << 3) | wire)
}

fn ld(field: u64, body: &[u8]) -> Vec<u8> {
    let mut v = key(field, 2);
    v.extend(varint(body.len() as u64));
    v.extend_from_slice(body);
    v
}

fn fixed32(field: u64, bits: u32) -> Vec<u8> {
    let mut v = key(field, 5);
    v.extend_from_slice(&bits.to_le_bytes());
    v
}

fn vint(field: u64, value: u64) -> Vec<u8> {
    let mut v = key(field, 0);
    v.extend(varint(value));
    v
}

fn quat(bits: [u32; 4]) -> Vec<u8> {
    [fixed32(1, bits[0]), fixed32(2, bits[1]), fixed32(3, bits[2]), fixed32(4, bits[3])].concat()
}

fn sample(ts: u64, quats: &[[u32; 4]], att_offset: Option<u32>) -> Vec<u8> {
    let header = vint(2, ts);
    let mut fusion = Vec::new();
    for q in quats {
        fusion.extend(ld(3, &quat(*q)));
    }
    if let Some(a) = att_offset {
        fusion.extend(fixed32(4, a));
    }
    let imu = ld(2, &fusion);
    let frame = [ld(1, &header), ld(3, &imu)].concat();
    [vint(1, 7), ld(3, &frame)].concat()
}

#[test]
fn varint_decoding() {
    assert_eq!(read_varint(&[0x05], 0), Some((5, 1)));
    assert_eq!(read_varint(&[0xff, 0xac, 0x02], 1), Some((300, 3)));
    assert_eq!(read_varint(&varint(u64::MAX), 0), Some((u64::MAX, 10)));
    // continuation bit on the last byte of the buffer
    assert_eq!(read_varint(&[0x80], 0), None);
    // eleven bytes needed
    assert_eq!(read_varint(&[0x80; 11], 0), None);
    assert_eq!(read_varint(&[1], 1), None);
}

#[test]
fn field_scan_reports_spans() {
    let buf = [vint(1, 150), fixed32(2, 9), ld(3, &[1, 2, 3]), {
        let mut v = key(4, 1);
        v.extend_from_slice(&[0; 8]);
        v
    }]
    .concat();
    let fs = fields(&buf, 0, buf.len()).unwrap();
    assert_eq!(fs, vec![(1, 0, 1, 3), (2, 5, 4, 8), (3, 2, 10, 13), (4, 1, 14, 22)]);
    assert_eq!(sub(&buf, (0, buf.len()), 3), Ok(Some((10, 13))));
    assert_eq!(sub(&buf, (0, buf.len()), 1), Ok(None));
}

#[test]
fn unsupported_wire_type_is_malformed() {
    let buf = key(1, 3);
    assert_eq!(fields(&buf, 0, buf.len()), None);
    assert_eq!(sub(&buf, (0, buf.len()), 1), Err(Mp4Error::Malformed));
}

#[test]
fn scan_finds_quaternions_offsets_and_timestamp() {
    let q1 = [0x3f80_0000, 0, 0x8000_0000, 0x3f00_0000];
    let q2 = [1, 2, 3, 4];
    let data = sample(123_456, &[q1, q2], Some(0x4120_0000));
    let base = 10_000u64;
    let (ts, atts, off) = scan_sample(&data, base).unwrap();
    assert_eq!(ts, Some(123_456));
    assert_eq!(off, 0x4120_0000);
    assert_eq!(atts.len(), 2);
    assert_eq!(atts[0].1, q1);
    assert_eq!(atts[1].1, q2);
    for (o, v) in &atts {
        for k in 0..4 {
            let p = (o[k].unwrap() - base) as usize;
            assert_eq!(u32::from_le_bytes(data[p..p + 4].try_into().unwrap()), v[k]);
        }
    }
}

#[test]
fn scan_without_frame_message_is_empty() {
    let data = vint(1, 3);
    assert_eq!(scan_sample(&data, 0), Ok((None, vec![], 0)));
}

#[test]
fn scan_reports_missing_components() {
    let partial = [fixed32(1, 5), fixed32(3, 6)].concat();
    let fusion = ld(3, &partial);
    let frame = ld(3, &ld(2, &fusion));
    let data = ld(3, &frame);
    let (ts, atts, off) = scan_sample(&data, 0).unwrap();
    assert_eq!(ts, None);
    assert_eq!(off, 0);
    assert_eq!(atts.len(), 1);
    assert!(atts[0].0[0].is_some() && atts[0].0[1].is_none() && atts[0].0[2].is_some() && atts[0].0[3].is_none());
    assert_eq!(atts[0].1, [5, 0, 6, 0]);
    assert_eq!(o4core::patch::complete_offsets(&atts[0]), Err(Mp4Error::OmittedField));
}

#[test]
fn scan_of_truncated_float_is_malformed() {
    // a wire-type-5 field whose 4 bytes run past the buffer
    let mut fusion = key(4, 5);
    fusion.extend_from_slice(&[1, 2]);
    let imu = ld(2, &fusion);
    let frame = ld(3, &imu);
    let mut data = key(3, 2);
    data.extend(varint(frame.len() as u64));
    data.extend_from_slice(&frame);
    assert_eq!(scan_sample(&data, 0), Err(Mp4Error::Malformed));
}
