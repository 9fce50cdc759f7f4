use o4core::boxes::{find_box, top_box_header, walk_boxes, TopHeader};
use o4core::bytes::{be32, be64, le32, to_le_bytes};
use o4core::error::Mp4Error;
use o4core::table::meta_track_samples;

fn boxed(kind: &[u8; 4], payload: &[u8]) -> Vec<u8> {
    let mut v = ((payload.len() + 8) as u32).to_be_bytes().to_vec();
    v.extend_from_slice(kind);
    v.extend_from_slice(payload);
    v
}

fn cat(parts: &[Vec<u8>]) -> Vec<u8> {
    parts.concat()
}

fn full_box(kind: &[u8; 4], body: &[u8]) -> Vec<u8> {
    let mut p = vec![0u8; 4];
    p.extend_from_slice(body);
    boxed(kind, &p)
}

fn be(v: u32) -> Vec<u8> {
    v.to_be_bytes().to_vec()
}

fn hdlr(handler: &[u8; 4]) -> Vec<u8> {
    let mut body = vec![0u8; 4];
    body.extend_from_slice(handler);
    body.extend_from_slice(&[0u8; 12]);
    full_box(b"hdlr", &body)
}

fn trak(handler: &[u8; 4], stbl_children: Vec<u8>) -> Vec<u8> {
    let stbl = boxed(b"stbl", &stbl_children);
    let minf = boxed(b"minf", &stbl);
    let mdia = boxed(b"mdia", &cat(&[hdlr(handler), minf]));
    boxed(b"trak", &mdia)
}

fn stsz(common: u32, sizes: &[u32], count: u32) -> Vec<u8> {
    let mut body = cat(&[be(common), be(count)]);
    for s in sizes {
        body.extend(be(*s));
    }
    full_box(b"stsz", &body)
}

fn stco(offs: &[u32]) -> Vec<u8> {
    let mut body = be(offs.len() as u32);
    for o in offs {
        body.extend(be(*o));
    }
    full_box(b"stco", &body)
}

fn co64(offs: &[u64]) -> Vec<u8> {
    let mut body = be(offs.len() as u32);
    for o in offs {
        body.extend(o.to_be_bytes());
    }
    full_box(b"co64", &body)
}

fn stsc(entries: &[(u32, u32)]) -> Vec<u8> {
    let mut body = be(entries.len() as u32);
    for (f, p) in entries {
        body.extend(cat(&[be(*f), be(*p), be(1)]));
    }
    full_box(b"stsc", &body)
}

/// moov payload span of a buffer that is exactly one moov box
fn moov_of(children: Vec<u8>) -> Vec<u8> {
    boxed(b"moov", &children)
}

#[test]
fn big_endian_readers() {
    let b = [0x01, 0x02, 0x03, 0x04, 0x05, 0x06, 0x07, 0x08, 0x09];
    assert_eq!(be32(&b, 0), 0x01020304);
    assert_eq!(be32(&b, 5), 0x06070809);
    assert_eq!(be64(&b, 1), 0x0203040506070809);
    assert_eq!(le32(&b, 0), 0x04030201);
    assert_eq!(to_le_bytes(0x11223344), [0x44, 0x33, 0x22, 0x11]);
}

#[test]
fn walk_lists_sibling_boxes_with_payload_spans() {
    let buf = cat(&[boxed(b"ftyp", &[1, 2, 3, 4]), boxed(b"free", &[]), boxed(b"mdat", &[9; 6])]);
    let bs = walk_boxes(&buf, 0, buf.len()).unwrap();
    assert_eq!(bs.len(), 3);
    assert_eq!(bs[0], (*b"ftyp", 8, 12));
    assert_eq!(bs[1], (*b"free", 20, 20));
    assert_eq!(bs[2], (*b"mdat", 28, 34));
}

#[test]
fn walk_handles_large_and_to_end_sizes() {
    // size 1: 64-bit size after the type
    let mut large = vec![0, 0, 0, 1];
    large.extend_from_slice(b"wide");
    large.extend_from_slice(&20u64.to_be_bytes());
    large.extend_from_slice(&[7, 7, 7, 7]);
    // size 0: to the end
    let mut rest = vec![0, 0, 0, 0];
    rest.extend_from_slice(b"tail");
    rest.extend_from_slice(&[1, 2, 3]);
    let buf = cat(&[large, rest]);
    let bs = walk_boxes(&buf, 0, buf.len()).unwrap();
    assert_eq!(bs, vec![(*b"wide", 16, 20), (*b"tail", 28, 31)]);
}

#[test]
fn walk_stops_at_undersized_box_and_clamps_to_end() {
    let mut bad = be(4);
    bad.extend_from_slice(b"junk");
    let buf = cat(&[boxed(b"aaaa", &[0; 2]), bad, boxed(b"bbbb", &[])]);
    assert_eq!(walk_boxes(&buf, 0, buf.len()).unwrap(), vec![(*b"aaaa", 8, 10)]);
    // a box claiming more than the enclosing span is clamped
    let big = cat(&[be(100), b"over".to_vec(), vec![0; 4]]);
    assert_eq!(walk_boxes(&big, 0, big.len()).unwrap(), vec![(*b"over", 8, 12)]);
}

#[test]
fn walk_reports_truncated_large_header() {
    let mut buf = vec![0, 0, 0, 1];
    buf.extend_from_slice(b"wide");
    buf.extend_from_slice(&[0, 0]);
    assert!(walk_boxes(&buf, 0, buf.len()).is_none());
}

#[test]
fn find_box_follows_a_path() {
    let inner = boxed(b"stbl", &[5, 6]);
    let minf = boxed(b"minf", &inner);
    let buf = cat(&[boxed(b"xxxx", &[]), minf]);
    assert_eq!(find_box(&buf, 0, buf.len(), &[*b"minf", *b"stbl"]), Ok(Some((24, 26))));
    assert_eq!(find_box(&buf, 0, buf.len(), &[*b"minf", *b"nope"]), Ok(None));
    assert_eq!(find_box(&buf, 0, buf.len(), &[]), Ok(Some((0, buf.len()))));
}

#[test]
fn top_header_decodes_sizes() {
    let h = cat(&[be(1234), b"moov".to_vec()]);
    assert_eq!(top_box_header(&h, 0, 5000), TopHeader::Box { size: 1234, header_len: 8, is_moov: true });
    let h0 = cat(&[be(0), b"mdat".to_vec()]);
    assert_eq!(top_box_header(&h0, 100, 5000), TopHeader::Box { size: 4900, header_len: 8, is_moov: false });
    let h1 = cat(&[be(1), b"mdat".to_vec()]);
    assert_eq!(top_box_header(&h1, 0, 5000), TopHeader::NeedLarge);
    let h16 = cat(&[h1, 70000u64.to_be_bytes().to_vec()]);
    assert_eq!(top_box_header(&h16, 0, 5000), TopHeader::Box { size: 70000, header_len: 16, is_moov: false });
}

#[test]
fn meta_track_sample_table_walk() {
    // 5 samples; chunks at 1000 (2 samples), 2000 (2 samples), 3000 (1 sample)
    let stbl = cat(&[
        stsz(0, &[10, 20, 30, 40, 50], 5),
        stco(&[1000, 2000, 3000]),
        stsc(&[(1, 2), (3, 1)]),
    ]);
    let vide = trak(b"vide", cat(&[stsz(7, &[], 3), stco(&[1]), stsc(&[(1, 3)])]));
    let moov = moov_of(cat(&[vide, trak(b"meta", stbl)]));
    let s = meta_track_samples(&moov, 8, moov.len()).unwrap();
    assert_eq!(s, vec![(1000, 10), (1010, 20), (2000, 30), (2030, 40), (3000, 50)]);
}

#[test]
fn meta_track_common_size_and_co64() {
    let stbl = cat(&[stsz(16, &[], 3), co64(&[0x1_0000_0000]), stsc(&[(1, 3)])]);
    let moov = moov_of(trak(b"meta", stbl));
    let s = meta_track_samples(&moov, 8, moov.len()).unwrap();
    assert_eq!(s, vec![(0x1_0000_0000, 16), (0x1_0000_0010, 16), (0x1_0000_0020, 16)]);
}

#[test]
fn meta_track_errors() {
    let no_meta = moov_of(trak(b"soun", cat(&[stsz(1, &[], 1), stco(&[0]), stsc(&[(1, 1)])])));
    assert_eq!(meta_track_samples(&no_meta, 8, no_meta.len()), Err(Mp4Error::NoMetaTrack));
    let no_stsz = moov_of(trak(b"meta", cat(&[stco(&[0]), stsc(&[(1, 1)])])));
    assert_eq!(meta_track_samples(&no_stsz, 8, no_stsz.len()), Err(Mp4Error::MissingStsz));
    let no_co = moov_of(trak(b"meta", cat(&[stsz(1, &[], 1), stsc(&[(1, 1)])])));
    assert_eq!(meta_track_samples(&no_co, 8, no_co.len()), Err(Mp4Error::MissingChunkOffsets));
    let no_stsc = moov_of(trak(b"meta", cat(&[stsz(1, &[], 1), stco(&[0])])));
    assert_eq!(meta_track_samples(&no_stsc, 8, no_stsc.len()), Err(Mp4Error::MissingStsc));
    // stsc covers only 2 of 3 samples
    let short = moov_of(trak(b"meta", cat(&[stsz(4, &[], 3), stco(&[0]), stsc(&[(1, 2)])])));
    assert_eq!(
        meta_track_samples(&short, 8, short.len()),
        Err(Mp4Error::SampleCountMismatch { walked: 2, count: 3 })
    );
    // first_chunk 0 is where the reader's walk breaks down
    let zero = moov_of(trak(b"meta", cat(&[stsz(4, &[], 1), stco(&[0]), stsc(&[(0, 1)])])));
    assert_eq!(meta_track_samples(&zero, 8, zero.len()), Err(Mp4Error::Malformed));
    // chunk index past the offset table
    let past = moov_of(trak(b"meta", cat(&[stsz(4, &[], 2), stco(&[0]), stsc(&[(1, 1), (3, 1)])])));
    assert_eq!(meta_track_samples(&past, 8, past.len()), Err(Mp4Error::Malformed));
}

#[test]
fn meta_track_last_table_of_a_kind_wins() {
    let stbl = cat(&[stsz(99, &[], 1), stsz(8, &[], 2), stco(&[50]), stsc(&[(1, 2)])]);
    let moov = moov_of(trak(b"meta", stbl));
    assert_eq!(meta_track_samples(&moov, 8, moov.len()).unwrap(), vec![(50, 8), (58, 8)]);
}

#[test]
fn find_box_reports_malformed_walk() {
    // a large-size header cut short inside the walked span
    let mut buf = vec![0, 0, 0, 1];
    buf.extend_from_slice(b"minf");
    buf.extend_from_slice(&[0; 4]);
    assert_eq!(find_box(&buf, 0, buf.len(), &[*b"minf"]), Err(Mp4Error::Malformed));
}

#[test]
fn handler_shorter_than_its_type_is_skipped() {
    let short_hdlr = full_box(b"hdlr", &[0, 0]);
    let stbl = boxed(b"stbl", &cat(&[stsz(1, &[], 1), stco(&[0]), stsc(&[(1, 1)])]));
    let mdia = boxed(b"mdia", &cat(&[short_hdlr, boxed(b"minf", &stbl)]));
    let moov = moov_of(boxed(b"trak", &mdia));
    assert_eq!(meta_track_samples(&moov, 8, moov.len()), Err(Mp4Error::NoMetaTrack));
}
