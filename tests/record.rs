use rmls::{decode_record, encode_record, parse_log, DecodeError, Extent, ObjectKind, ZombieFile};

fn rec(name: &str, len: usize, kind: ObjectKind, ext: &[(u64, u64)]) -> ZombieFile {
    ZombieFile::new(
        name.to_string(),
        len,
        kind,
        ext.iter().map(|&(s, l)| Extent::new(s, l)).collect(),
    )
}

fn same(a: &ZombieFile, b: &ZombieFile) -> bool {
    a.name == b.name && a.len == b.len && a.kind == b.kind && a.extents == b.extents
}

#[test]
fn one_record_reads_back() {
    let r = rec("/tmp/some file", 6000, ObjectKind::File, &[(0, 4096), (8192, 4096)]);
    let bytes = encode_record(&r);
    let (out, res) = parse_log(&bytes);
    assert_eq!(res, Ok(()));
    assert_eq!(out.len(), 1);
    assert!(same(&out[0], &r));
}

#[test]
fn many_records_read_back_in_order() {
    let rs = vec![
        rec("/a", 10, ObjectKind::File, &[(4096, 4096)]),
        rec("/dir", 4096, ObjectKind::Directory, &[(12288, 4096)]),
        rec("/empty", 0, ObjectKind::File, &[]),
        rec("/caf\u{e9}/\u{1f600}", 3, ObjectKind::File, &[(1, 2), (3, 4), (5, 6)]),
    ];
    let mut log = Vec::new();
    for r in &rs {
        log.extend(encode_record(r));
    }
    let (out, res) = parse_log(&log);
    assert_eq!(res, Ok(()));
    assert_eq!(out.len(), rs.len());
    for (a, b) in out.iter().zip(rs.iter()) {
        assert!(same(a, b));
    }
}

#[test]
fn layout_is_little_endian_with_length_prefixes() {
    let r = rec("ab", 258, ObjectKind::Directory, &[(1, 2)]);
    let b = encode_record(&r);
    let mut want = vec![2, 0, 0, 0, 0, 0, 0, 0, b'a', b'b'];
    want.extend([2, 1, 0, 0, 0, 0, 0, 0]);
    want.extend([1, 0, 0, 0]);
    want.extend([1, 0, 0, 0, 0, 0, 0, 0]);
    want.extend([1, 0, 0, 0, 0, 0, 0, 0]);
    want.extend([2, 0, 0, 0, 0, 0, 0, 0]);
    assert_eq!(b, want);
}

#[test]
fn layout_matches_bincode_of_the_same_fields() {
    let r = rec("/x/y", 77, ObjectKind::Directory, &[(10, 20), (30, 40)]);
    let fields = (
        "/x/y".to_string(),
        77u64,
        1u32,
        vec![(10u64, 20u64), (30u64, 40u64)],
    );
    assert_eq!(encode_record(&r), bincode::serialize(&fields).unwrap());
}

#[test]
fn truncated_log_keeps_the_records_before() {
    let a = rec("/a", 1, ObjectKind::File, &[(0, 4096)]);
    let b = rec("/b", 2, ObjectKind::File, &[(4096, 4096)]);
    let mut log = encode_record(&a);
    let first = log.len();
    let eb = encode_record(&b);
    log.extend_from_slice(&eb[..eb.len() - 3]);
    let (out, res) = parse_log(&log);
    assert_eq!(out.len(), 1);
    assert!(same(&out[0], &a));
    assert_eq!(res, Err(DecodeError { offset: first }));
}

#[test]
fn bad_name_bytes_are_rejected() {
    let mut b = encode_record(&rec("ab", 1, ObjectKind::File, &[]));
    b[8] = 0xff;
    assert_eq!(decode_record(&b, 0).err(), Some(DecodeError { offset: 0 }));
}

#[test]
fn bad_kind_tag_is_rejected() {
    let mut b = encode_record(&rec("ab", 1, ObjectKind::File, &[]));
    b[18] = 2;
    assert_eq!(decode_record(&b, 0).err(), Some(DecodeError { offset: 0 }));
}

#[test]
fn oversized_counts_are_rejected() {
    let mut b = encode_record(&rec("ab", 1, ObjectKind::File, &[]));
    b[0] = 200;
    assert_eq!(decode_record(&b, 0).err(), Some(DecodeError { offset: 0 }));
    let mut c = encode_record(&rec("ab", 1, ObjectKind::File, &[]));
    c[22] = 1;
    assert_eq!(decode_record(&c, 0).err(), Some(DecodeError { offset: 0 }));
    assert_eq!(decode_record(&vec![1, 2, 3], 0).err(), Some(DecodeError { offset: 0 }));
}

#[test]
fn decode_reports_where_the_record_ends() {
    let a = encode_record(&rec("n", 5, ObjectKind::File, &[(1, 1)]));
    let mut log = a.clone();
    log.extend(a.clone());
    let (f, end) = decode_record(&log, a.len()).unwrap();
    assert_eq!(end, 2 * a.len());
    assert_eq!(f.name, "n");
    assert_eq!(f.len, 5);
}
