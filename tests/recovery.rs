use rmls::{recovery_plan, CopyStep, Copier, Extent, ObjectKind, RecoverError, ZombieFile};

fn rec(len: usize, ext: &[(u64, u64)]) -> ZombieFile {
    ZombieFile::new(
        "f".to_string(),
        len,
        ObjectKind::File,
        ext.iter().map(|&(s, l)| Extent::new(s, l)).collect(),
    )
}

fn device(size: usize) -> Vec<u8> {
    (0..size).map(|i| (i * 7 % 251) as u8).collect()
}

/// Runs the copy against an in-memory device, returning the bytes written
/// and the highest offset any read reached.
fn run(f: &ZombieFile, dev: &[u8], chunk: usize) -> (Vec<u8>, u64) {
    let mut c = Copier::new(f, chunk).unwrap();
    let mut out = Vec::new();
    let mut reach = 0u64;
    loop {
        match c.step() {
            CopyStep::Finished => break,
            CopyStep::Read { offset, max } => {
                let start = offset as usize;
                let end = (start + max).min(dev.len());
                assert!(end > start);
                out.extend_from_slice(&dev[start..end]);
                reach = reach.max(end as u64);
                c.advance(end - start);
            }
        }
    }
    (out, reach)
}

#[test]
fn partial_last_extent_stops_at_the_logical_length() {
    let dev = device(3 * 4096);
    let f = rec(10, &[(4096, 4096)]);
    let (out, reach) = run(&f, &dev, 400 * 1024);
    assert_eq!(out, dev[4096..4106].to_vec());
    assert_eq!(reach, 4106);
}

#[test]
fn multi_extent_copy_truncates_the_second_extent() {
    let dev = device(4 * 4096);
    let f = rec(6000, &[(0, 4096), (8192, 4096)]);
    let (out, reach) = run(&f, &dev, 1000);
    let mut want = dev[0..4096].to_vec();
    want.extend_from_slice(&dev[8192..8192 + 1904]);
    assert_eq!(out, want);
    assert_eq!(reach, 8192 + 1904);
    assert_eq!(
        recovery_plan(&f),
        vec![Extent::new(0, 4096), Extent::new(8192, 1904)]
    );
}

#[test]
fn extents_past_the_end_are_skipped() {
    let f = rec(4096, &[(0, 4096), (8192, 4096), (16384, 4096)]);
    assert_eq!(recovery_plan(&f), vec![Extent::new(0, 4096)]);
    let g = rec(0, &[(0, 4096)]);
    assert!(recovery_plan(&g).is_empty());
    let mut c = Copier::new(&g, 8).unwrap();
    assert_eq!(c.step(), CopyStep::Finished);
    let h = rec(100, &[(0, 0), (50, 10)]);
    assert_eq!(recovery_plan(&h), vec![Extent::new(50, 10)]);
    c = Copier::new(&h, 4).unwrap();
    assert_eq!(c.step(), CopyStep::Read { offset: 50, max: 4 });
}

#[test]
fn short_extents_copy_what_they_hold() {
    let dev = device(4096);
    let f = rec(5000, &[(100, 50)]);
    let (out, _) = run(&f, &dev, 16);
    assert_eq!(out, dev[100..150].to_vec());
}

#[test]
fn copier_refuses_bad_input() {
    assert!(matches!(Copier::new(&rec(10, &[(0, 10)]), 0), Err(RecoverError::NoChunk)));
    assert!(matches!(
        Copier::new(&rec(10, &[(u64::MAX - 3, 10)]), 4),
        Err(RecoverError::ExtentOutOfRange)
    ));
}
