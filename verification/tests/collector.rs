use membuffer_extract::{AddrInfo, Collector};

#[test]
fn addr_info_new_starts_at_first_access() {
    let info = AddrInfo::new(5);
    assert_eq!(info.first_access, 5);
    assert_eq!(info.last_access, 5);
    assert_eq!(info.num_accesses, 0);
}

#[test]
fn monotonic_sequence_counter() {
    let mut c = Collector::new(None, None);
    let addrs = [0u64, 1, 512, 1024, 513];
    for &a in addrs.iter() {
        assert!(c.collect(a).is_none());
    }
    assert_eq!(c.num_addrs(), 5);
    for region in [0u64, 1, 2] {
        let info = c.lookup(region).unwrap();
        assert!(info.first_access <= info.last_access);
        assert!(info.last_access < 5);
        assert!(info.num_accesses >= 1);
    }
    assert!(c.lookup(99).is_none());
}

#[test]
fn region_stats_track_first_and_last() {
    let mut c = Collector::new(None, None);
    c.collect(512); // region 1, index 0
    c.collect(0); // region 0, index 1
    c.collect(700); // region 1, index 2
    let r1 = c.lookup(1).unwrap();
    assert_eq!(r1.first_access, 0);
    assert_eq!(r1.last_access, 2);
    assert_eq!(r1.num_accesses, 2);
    let r0 = c.lookup(0).unwrap();
    assert_eq!(r0.first_access, 1);
    assert_eq!(r0.last_access, 1);
    assert_eq!(r0.num_accesses, 1);
}

#[test]
fn idempotent_reporting() {
    let mut c = Collector::new(None, None);
    for &a in [0u64, 512, 512, 4096, 4097].iter() {
        c.collect(a);
    }
    let first = c.report();
    let second = c.report();
    assert_eq!(first, second);
}

#[test]
fn top_n_truncation() {
    let mut c = Collector::new(None, Some(2));
    for _ in 0..5 {
        c.collect(512); // region 1
    }
    for _ in 0..3 {
        c.collect(1024); // region 2
    }
    c.collect(1536); // region 3
    let rep = String::from_utf8(c.report()).unwrap();
    let expected = format!(
        "{:16X}\t{:10}\t{:10}\n{:16X}\t{:10}\t{:10}\n===\n",
        1, 5, 4, 2, 3, 2
    );
    assert_eq!(rep, expected);
}

#[test]
fn top_n_larger_than_region_count_keeps_all() {
    let mut c = Collector::new(None, Some(10));
    c.collect(512);
    c.collect(1024);
    let rep = String::from_utf8(c.report()).unwrap();
    assert_eq!(rep.lines().count(), 3); // two entries and the separator
}

#[test]
fn periodic_trigger() {
    let mut c = Collector::new(Some(3), None);
    let mut reports = 0;
    for i in 0..6u64 {
        if c.collect(i).is_some() {
            reports += 1;
        }
        if i == 2 {
            assert_eq!(reports, 1);
        }
    }
    assert_eq!(reports, 2);
}

#[test]
fn periodic_snapshot_matches_report() {
    let mut c = Collector::new(Some(2), None);
    assert!(c.collect(512).is_none());
    let snapshot = c.collect(513).unwrap();
    assert_eq!(snapshot, c.report());
}

#[test]
fn report_format_exact() {
    let mut c = Collector::new(None, None);
    c.collect(0x1234);
    c.collect(0x1234);
    let rep = String::from_utf8(c.report()).unwrap();
    assert_eq!(rep, format!("{:16X}\t{:10}\t{:10}\n===\n", 0x1234u64 >> 9, 2, 1));
}

#[test]
fn report_ranks_by_count_descending() {
    let mut c = Collector::new(None, None);
    c.collect(0); // region 0: 1 access
    for _ in 0..4 {
        c.collect(2048); // region 4: 4 accesses
    }
    c.collect(1024); // region 2: 2 accesses
    c.collect(1025);
    let rep = String::from_utf8(c.report()).unwrap();
    let counts: Vec<usize> = rep
        .lines()
        .filter(|l| l.contains('\t'))
        .map(|l| l.split('\t').nth(1).unwrap().trim().parse().unwrap())
        .collect();
    assert_eq!(counts, vec![4, 2, 1]);
}

#[test]
fn empty_report_is_footer_only() {
    let c = Collector::new(None, None);
    assert_eq!(c.report(), b"===\n".to_vec());
}

#[test]
fn wide_region_key_renders_in_hex() {
    let mut c = Collector::new(None, None);
    c.collect(0xFFFF_FFFF_FFFF_FFFF);
    let rep = String::from_utf8(c.report()).unwrap();
    assert_eq!(
        rep,
        format!("{:16X}\t{:10}\t{:10}\n===\n", 0xFFFF_FFFF_FFFF_FFFFu64 >> 9, 1, 0)
    );
}
