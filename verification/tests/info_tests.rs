use file_scan::scan::{
    info_string, nanos, u128_to_i64, usize_to_string, FileInfo, FileItemBuilder, FileTimes,
    RegularInfo, ScanSettings, SpecificInfo,
};

fn regular_item(md5: &str, metas: Vec<(String, String)>, times: FileTimes) -> file_scan::scan::FileItem {
    let mut b = FileItemBuilder::new(1, "/r/a".to_string(), "a".to_string(), times);
    b.parent(0);
    b.info(SpecificInfo::Regular(RegularInfo { md5: md5.to_string(), metas }));
    b.build()
}

#[test]
fn info_string_name_and_type() {
    let item = regular_item("abc", Vec::new(), FileTimes::default());
    assert_eq!(info_string(&item, &FileInfo::Name), "a");
    assert_eq!(info_string(&item, &FileInfo::Type), "Regular");
    assert_eq!(info_string(&item, &FileInfo::Md5), "abc");
}

#[test]
fn info_string_times() {
    let times = FileTimes { created: Some(0), modified: None, accessed: Some(0) };
    let item = regular_item("", Vec::new(), times);
    assert_eq!(info_string(&item, &FileInfo::Created), "1970/01/01 00:00:00");
    assert_eq!(info_string(&item, &FileInfo::Modified), "");
    assert_eq!(info_string(&item, &FileInfo::Accessed), "1970/01/01 00:00:00");
}

#[test]
fn info_string_media_first_match_wins() {
    let metas = vec![
        ("codec".to_string(), "h264".to_string()),
        ("codec".to_string(), "h265".to_string()),
        ("length".to_string(), "90".to_string()),
    ];
    let item = regular_item("", metas, FileTimes::default());
    assert_eq!(info_string(&item, &FileInfo::Media("codec".to_string())), "h264");
    assert_eq!(info_string(&item, &FileInfo::Media("length".to_string())), "90");
    assert_eq!(info_string(&item, &FileInfo::Media("missing".to_string())), "");
}

#[test]
fn meta_on_non_regular_is_none() {
    let mut b = FileItemBuilder::new(0, "/r".to_string(), "r".to_string(), FileTimes::default());
    b.info(SpecificInfo::Dir(file_scan::scan::DirInfo::new(1, 0)));
    let item = b.build();
    assert_eq!(item.md5(), None);
    assert_eq!(item.meta(&"codec".to_string()), None);
    assert_eq!(info_string(&item, &FileInfo::Type), "Directory");
}

#[test]
fn nanos_direction_and_overflow() {
    assert_eq!(nanos(false, 1500), Some(1500));
    assert_eq!(nanos(true, 1500), Some(-1500));
    assert_eq!(nanos(false, i64::MAX as u128), Some(i64::MAX));
    assert_eq!(nanos(false, i64::MAX as u128 + 1), None);
    assert_eq!(nanos(true, i64::MAX as u128 + 1), None);
}

#[test]
fn u128_narrowing() {
    assert_eq!(u128_to_i64(0), Some(0));
    assert_eq!(u128_to_i64(i64::MAX as u128), Some(i64::MAX));
    assert_eq!(u128_to_i64(i64::MAX as u128 + 1), None);
    assert_eq!(u128_to_i64(u128::MAX), None);
}

#[test]
fn decimal_rendering() {
    assert_eq!(usize_to_string(0), "0");
    assert_eq!(usize_to_string(7), "7");
    assert_eq!(usize_to_string(10), "10");
    assert_eq!(usize_to_string(12345), "12345");
}

#[test]
fn settings_default_is_everything_off() {
    let s = ScanSettings::default();
    assert_eq!(s.scan_limit, None);
    assert!(!s.ffsm);
}

#[test]
fn times_default_is_unknown() {
    let t = FileTimes::default();
    assert_eq!(t.created, None);
    assert_eq!(t.modified, None);
    assert_eq!(t.accessed, None);
}
