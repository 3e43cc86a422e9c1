use file_scan::scan::{
    scan, ChildRange, DirRead, FileItemBuilder, FileRead, FileTimes, FileType, LinkRead, RawData,
    RawNode, ScanSettings, SpecificInfo, SymlinkInfo,
};

fn no_times() -> FileTimes {
    FileTimes::default()
}

fn file_node(name: &str, path: &str, content: &[u8]) -> RawNode {
    RawNode {
        name: name.to_string(),
        path: path.to_string(),
        times: no_times(),
        data: RawData::File(FileRead::Content { bytes: content.to_vec(), metas: Vec::new() }),
    }
}

fn dir_node(name: &str, path: &str, entries: Vec<RawNode>) -> RawNode {
    RawNode {
        name: name.to_string(),
        path: path.to_string(),
        times: no_times(),
        data: RawData::Dir(DirRead::Entries(entries)),
    }
}

fn link_node(name: &str, path: &str, target: &str) -> RawNode {
    RawNode {
        name: name.to_string(),
        path: path.to_string(),
        times: no_times(),
        data: RawData::Symlink(LinkRead::Target(target.to_string())),
    }
}

#[test]
fn single_file_scan() {
    let root = dir_node("r", "/r", vec![file_node("a.txt", "/r/a.txt", b"hi")]);
    let result = scan(root, &ScanSettings::default()).unwrap();
    assert_eq!(result.items.len(), 2);
    let r = &result.items[0];
    assert_eq!(r.id(), 0);
    assert_eq!(r.parent(), None);
    assert_eq!(r.name(), "r");
    assert!(r.is_dir());
    let range = r.childs().unwrap();
    assert_eq!((range.start, range.end), (1, 1));
    let a = &result.items[1];
    assert_eq!(a.id(), 1);
    assert_eq!(a.parent(), Some(0));
    assert_eq!(a.name(), "a.txt");
    assert_eq!(a.file_type(), FileType::Regular);
    assert_eq!(a.md5().unwrap(), "49f68a5c8493ec2c0bf489821c21fc3b");
    assert_eq!(result.warning, "");
    assert_eq!(result.description, "FFSM off. ");
    assert_eq!(result.inaccessible, 0);
    assert!(!result.limit_reached);
}

#[test]
fn empty_subdir() {
    let root = dir_node("r", "/r", vec![dir_node("d", "/r/d", vec![])]);
    let result = scan(root, &ScanSettings::default()).unwrap();
    assert_eq!(result.items.len(), 2);
    let range = result.items[0].childs().unwrap();
    assert_eq!((range.start, range.end), (1, 1));
    let d = &result.items[1];
    assert!(d.is_dir());
    let dr = d.childs().unwrap();
    assert!(dr.start > dr.end, "an empty directory has a hollow range");
}

#[test]
fn hash_is_deterministic() {
    let mk = || dir_node("r", "/r", vec![file_node("a", "/r/a", b"same bytes")]);
    let one = scan(mk(), &ScanSettings::default()).unwrap();
    let two = scan(mk(), &ScanSettings::default()).unwrap();
    assert_eq!(one.items[1].md5().unwrap(), two.items[1].md5().unwrap());
}

#[test]
fn different_content_differs() {
    let root = dir_node(
        "r",
        "/r",
        vec![file_node("a", "/r/a", b"alpha"), file_node("b", "/r/b", b"beta")],
    );
    let result = scan(root, &ScanSettings::default()).unwrap();
    assert_ne!(result.items[1].md5().unwrap(), result.items[2].md5().unwrap());
}

#[test]
fn symlink_to_sibling_resolves() {
    let root = dir_node(
        "r",
        "/r",
        vec![
            file_node("target.txt", "/r/target.txt", b"x"),
            link_node("link", "/r/link", "/r/target.txt"),
        ],
    );
    let result = scan(root, &ScanSettings::default()).unwrap();
    assert_eq!(result.items.len(), 3);
    let link = &result.items[2];
    assert_eq!(link.file_type(), FileType::Symlink);
    match &link.info {
        SpecificInfo::Symlink(s) => assert_eq!(s.target, Some(1)),
        _ => panic!("expected a symlink payload"),
    }
}

#[test]
fn symlink_outside_root_is_unresolved() {
    let root = dir_node("r", "/r", vec![link_node("link", "/r/link", "/elsewhere/file")]);
    let result = scan(root, &ScanSettings::default()).unwrap();
    let link = &result.items[1];
    assert_eq!(link.file_type(), FileType::Symlink);
    match &link.info {
        SpecificInfo::Symlink(s) => assert_eq!(s.target, None),
        _ => panic!("an unresolvable target is not an error"),
    }
}

#[test]
fn unreadable_symlink_is_inaccessible() {
    let root = dir_node(
        "r",
        "/r",
        vec![RawNode {
            name: "link".to_string(),
            path: "/r/link".to_string(),
            times: no_times(),
            data: RawData::Symlink(LinkRead::Unreadable),
        }],
    );
    let result = scan(root, &ScanSettings::default()).unwrap();
    let link = &result.items[1];
    assert_eq!(link.file_type(), FileType::Symlink);
    assert!(matches!(link.info, SpecificInfo::Inaccessible(FileType::Symlink)));
}

#[test]
fn denied_dir_is_recoverable() {
    let root = dir_node(
        "r",
        "/r",
        vec![
            RawNode {
                name: "locked".to_string(),
                path: "/r/locked".to_string(),
                times: no_times(),
                data: RawData::Dir(DirRead::Denied),
            },
            file_node("ok.txt", "/r/ok.txt", b"fine"),
        ],
    );
    let result = scan(root, &ScanSettings::default()).unwrap();
    assert_eq!(result.items.len(), 3);
    let locked = &result.items[1];
    assert!(matches!(locked.info, SpecificInfo::Inaccessible(FileType::Dir)));
    assert_eq!(locked.childs(), None);
    assert!(result.items.iter().all(|it| it.parent() != Some(1)));
    assert_eq!(result.inaccessible, 1);
    assert_eq!(result.warning, "Inaccessible items: 1. ");
}

#[test]
fn denied_file_is_recoverable() {
    let root = dir_node(
        "r",
        "/r",
        vec![RawNode {
            name: "secret".to_string(),
            path: "/r/secret".to_string(),
            times: no_times(),
            data: RawData::File(FileRead::Denied),
        }],
    );
    let result = scan(root, &ScanSettings::default()).unwrap();
    let secret = &result.items[1];
    assert!(matches!(secret.info, SpecificInfo::Inaccessible(FileType::Regular)));
    assert_eq!(secret.md5(), None);
    assert_eq!(result.inaccessible, 1);
}

#[test]
fn denied_root_still_reports() {
    let root = RawNode {
        name: "r".to_string(),
        path: "/r".to_string(),
        times: no_times(),
        data: RawData::Dir(DirRead::Denied),
    };
    let result = scan(root, &ScanSettings::default()).unwrap();
    assert_eq!(result.items.len(), 1);
    assert!(matches!(result.items[0].info, SpecificInfo::Inaccessible(FileType::Dir)));
    assert_eq!(result.inaccessible, 1);
}

#[test]
fn fatal_read_aborts() {
    let root = dir_node(
        "r",
        "/r",
        vec![RawNode {
            name: "bad".to_string(),
            path: "/r/bad".to_string(),
            times: no_times(),
            data: RawData::File(FileRead::Fatal("device error".to_string())),
        }],
    );
    let err = scan(root, &ScanSettings::default()).unwrap_err();
    assert_eq!(err, "device error");
}

#[test]
fn fatal_enumeration_aborts() {
    let root = dir_node(
        "r",
        "/r",
        vec![RawNode {
            name: "bad".to_string(),
            path: "/r/bad".to_string(),
            times: no_times(),
            data: RawData::Dir(DirRead::Fatal("io failure".to_string())),
        }],
    );
    let err = scan(root, &ScanSettings::default()).unwrap_err();
    assert_eq!(err, "io failure");
}

#[test]
fn limit_truncates_with_warning() {
    let root = dir_node(
        "r",
        "/r",
        vec![
            file_node("a", "/r/a", b"1"),
            file_node("b", "/r/b", b"2"),
            file_node("c", "/r/c", b"3"),
        ],
    );
    let settings = ScanSettings { scan_limit: Some(2), ffsm: false };
    let result = scan(root, &settings).unwrap();
    assert!(result.limit_reached);
    assert!(result.items.len() <= 2);
    assert_eq!(result.warning, "Limit reached. ");
}

#[test]
fn no_limit_keeps_everything() {
    let root = dir_node(
        "r",
        "/r",
        vec![
            file_node("a", "/r/a", b"1"),
            dir_node("d", "/r/d", vec![file_node("e", "/r/d/e", b"2")]),
        ],
    );
    let result = scan(root, &ScanSettings::default()).unwrap();
    assert_eq!(result.items.len(), 4);
    assert!(!result.limit_reached);
    // the nested file hangs off d, whose range is contiguous
    let d = &result.items[2];
    assert_eq!(d.name(), "d");
    let dr = d.childs().unwrap();
    assert_eq!((dr.start, dr.end), (3, 3));
    assert_eq!(result.items[3].parent(), Some(2));
}

#[test]
fn ffsm_controls_metadata() {
    let node = |metas: Vec<(String, String)>| RawNode {
        name: "m.mp4".to_string(),
        path: "/r/m.mp4".to_string(),
        times: no_times(),
        data: RawData::File(FileRead::Content { bytes: vec![1, 2, 3], metas }),
    };
    let metas = vec![("codec".to_string(), "h264".to_string())];
    let on = scan(
        dir_node("r", "/r", vec![node(metas.clone())]),
        &ScanSettings { scan_limit: None, ffsm: true },
    )
    .unwrap();
    match &on.items[1].info {
        SpecificInfo::Regular(ri) => assert_eq!(ri.metas, metas),
        _ => panic!("expected a regular payload"),
    }
    assert_eq!(on.description, "FFSM on. ");
    let off = scan(dir_node("r", "/r", vec![node(metas.clone())]), &ScanSettings::default())
        .unwrap();
    match &off.items[1].info {
        SpecificInfo::Regular(ri) => assert!(ri.metas.is_empty()),
        _ => panic!("expected a regular payload"),
    }
}

#[test]
fn resolver_is_idempotent() {
    let mut builders = vec![
        {
            let mut b = FileItemBuilder::new(
                0,
                "/r/t".to_string(),
                "t".to_string(),
                FileTimes::default(),
            );
            b.info(SpecificInfo::Regular(file_scan::scan::RegularInfo {
                md5: String::new(),
                metas: Vec::new(),
            }));
            b
        },
        {
            let mut b = FileItemBuilder::new(
                1,
                "/r/link".to_string(),
                "link".to_string(),
                FileTimes::default(),
            );
            b.info(SpecificInfo::Symlink(SymlinkInfo { target: None }));
            b.link = Some(LinkRead::Target("/r/t".to_string()));
            b
        },
    ];
    let paths = vec![("/r/t".to_string(), 0usize)];
    file_scan::scan::resolve_links(&mut builders, &paths);
    let first = match &builders[1].info {
        Some(SpecificInfo::Symlink(s)) => s.target,
        _ => panic!("expected a resolved symlink"),
    };
    assert_eq!(first, Some(0));
    file_scan::scan::resolve_links(&mut builders, &paths);
    let second = match &builders[1].info {
        Some(SpecificInfo::Symlink(s)) => s.target,
        _ => panic!("resolving again must leave the payload a symlink"),
    };
    assert_eq!(second, first);
}

#[test]
fn builder_freezes_fields() {
    let mut b = FileItemBuilder::new(
        7,
        "/r/x".to_string(),
        "x".to_string(),
        FileTimes { created: Some(5), modified: Some(6), accessed: None },
    );
    b.parent(3);
    b.info(SpecificInfo::Symlink(SymlinkInfo { target: Some(2) }));
    let item = b.build();
    assert_eq!(item.id(), 7);
    assert_eq!(item.name(), "x");
    assert_eq!(item.parent(), Some(3));
    assert_eq!(item.times().created, Some(5));
    assert_eq!(item.times().modified, Some(6));
    assert_eq!(item.times().accessed, None);
    assert_eq!(item.file_type(), FileType::Symlink);
}

#[test]
fn child_range_shape() {
    let d = file_scan::scan::DirInfo::new(4, 9);
    assert_eq!(d.childs, ChildRange { start: 4, end: 9 });
}

#[test]
fn ranges_partition_identity_space() {
    let root = dir_node(
        "r",
        "/r",
        vec![
            file_node("a", "/r/a", b"1"),
            dir_node(
                "d",
                "/r/d",
                vec![file_node("e", "/r/d/e", b"2"), dir_node("f", "/r/d/f", vec![])],
            ),
            file_node("b", "/r/b", b"3"),
        ],
    );
    let result = scan(root, &ScanSettings::default()).unwrap();
    let n = result.items.len();
    assert_eq!(n, 6);
    // every non-root identity is covered by exactly one directory range,
    // namely its parent's
    for i in 1..n {
        let mut covering = Vec::new();
        for p in 0..n {
            if let Some(range) = result.items[p].childs() {
                if range.start <= i && i <= range.end {
                    covering.push(p);
                }
            }
        }
        assert_eq!(covering.len(), 1);
        assert_eq!(result.items[i].parent(), Some(covering[0]));
        assert!(covering[0] < i);
    }
}
