use recopilatori::paths::{normalized_extension, strip_root};
use recopilatori::{
    clear_all, existeix, existeix_strict, full_hash_of, restore_entry, restore_type_class,
    CatalogEntry, get_tipus_id_of, hashes_of, insert_file, parse_ignore_patterns,
    insert_file_report, mark_not_seen_as_deleted, populate, short_hash_of, Catalog,
    IgnorePattern, IngestError, IngestOutcome, ScannedFile, SHORT_SIZE,
};

fn hex(d: &[u8; 16]) -> String {
    d.iter().map(|b| format!("{:02x}", b)).collect()
}

fn file(path: &str, contents: &[u8]) -> ScannedFile {
    ScannedFile {
        path: path.to_string(),
        contents: contents.to_vec(),
    }
}

fn live(c: &Catalog) -> Vec<String> {
    let mut v = c.live_paths();
    v.sort();
    v
}

#[test]
fn digest_of_hello_is_md5() {
    assert_eq!(hex(&full_hash_of(b"hello")), "5d41402abc4b2a76b9719d911017c592");
    assert_eq!(hex(&short_hash_of(b"hello")), "5d41402abc4b2a76b9719d911017c592");
}

#[test]
fn digest_of_empty_input() {
    let (s, f) = hashes_of(b"");
    assert_eq!(hex(&s), "d41d8cd98f00b204e9800998ecf8427e");
    assert_eq!(s, f);
}

#[test]
fn digest_is_deterministic_and_short_equals_full_up_to_limit() {
    let data = vec![7u8; SHORT_SIZE];
    let (s1, f1) = hashes_of(&data);
    let (s2, f2) = hashes_of(&data.clone());
    assert_eq!(s1, s2);
    assert_eq!(f1, f2);
    assert_eq!(s1, f1);
}

#[test]
fn short_digest_covers_only_the_prefix() {
    let mut a = vec![1u8; SHORT_SIZE + 10];
    let mut b = vec![1u8; SHORT_SIZE + 10];
    a[SHORT_SIZE + 5] = 2;
    b[SHORT_SIZE + 5] = 3;
    assert_eq!(short_hash_of(&a), short_hash_of(&b));
    assert_ne!(full_hash_of(&a), full_hash_of(&b));
    assert_ne!(short_hash_of(&a), full_hash_of(&a));
    assert_eq!(short_hash_of(&a), full_hash_of(&a[..SHORT_SIZE]));
}

#[test]
fn extension_normalization_shares_one_class() {
    let mut c = Catalog::new();
    let a = get_tipus_id_of(&mut c, "dir/IMAGE.JPG");
    let b = get_tipus_id_of(&mut c, "other/photo.jpg");
    assert_eq!(a, Some(0));
    assert_eq!(a, b);
    assert_eq!(c.type_classes().len(), 1);
    assert_eq!(c.type_classes()[0].tipus_nom, "jpg");
    assert_eq!(c.type_classes()[0].tipus_id, 0);
}

#[test]
fn paths_without_extension_have_no_class() {
    let mut c = Catalog::new();
    assert_eq!(get_tipus_id_of(&mut c, "dir/README"), None);
    assert_eq!(get_tipus_id_of(&mut c, "dir/.bashrc"), None);
    assert_eq!(get_tipus_id_of(&mut c, "some.dir/file"), None);
    assert_eq!(c.type_classes().len(), 0);
    assert_eq!(get_tipus_id_of(&mut c, "a/archive.tar.GZ"), Some(0));
    assert_eq!(c.type_classes()[0].tipus_nom, "gz");
}

#[test]
fn many_files_sharing_an_extension_make_one_class() {
    let mut c = Catalog::new();
    for i in 0..20 {
        let path = format!("/root/f{}.{}", i, if i % 2 == 0 { "TXT" } else { "txt" });
        let r = insert_file_report(&mut c, "/root", &path, b"x", &vec![], 1);
        assert!(matches!(r, Ok(IngestOutcome::Ingested)));
    }
    assert_eq!(c.type_classes().len(), 1);
    assert_eq!(c.type_classes()[0].tipus_nom, "txt");
    assert_eq!(c.entries().len(), 20);
}

#[test]
fn end_to_end_duplicate() {
    let mut c = Catalog::new();
    let files = vec![file("/a.txt", b"hello")];
    assert!(populate(&mut c, "", &files, &vec![], 10).is_ok());
    assert_eq!(existeix(&c, b"hello"), vec!["/a.txt".to_string()]);
    assert!(existeix(&c, b"world").is_empty());
}

#[test]
fn different_size_never_matches() {
    let mut c = Catalog::new();
    let files = vec![file("/r/a.txt", b"hello"), file("/r/b.txt", b"hello!")];
    assert!(populate(&mut c, "/r", &files, &vec![], 10).is_ok());
    assert_eq!(existeix(&c, b"hello"), vec!["a.txt".to_string()]);
    assert!(existeix(&c, b"hell").is_empty());
    assert!(existeix(&c, b"hello!!").is_empty());
}

#[test]
fn existence_reports_every_duplicate_once() {
    let mut c = Catalog::new();
    let files = vec![
        file("/r/a.txt", b"same"),
        file("/r/sub/b.bin", b"same"),
        file("/r/c.txt", b"diff"),
    ];
    assert!(populate(&mut c, "/r/", &files, &vec![], 10).is_ok());
    let mut m = existeix(&c, b"same");
    m.sort();
    assert_eq!(m, vec!["a.txt".to_string(), "sub/b.bin".to_string()]);
}

#[test]
fn ignore_pattern_skips_file() {
    let mut c = Catalog::new();
    let pats = vec![IgnorePattern::new(r"\.tmp$").ok().unwrap()];
    let r = insert_file_report(&mut c, "/r", "/r/foo.tmp", b"junk", &pats, 5);
    assert!(matches!(r, Ok(IngestOutcome::Ignored(0))));
    let files = vec![file("/r/foo.tmp", b"junk"), file("/r/keep.txt", b"data")];
    assert!(populate(&mut c, "/r", &files, &pats, 6).is_ok());
    assert!(c.lookup("foo.tmp").is_none());
    assert!(c.lookup("keep.txt").is_some());
    assert_eq!(c.entries().len(), 1);
}

#[test]
fn first_matching_pattern_is_reported() {
    let mut c = Catalog::new();
    let pats = vec![
        IgnorePattern::new(r"^zzz").ok().unwrap(),
        IgnorePattern::new(r"\.log$").ok().unwrap(),
        IgnorePattern::new(r"log").ok().unwrap(),
    ];
    let r = insert_file_report(&mut c, "/r", "/r/x.log", b"l", &pats, 1);
    assert!(matches!(r, Ok(IngestOutcome::Ignored(1))));
}

#[test]
fn invalid_pattern_is_rejected() {
    assert!(IgnorePattern::new("(unclosed").is_err());
    let p = IgnorePattern::new("a+b").ok().unwrap();
    assert_eq!(p.source(), "a+b");
    assert!(p.is_match("xaab"));
    assert!(!p.is_match("b"));
}

#[test]
fn path_outside_root_is_an_error() {
    let mut c = Catalog::new();
    let r = insert_file_report(&mut c, "/data", "/database/x.txt", b"x", &vec![], 1);
    assert!(matches!(r, Err(IngestError::OutsideRoot)));
    let files = vec![file("/data/a", b"1"), file("/elsewhere/b", b"2")];
    assert!(matches!(
        populate(&mut c, "/data", &files, &vec![], 2),
        Err(IngestError::OutsideRoot)
    ));
}

#[test]
fn relative_paths_strip_the_root() {
    let mut c = Catalog::new();
    assert!(insert_file_report(&mut c, "/data", "/data/sub/x.txt", b"x", &vec![], 1).is_ok());
    assert!(insert_file_report(&mut c, "/data/", "/data/y.txt", b"y", &vec![], 1).is_ok());
    assert!(c.lookup("sub/x.txt").is_some());
    assert!(c.lookup("y.txt").is_some());
}

#[test]
fn populate_twice_is_idempotent() {
    let mut c = Catalog::new();
    let files = vec![
        file("/t/a.txt", b"alpha"),
        file("/t/b.jpg", b"beta"),
        file("/t/d/c", b"gamma"),
    ];
    assert!(populate(&mut c, "/t", &files, &vec![], 100).is_ok());
    let live1 = live(&c);
    let sizes1: Vec<_> = live1
        .iter()
        .map(|p| {
            let e = c.lookup(p).unwrap();
            (e.fitxer_size, e.short_hash, e.full_hash)
        })
        .collect();
    assert!(populate(&mut c, "/t", &files, &vec![], 200).is_ok());
    let live2 = live(&c);
    assert_eq!(live1, live2);
    assert_eq!(live1.len(), 3);
    let sizes2: Vec<_> = live2
        .iter()
        .map(|p| {
            let e = c.lookup(p).unwrap();
            (e.fitxer_size, e.short_hash, e.full_hash)
        })
        .collect();
    assert_eq!(sizes1, sizes2);
    assert_eq!(c.entries().len(), 3);
}

#[test]
fn sweep_marks_removed_file_deleted() {
    let mut c = Catalog::new();
    let files = vec![
        file("/t/a.txt", b"alpha"),
        file("/t/b.txt", b"beta"),
        file("/t/c.txt", b"gamma"),
    ];
    assert!(populate(&mut c, "/t", &files, &vec![], 100).is_ok());
    let fewer = vec![file("/t/a.txt", b"alpha"), file("/t/c.txt", b"gamma")];
    assert!(populate(&mut c, "/t", &fewer, &vec![], 200).is_ok());
    let b = c.lookup("b.txt").unwrap();
    assert!(b.is_deleted);
    assert_eq!(b.last_scanned, 100);
    assert!(!c.lookup("a.txt").unwrap().is_deleted);
    assert!(!c.lookup("c.txt").unwrap().is_deleted);
    assert_eq!(live(&c), vec!["a.txt".to_string(), "c.txt".to_string()]);
    assert!(existeix(&c, b"beta").is_empty());
}

#[test]
fn mark_stale_uses_strict_cutoff() {
    let mut c = Catalog::new();
    insert_file(&mut c, "x/a.txt", "a.txt", short_hash_of(b"a"), None, 1, 5);
    insert_file(&mut c, "x/b.txt", "b.txt", short_hash_of(b"b"), None, 1, 10);
    mark_not_seen_as_deleted(&mut c, 10);
    assert!(c.lookup("a.txt").unwrap().is_deleted);
    assert!(!c.lookup("b.txt").unwrap().is_deleted);
}

#[test]
fn reingest_replaces_entry_and_revives_it() {
    let mut c = Catalog::new();
    insert_file(&mut c, "a.txt", "a.txt", short_hash_of(b"old"), None, 3, 1);
    mark_not_seen_as_deleted(&mut c, 2);
    assert!(c.lookup("a.txt").unwrap().is_deleted);
    let (s, f) = hashes_of(b"newer");
    insert_file(&mut c, "a.txt", "a.txt", s, Some(f), 5, 3);
    let e = c.lookup("a.txt").unwrap();
    assert!(!e.is_deleted);
    assert_eq!(e.fitxer_size, 5);
    assert_eq!(e.last_scanned, 3);
    assert_eq!(e.short_hash, s);
    assert_eq!(e.full_hash, Some(f));
    assert_eq!(c.entries().len(), 1);
}

#[test]
fn clear_all_empties_catalog() {
    let mut c = Catalog::new();
    let files = vec![file("/t/a.txt", b"alpha")];
    assert!(populate(&mut c, "/t", &files, &vec![], 1).is_ok());
    clear_all(&mut c);
    assert_eq!(c.entries().len(), 0);
    assert_eq!(c.type_classes().len(), 0);
    assert!(existeix(&c, b"alpha").is_empty());
}

#[test]
fn strict_mode_confirms_by_full_digest() {
    let mut c = Catalog::new();
    let mut big_a = vec![0u8; SHORT_SIZE + 3];
    let mut big_b = vec![0u8; SHORT_SIZE + 3];
    big_a[SHORT_SIZE + 1] = 1;
    big_b[SHORT_SIZE + 1] = 2;
    let files = vec![file("/r/a.bin", &big_a), file("/r/small.txt", b"hello")];
    assert!(populate(&mut c, "/r", &files, &vec![], 1).is_ok());
    assert_eq!(existeix(&c, &big_b), vec!["a.bin".to_string()]);
    assert!(existeix_strict(&c, &big_b).is_empty());
    assert_eq!(existeix_strict(&c, &big_a), vec!["a.bin".to_string()]);
    assert_eq!(existeix_strict(&c, b"hello"), vec!["small.txt".to_string()]);
}

#[test]
fn strict_mode_skips_entries_without_full_digest() {
    let mut c = Catalog::new();
    insert_file(&mut c, "n.txt", "n.txt", short_hash_of(b"abc"), None, 3, 1);
    assert_eq!(existeix(&c, b"abc"), vec!["n.txt".to_string()]);
    assert!(existeix_strict(&c, b"abc").is_empty());
}

#[test]
fn restore_rebuilds_a_stored_catalog() {
    let mut c = Catalog::new();
    assert_eq!(restore_type_class(&mut c, "jpg"), Some(0));
    assert_eq!(restore_type_class(&mut c, "txt"), Some(1));
    assert_eq!(restore_type_class(&mut c, "jpg"), None);
    assert_eq!(restore_type_class(&mut c, "PNG"), None);
    let e = CatalogEntry {
        full_path: "a/b.txt".to_string(),
        tipus_id: Some(1),
        fitxer_size: 5,
        last_scanned: 7,
        is_deleted: true,
        short_hash: short_hash_of(b"hello"),
        full_hash: Some(full_hash_of(b"hello")),
    };
    assert!(restore_entry(&mut c, e.clone()));
    assert!(!restore_entry(&mut c, e.clone()));
    let mut bad = e.clone();
    bad.full_path = "other".to_string();
    bad.tipus_id = Some(2);
    assert!(!restore_entry(&mut c, bad));
    assert!(c.lookup("a/b.txt").unwrap().is_deleted);
    assert!(existeix(&c, b"hello").is_empty());
    assert_eq!(get_tipus_id_of(&mut c, "x/Y.TXT"), Some(1));
    assert_eq!(c.type_classes().len(), 2);
}

#[test]
fn live_paths_lists_each_live_entry() {
    let mut c = Catalog::new();
    let files = vec![file("/t/a", b"1"), file("/t/b", b"2"), file("/t/c", b"3")];
    assert!(populate(&mut c, "/t", &files, &vec![], 1).is_ok());
    let fewer = vec![file("/t/c", b"3")];
    assert!(populate(&mut c, "/t", &fewer, &vec![], 2).is_ok());
    assert_eq!(live(&c), vec!["c".to_string()]);
    assert_eq!(c.entries().len(), 3);
    assert!(c.lookup("missing").is_none());
}

#[test]
fn ignore_file_gives_one_pattern_per_nonempty_line() {
    let pats = parse_ignore_patterns("\\.tmp$\n\n^cache/\n").ok().unwrap();
    let srcs: Vec<&str> = pats.iter().map(|p| p.source()).collect();
    assert_eq!(srcs, vec!["\\.tmp$", "^cache/"]);
    let none = parse_ignore_patterns("").ok().unwrap();
    assert!(none.is_empty());
    let last = parse_ignore_patterns("a\nb").ok().unwrap();
    assert_eq!(last.len(), 2);
    assert_eq!(last[1].source(), "b");
    assert!(parse_ignore_patterns("ok\n(bad\n").is_err());
}

#[test]
fn ignore_file_patterns_filter_populate() {
    let pats = parse_ignore_patterns("\\.tmp$\n").ok().unwrap();
    let mut c = Catalog::new();
    let files = vec![file("/r/foo.tmp", b"x"), file("/r/foo.txt", b"y")];
    assert!(populate(&mut c, "/r", &files, &pats, 1).is_ok());
    assert!(c.lookup("foo.tmp").is_none());
    assert!(c.lookup("foo.txt").is_some());
}

#[test]
fn extension_and_relative_path_rules() {
    assert_eq!(normalized_extension("a/b/Photo.JPEG"), Some("jpeg".to_string()));
    assert_eq!(normalized_extension("a.b/c"), None);
    assert_eq!(normalized_extension(".hidden"), None);
    assert_eq!(normalized_extension("x.tar.Gz"), Some("gz".to_string()));
    assert_eq!(strip_root("/data", "/data/a/b.txt"), Some("a/b.txt".to_string()));
    assert_eq!(strip_root("/data/", "/data/a"), Some("a".to_string()));
    assert_eq!(strip_root("/data", "/database/a"), None);
    assert_eq!(strip_root("", "/a.txt"), Some("/a.txt".to_string()));
}
