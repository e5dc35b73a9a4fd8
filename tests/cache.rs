use folca::address::{key_to_path, parse_entry_path, CacheKey};
use folca::config::{budget_from, non_zero_bytes, ConfigError};
use folca::fingerprint::{
    command_hash, compute_key, input_hash, sort_walk, EntryKind, Fingerprinter, TreeEntry, CHUNK,
};
use folca::inventory::{EntryMeta, Inventory, LoadError};
use folca::session::{Action, Event, Phase, Session};
use std::collections::hash_map::DefaultHasher;
use std::hash::Hasher;

fn key(c: u64, i: u64) -> CacheKey {
    CacheKey { command_hash: c, input_hash: i }
}

fn file(path: &str, content: &[u8]) -> TreeEntry {
    TreeEntry { path: path.as_bytes().to_vec(), kind: EntryKind::File, content: content.to_vec() }
}

fn dir(path: &str) -> TreeEntry {
    TreeEntry { path: path.as_bytes().to_vec(), kind: EntryKind::Directory, content: Vec::new() }
}

fn args(a: &[&str]) -> Vec<Vec<u8>> {
    a.iter().map(|s| s.as_bytes().to_vec()).collect()
}

fn two_file_tree(second: &[u8]) -> Vec<TreeEntry> {
    vec![dir(""), file("a.txt", b"hello"), dir("sub"), file("sub/b.txt", second)]
}

fn fw(h: &mut DefaultHasher, bytes: &[u8]) {
    h.write(&(bytes.len() as u64).to_le_bytes());
    h.write(bytes);
}

/// The writes of one directory entry.
fn hdir(h: &mut DefaultHasher, path: &[u8]) {
    fw(h, path);
    h.write(&[0]);
}

/// The writes of one file entry whose content fits one block.
fn hfile(h: &mut DefaultHasher, path: &[u8], content: &[u8]) {
    fw(h, path);
    h.write(&[1]);
    if !content.is_empty() {
        fw(h, content);
    }
    h.write(&0u64.to_le_bytes());
}

fn paths(v: &[Vec<u8>]) -> Vec<String> {
    v.iter().map(|p| String::from_utf8(p.clone()).unwrap()).collect()
}

// ---- address scheme ----

#[test]
fn path_of_key_under_root() {
    let p = key_to_path(b".folca_cache", &key(0xab, 0x1f));
    assert_eq!(p, b".folca_cache/ab/1f.tar.gz".to_vec());
}

#[test]
fn path_of_key_root_with_separator_and_empty_root() {
    assert_eq!(key_to_path(b"/tmp/c/", &key(0, 0x10)), b"/tmp/c/0/10.tar.gz".to_vec());
    assert_eq!(key_to_path(b"", &key(1, 2)), b"1/2.tar.gz".to_vec());
}

#[test]
fn path_of_largest_key() {
    let p = key_to_path(b"r", &key(u64::MAX, u64::MAX));
    assert_eq!(p, b"r/ffffffffffffffff/ffffffffffffffff.tar.gz".to_vec());
}

#[test]
fn parse_path_round_trip() {
    for k in [key(0, 0), key(0xab, 0x1f), key(u64::MAX, 1), key(0x0123_4567_89ab_cdef, u64::MAX)] {
        for root in [&b".folca_cache"[..], b"", b"/", b"a/b/"] {
            assert_eq!(parse_entry_path(&key_to_path(root, &k)), Some(k));
        }
    }
}

#[test]
fn parse_path_rejects_foreign_files() {
    assert_eq!(parse_entry_path(b"cache/ab/notes.txt"), None);
    assert_eq!(parse_entry_path(b"cache/AB/1f.tar.gz"), None);
    assert_eq!(parse_entry_path(b"cache/ab/.tar.gz"), None);
    assert_eq!(parse_entry_path(b"1f.tar.gz"), None);
    assert_eq!(parse_entry_path(b"cache/ab/12345678901234567.tar.gz"), None);
    assert_eq!(parse_entry_path(b"cache/ab/1f.tar.gzz"), None);
    assert_eq!(parse_entry_path(b"ab/1f.tar.gz"), Some(key(0xab, 0x1f)));
    assert_eq!(parse_entry_path(b"cache/00ff/1.tar.gz"), None);
    assert_eq!(parse_entry_path(b"cache/ff/01.tar.gz"), None);
    assert_eq!(parse_entry_path(b"cache/0/0.tar.gz"), Some(key(0, 0)));
}

// ---- budget ----

#[test]
fn budget_parses_sizes() {
    assert_eq!(non_zero_bytes("10 GB"), Ok(10_000_000_000));
    assert_eq!(non_zero_bytes("123"), Ok(123));
    assert_eq!(non_zero_bytes("1 KiB"), Ok(1024));
}

#[test]
fn budget_refuses_zero_and_garbage() {
    assert_eq!(non_zero_bytes("0"), Err(ConfigError::Zero));
    assert_eq!(non_zero_bytes("0 MB"), Err(ConfigError::Zero));
    assert_eq!(non_zero_bytes("lots"), Err(ConfigError::Unparsable));
    assert_eq!(non_zero_bytes("\u{0661}"), Err(ConfigError::Unparsable));
    assert_eq!(non_zero_bytes("\u{0661} GB"), Err(ConfigError::Unparsable));
    assert_eq!(budget_from(None), Err(ConfigError::Unparsable));
    assert_eq!(budget_from(Some(0)), Err(ConfigError::Zero));
    assert_eq!(budget_from(Some(7)), Ok(7));
}

// ---- fingerprint ----

#[test]
fn command_hash_matches_default_hasher() {
    let mut h = DefaultHasher::new();
    fw(&mut h, b"echo");
    fw(&mut h, b"hi");
    assert_eq!(command_hash(&args(&["echo", "hi"])), h.finish());
}

#[test]
fn argument_order_changes_command_hash() {
    assert_ne!(command_hash(&args(&["cp", "a", "b"])), command_hash(&args(&["cp", "b", "a"])));
    assert_ne!(command_hash(&args(&["a", "aa"])), command_hash(&args(&["aa", "a"])));
    assert_ne!(command_hash(&args(&["ab"])), command_hash(&args(&["a", "b"])));
}

#[test]
fn input_hash_matches_default_hasher() {
    let mut h = DefaultHasher::new();
    hdir(&mut h, b"");
    hfile(&mut h, b"a.txt", b"hello");
    hdir(&mut h, b"sub");
    hfile(&mut h, b"sub/b.txt", b"world");
    assert_eq!(input_hash(&two_file_tree(b"world")), h.finish());
}

#[test]
fn key_is_deterministic() {
    let c = args(&["echo", "hi"]);
    let k1 = compute_key(&c, two_file_tree(b"world"));
    let k2 = compute_key(&c, two_file_tree(b"world"));
    assert_eq!(k1, k2);
}

#[test]
fn key_changes_with_content_and_paths() {
    let c = args(&["echo", "hi"]);
    let base = compute_key(&c, two_file_tree(b"world")).input_hash;
    assert_ne!(base, compute_key(&c, two_file_tree(b"worle")).input_hash);
    let mut renamed = two_file_tree(b"world");
    renamed[1].path = b"z.txt".to_vec();
    assert_ne!(base, compute_key(&c, renamed).input_hash);
    let mut added = two_file_tree(b"world");
    added.push(file("sub/c.txt", b""));
    assert_ne!(base, compute_key(&c, added).input_hash);
    let mut removed = two_file_tree(b"world");
    removed.remove(1);
    assert_ne!(base, compute_key(&c, removed).input_hash);
}

#[test]
fn walk_order_is_component_order() {
    let listing = vec![file("a.txt", b"1"), file("a/b", b"2"), dir("a"), dir(""), file("ab", b"3")];
    let sorted = sort_walk(listing);
    let names: Vec<String> = sorted.iter().map(|e| String::from_utf8(e.path.clone()).unwrap()).collect();
    assert_eq!(names, vec!["", "a", "a/b", "a.txt", "ab"]);
}

#[test]
fn listing_order_does_not_change_key() {
    let c = args(&["echo", "hi"]);
    let mut shuffled = two_file_tree(b"world");
    shuffled.reverse();
    assert_eq!(compute_key(&c, shuffled), compute_key(&c, two_file_tree(b"world")));
    let mut h = DefaultHasher::new();
    hdir(&mut h, b"");
    hfile(&mut h, b"a.txt", b"hello");
    hdir(&mut h, b"sub");
    hfile(&mut h, b"sub/b.txt", b"world");
    assert_eq!(compute_key(&c, two_file_tree(b"world")).input_hash, h.finish());
}

#[test]
fn content_is_cut_into_fixed_blocks_whatever_the_reads() {
    let content: Vec<u8> = (0..(2 * CHUNK + 17)).map(|i| (i % 251) as u8).collect();
    let whole = input_hash(&vec![file("big", &content)]);
    let mut f = Fingerprinter::new();
    f.add_entry(b"big", EntryKind::File);
    for piece in content.chunks(4093) {
        f.add_content(piece);
    }
    f.end_file();
    assert_eq!(f.finish(), whole);
    let mut h = DefaultHasher::new();
    fw(&mut h, b"big");
    h.write(&[1]);
    fw(&mut h, &content[..CHUNK]);
    fw(&mut h, &content[CHUNK..2 * CHUNK]);
    fw(&mut h, &content[2 * CHUNK..]);
    h.write(&0u64.to_le_bytes());
    assert_eq!(whole, h.finish());
}

#[test]
fn empty_tree_and_empty_file() {
    assert_eq!(input_hash(&Vec::new()), DefaultHasher::new().finish());
    let mut h = DefaultHasher::new();
    hfile(&mut h, b"e", b"");
    assert_eq!(input_hash(&vec![file("e", b"")]), h.finish());
}

#[test]
fn content_and_paths_do_not_run_together() {
    let c = args(&["x"]);
    let a = compute_key(&c, vec![file("a", b"b")]);
    let b = compute_key(&c, vec![file("ab", b"")]);
    assert_ne!(a.input_hash, b.input_hash);
    let d = compute_key(&c, vec![dir("a")]);
    let e = compute_key(&c, vec![file("a", b"")]);
    assert_ne!(d.input_hash, e.input_hash);
}

// ---- inventory ----

#[test]
fn inventory_insert_get_remove() {
    let mut inv = Inventory::new(b"c".to_vec());
    assert_eq!(inv.get(&key(1, 2)), None);
    inv.insert(key(1, 2), 10, 5);
    assert_eq!(inv.get(&key(1, 2)), Some(EntryMeta { last_used: 5, size: 10 }));
    inv.insert(key(1, 2), 11, 6);
    assert_eq!(inv.get(&key(1, 2)), Some(EntryMeta { last_used: 6, size: 11 }));
    assert_eq!(inv.total_size(), 11);
    assert_eq!(inv.remove(&key(1, 2)), Some(EntryMeta { last_used: 6, size: 11 }));
    assert_eq!(inv.remove(&key(1, 2)), None);
    assert_eq!(inv.total_size(), 0);
}

#[test]
fn inventory_touch() {
    let mut inv = Inventory::new(b"c".to_vec());
    inv.insert(key(1, 2), 10, 5);
    assert_eq!(inv.get_and_touch(&key(1, 2), 9), Some(EntryMeta { last_used: 5, size: 10 }));
    assert_eq!(inv.get(&key(1, 2)), Some(EntryMeta { last_used: 9, size: 10 }));
    assert!(!inv.touch(&key(3, 3), 9));
    assert_eq!(inv.get_and_touch(&key(3, 3), 9), None);
}

#[test]
fn inventory_load_entries() {
    let mut inv = Inventory::new(b".folca_cache".to_vec());
    assert_eq!(inv.load_entry(b".folca_cache/ab/1f.tar.gz", 100, 7), Ok(key(0xab, 0x1f)));
    assert_eq!(inv.load_entry(b".folca_cache/ab/README", 3, 7), Err(LoadError::UnrecognizedPath));
    assert_eq!(inv.load_entry(b".folca_cache/00ff/01.tar.gz", 3, 7), Err(LoadError::UnrecognizedPath));
    assert_eq!(inv.get(&key(0xab, 0x1f)), Some(EntryMeta { last_used: 7, size: 100 }));
    assert_eq!(inv.total_size(), 100);
    assert_eq!(inv.to_path(&key(0xab, 0x1f)), b".folca_cache/ab/1f.tar.gz".to_vec());
    assert_eq!(inv.cache_root(), &b".folca_cache".to_vec());
}

// ---- eviction ----

fn abc_inventory() -> Inventory {
    let mut inv = Inventory::new(b"c".to_vec());
    inv.insert(key(3, 3), 30, 300); // C, newest
    inv.insert(key(1, 1), 30, 100); // A, oldest
    inv.insert(key(2, 2), 30, 200); // B
    inv
}

#[test]
fn evicts_oldest_first() {
    let mut inv = abc_inventory();
    // 90 cached + 20 new >= 100: A must go
    assert_eq!(inv.make_room(20, 100).map(|p| p.0), Some(vec![key(1, 1)]));
    assert_eq!(inv.get(&key(2, 2)).is_some(), true);
    assert_eq!(inv.get(&key(3, 3)).is_some(), true);
    assert_eq!(inv.total_size(), 60);
}

#[test]
fn evicts_in_order_until_budget_met() {
    let mut inv = abc_inventory();
    assert_eq!(inv.make_room(50, 100).map(|p| p.0), Some(vec![key(1, 1), key(2, 2)]));
    assert_eq!(inv.get(&key(3, 3)), Some(EntryMeta { last_used: 300, size: 30 }));
    assert!(50 + inv.total_size() < 100);
}

#[test]
fn evicts_everything_when_needed() {
    let mut inv = abc_inventory();
    assert_eq!(inv.make_room(99, 100).map(|p| p.0), Some(vec![key(1, 1), key(2, 2), key(3, 3)]));
    assert_eq!(inv.total_size(), 0);
}

#[test]
fn nothing_evicted_when_room_left() {
    let mut inv = abc_inventory();
    assert_eq!(inv.make_room(9, 100).map(|p| p.0), Some(vec![]));
    assert_eq!(inv.total_size(), 90);
}

#[test]
fn output_too_large_is_not_cached() {
    let mut inv = abc_inventory();
    assert_eq!(inv.make_room(100, 100), None);
    assert_eq!(inv.make_room(150, 100), None);
    assert_eq!(inv.total_size(), 90);
}

#[test]
fn equal_times_break_ties_by_key() {
    let mut inv = Inventory::new(b"c".to_vec());
    inv.insert(key(2, 1), 10, 5);
    inv.insert(key(1, 9), 10, 5);
    inv.insert(key(1, 3), 10, 5);
    assert_eq!(inv.make_room(1, 22).map(|p| p.0), Some(vec![key(1, 3)]));
}

// ---- runs ----

/// Drives a session, answering actions from the given outcomes; returns the
/// actions taken and the exit code.
fn run(
    inv: &mut Inventory,
    key: Option<CacheKey>,
    budget: u64,
    unpack_ok: bool,
    output_size: u64,
    now: u64,
) -> (Vec<String>, i32) {
    let mut s = Session::new(key, budget, false);
    let mut ev = Event::Started;
    let mut log = Vec::new();
    loop {
        let a = s.step(inv, ev, now);
        ev = match a {
            Action::Unpack { archive } => {
                log.push(format!("unpack {}", paths(&[archive])[0]));
                Event::Unpacked { ok: unpack_ok }
            }
            Action::RunCommand => {
                log.push("run".to_string());
                Event::CommandExited { success: true, code: 0 }
            }
            Action::MeasureOutput => {
                log.push("measure".to_string());
                Event::Measured { size: output_size }
            }
            Action::RemoveArchives { archives, .. } => {
                log.push(format!("remove {}", paths(&archives).join(",")));
                Event::Removed { count: archives.len() }
            }
            Action::Pack { archive } => {
                log.push(format!("pack {}", paths(&[archive])[0]));
                Event::Packed { ok: true }
            }
            Action::Exit { code } => {
                assert_eq!(s.phase(), Phase::Done);
                return (log, code);
            }
        };
    }
}

#[test]
fn second_run_restores_without_running() {
    let mut inv = Inventory::new(b"c".to_vec());
    let k = compute_key(&args(&["echo", "hi"]), two_file_tree(b"world"));
    let (log, code) = run(&mut inv, Some(k), 1_000_000, true, 3, 10);
    assert_eq!(code, 0);
    assert_eq!(log[0], "run");
    assert_eq!(log[1], "measure");
    assert!(log[2].starts_with("pack c/"));
    assert_eq!(inv.get(&k), Some(EntryMeta { last_used: 10, size: 3 }));
    let k2 = compute_key(&args(&["echo", "hi"]), two_file_tree(b"world"));
    let (log2, code2) = run(&mut inv, Some(k2), 1_000_000, true, 3, 20);
    assert_eq!(code2, 0);
    assert_eq!(log2.len(), 1);
    assert!(log2[0].starts_with("unpack c/"));
    assert_eq!(inv.get(&k), Some(EntryMeta { last_used: 20, size: 3 }));
}

#[test]
fn changed_input_misses() {
    let mut inv = Inventory::new(b"c".to_vec());
    let c = args(&["echo", "hi"]);
    let k = compute_key(&c, two_file_tree(b"world"));
    run(&mut inv, Some(k), 1_000_000, true, 3, 10);
    let k2 = compute_key(&c, two_file_tree(b"planet"));
    let (log, _) = run(&mut inv, Some(k2), 1_000_000, true, 3, 20);
    assert_eq!(log[0], "run");
    assert_eq!(inv.get(&k2), Some(EntryMeta { last_used: 20, size: 3 }));
}

#[test]
fn output_over_budget_never_cached() {
    let mut inv = Inventory::new(b"c".to_vec());
    let k = key(5, 6);
    for t in 0..3 {
        let (log, code) = run(&mut inv, Some(k), 10, true, 10, t);
        assert_eq!(code, 0);
        assert_eq!(log, vec!["run".to_string(), "measure".to_string()]);
        assert_eq!(inv.get(&k), None);
    }
}

#[test]
fn insertion_evicts_oldest_entries() {
    let mut inv = abc_inventory();
    let (log, _) = run(&mut inv, Some(key(4, 4)), 100, true, 50, 400);
    assert_eq!(log[2], "remove c/1/1.tar.gz,c/2/2.tar.gz");
    assert_eq!(log[3], "pack c/4/4.tar.gz");
    assert_eq!(inv.get(&key(1, 1)), None);
    assert_eq!(inv.get(&key(2, 2)), None);
    assert!(inv.get(&key(3, 3)).is_some());
    assert_eq!(inv.get(&key(4, 4)), Some(EntryMeta { last_used: 400, size: 50 }));
}

#[test]
fn corrupt_archive_falls_back_to_running() {
    let mut inv = Inventory::new(b"c".to_vec());
    inv.insert(key(7, 7), 5, 1);
    let (log, code) = run(&mut inv, Some(key(7, 7)), 100, false, 6, 50);
    assert_eq!(code, 0);
    assert_eq!(log[0], "unpack c/7/7.tar.gz");
    assert_eq!(log[1], "run");
    assert_eq!(log[3], "pack c/7/7.tar.gz");
    assert_eq!(inv.get(&key(7, 7)), Some(EntryMeta { last_used: 50, size: 6 }));
}

#[test]
fn failed_command_exits_with_its_code_and_caches_nothing() {
    let mut inv = Inventory::new(b"c".to_vec());
    let mut s = Session::new(Some(key(1, 1)), 100, false);
    assert!(matches!(s.step(&mut inv, Event::Started, 0), Action::RunCommand));
    let a = s.step(&mut inv, Event::CommandExited { success: false, code: 3 }, 0);
    assert!(matches!(a, Action::Exit { code: 3 }));
    assert_eq!(inv.get(&key(1, 1)), None);
}

#[test]
fn no_key_runs_without_caching() {
    let mut inv = Inventory::new(b"c".to_vec());
    let (log, code) = run(&mut inv, None, 100, true, 1, 0);
    assert_eq!(code, 0);
    assert_eq!(log, vec!["run".to_string()]);
}

#[test]
fn dry_run_does_nothing() {
    let mut inv = Inventory::new(b"c".to_vec());
    inv.insert(key(1, 1), 1, 1);
    let mut s = Session::new(Some(key(1, 1)), 100, true);
    assert!(matches!(s.step(&mut inv, Event::Started, 9), Action::Exit { code: 0 }));
    assert_eq!(inv.get(&key(1, 1)), Some(EntryMeta { last_used: 1, size: 1 }));
}

#[test]
fn unexpected_event_ends_run() {
    let mut inv = Inventory::new(b"c".to_vec());
    let mut s = Session::new(Some(key(1, 1)), 100, false);
    assert!(matches!(s.step(&mut inv, Event::Packed { ok: true }, 0), Action::Exit { code: 1 }));
    assert_eq!(inv.get(&key(1, 1)), None);
}

#[test]
fn eviction_reports_old_metadata_and_total() {
    let mut inv = abc_inventory();
    let (keys, metas) = inv.make_room(50, 100).unwrap();
    assert_eq!(keys, vec![key(1, 1), key(2, 2)]);
    assert_eq!(
        metas,
        vec![EntryMeta { last_used: 100, size: 30 }, EntryMeta { last_used: 200, size: 30 }]
    );
    assert_eq!(inv.total_size(), 30);
}

#[test]
fn scenario_with_uneven_sizes() {
    let mut inv = Inventory::new(b"c".to_vec());
    inv.insert(key(1, 1), 40, 1);
    inv.insert(key(2, 2), 30, 2);
    inv.insert(key(3, 3), 30, 3);
    assert_eq!(inv.make_room(20, 101).map(|p| p.0), Some(vec![key(1, 1)]));
    let mut inv2 = Inventory::new(b"c".to_vec());
    inv2.insert(key(1, 1), 40, 1);
    inv2.insert(key(2, 2), 30, 2);
    inv2.insert(key(3, 3), 30, 3);
    assert_eq!(inv2.make_room(50, 101).map(|p| p.0), Some(vec![key(1, 1), key(2, 2)]));
}

fn drive_to_removal(inv: &mut Inventory, s: &mut Session) -> Action {
    assert!(matches!(s.step(inv, Event::Started, 0), Action::RunCommand));
    assert!(matches!(
        s.step(inv, Event::CommandExited { success: true, code: 0 }, 0),
        Action::MeasureOutput
    ));
    s.step(inv, Event::Measured { size: 50 }, 0)
}

#[test]
fn failed_removal_keeps_untouched_victims() {
    let mut inv = Inventory::new(b"c".to_vec());
    inv.insert(key(1, 1), 30, 100);
    inv.insert(key(2, 2), 30, 200);
    inv.insert(key(3, 3), 30, 300);
    inv.insert(key(4, 4), 30, 400);
    let mut s = Session::new(Some(key(9, 9)), 100, false);
    // 50 + 120 >= 100: A, B and C must go
    match drive_to_removal(&mut inv, &mut s) {
        Action::RemoveArchives { keys, .. } => assert_eq!(keys, vec![key(1, 1), key(2, 2), key(3, 3)]),
        other => panic!("{:?}", other),
    }
    // A deleted, B failed, C never tried
    let a = s.step(&mut inv, Event::Removed { count: 1 }, 0);
    assert!(matches!(a, Action::Exit { code: 0 }));
    assert_eq!(inv.get(&key(1, 1)), None);
    assert_eq!(inv.get(&key(2, 2)), None);
    assert_eq!(inv.get(&key(3, 3)), Some(EntryMeta { last_used: 300, size: 30 }));
    assert_eq!(inv.get(&key(4, 4)), Some(EntryMeta { last_used: 400, size: 30 }));
    assert_eq!(inv.get(&key(9, 9)), None);
}

#[test]
fn first_removal_failing_keeps_later_victims() {
    let mut inv = abc_inventory();
    let mut s = Session::new(Some(key(9, 9)), 100, false);
    assert!(matches!(drive_to_removal(&mut inv, &mut s), Action::RemoveArchives { .. }));
    let a = s.step(&mut inv, Event::Removed { count: 0 }, 0);
    assert!(matches!(a, Action::Exit { code: 0 }));
    assert_eq!(inv.get(&key(1, 1)), None);
    assert_eq!(inv.get(&key(2, 2)), Some(EntryMeta { last_used: 200, size: 30 }));
    assert_eq!(inv.get(&key(3, 3)), Some(EntryMeta { last_used: 300, size: 30 }));
}
