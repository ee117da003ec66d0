use karamd::date::Date;
use karamd::taskmd::config::{Config, IdStrategy};
use karamd::taskmd::model::Task;
use karamd::taskmd::store::{classify_file, dir_group_of, find_unique, random_id, random_id_from, text_less, entry_action, EntryAction, InvalidFile, ulid_from, ulid_id, Entropy, FileScan, FindError, Scan, SystemEntropy, Vault};

struct FakeEntropy {
    ms: u64,
    seq: Vec<u64>,
    at: usize,
}

impl FakeEntropy {
    fn new(ms: u64, seq: Vec<u64>) -> Self {
        FakeEntropy { ms, seq, at: 0 }
    }
}

impl Entropy for FakeEntropy {
    fn now_ms(&mut self) -> u64 {
        self.ms
    }
    fn rand_u64(&mut self) -> u64 {
        let v = self.seq[self.at % self.seq.len()];
        self.at += 1;
        v
    }
}

fn vault_with(strategy: IdStrategy, prefix: &str) -> Vault {
    let mut c = Config::default();
    c.id.strategy = strategy;
    c.id.prefix = prefix.into();
    Vault::open("/v", c)
}

fn ids(v: &[&str]) -> Vec<String> {
    v.iter().map(|s| s.to_string()).collect()
}

#[test]
fn random_id_refreshes_entropy_for_long_ids() {
    let mut e = FakeEntropy::new(0, vec![u64::MAX, 1]);
    let id = random_id(12, &mut e);
    assert_eq!(id.len(), 12);
}

#[test]
fn ulid_long_length_appends_random_tail() {
    let mut e = FakeEntropy::new(1_783_000_000_000, vec![0b11111_00001]);
    let id = ulid_id(14, 1_783_000_000_000, &mut e);
    assert_eq!(id.len(), 14);
    let again = ulid_id(14, 1_783_000_000_000, &mut FakeEntropy::new(0, vec![0b11111_00001]));
    assert_eq!(id[..10], again[..10]);
}

#[test]
fn system_entropy_produces_usable_values() {
    let mut e = SystemEntropy::default();
    assert!(e.now_ms() > 1_700_000_000_000);
    let a = e.rand_u64();
    let b = e.rand_u64();
    assert_ne!(a, b);
}

#[test]
fn splitmix_stream_is_reproducible() {
    let mut a = SystemEntropy::with_seed(0);
    let mut b = SystemEntropy::with_seed(0);
    assert_eq!(a.rand_u64(), b.rand_u64());
    assert_eq!(SystemEntropy::with_seed(0).rand_u64(), 0xE220A8397B1DCDAF);
}

#[test]
fn allocate_sequential_pads_and_increments() {
    let v = vault_with(IdStrategy::Sequential, "");
    let mut e = FakeEntropy::new(0, vec![0]);
    assert_eq!(v.allocate_id(&ids(&["001", "007", "not-numeric"]), &mut e).as_deref(), Some("008"));
    assert_eq!(v.allocate_id(&Vec::new(), &mut e).as_deref(), Some("001"));
}

#[test]
fn allocate_sequential_grows_past_padding() {
    let v = vault_with(IdStrategy::Sequential, "");
    let mut e = FakeEntropy::new(0, vec![0]);
    assert_eq!(v.allocate_id(&ids(&["999"]), &mut e).as_deref(), Some("1000"));
}

#[test]
fn allocate_prefixed_matches_taskmd_no_separator() {
    let v = vault_with(IdStrategy::Prefixed, "dr");
    let mut e = FakeEntropy::new(0, vec![0]);
    assert_eq!(v.allocate_id(&Vec::new(), &mut e).as_deref(), Some("dr001"));
    assert_eq!(v.allocate_id(&ids(&["dr001", "dr041", "x9"]), &mut e).as_deref(), Some("dr042"));
}

#[test]
fn allocate_random_respects_length_and_collisions() {
    let v = vault_with(IdStrategy::Random, "");
    let mut e = FakeEntropy::new(0, vec![42, 42, 7_777_777_777]);
    let first = v.allocate_id(&Vec::new(), &mut e).unwrap();
    assert_eq!(first.len(), 6);
    assert!(first.chars().all(|c| c.is_ascii_lowercase() || c.is_ascii_digit()));
    let mut e2 = FakeEntropy::new(0, vec![42, 42, 7_777_777_777]);
    let second = v.allocate_id(&vec![first.clone()], &mut e2).unwrap();
    assert_ne!(first, second);
    assert_eq!(second.len(), 6);
}

#[test]
fn allocate_ulid_is_time_prefixed_and_length_bound() {
    let v = vault_with(IdStrategy::Ulid, "");
    let mut e = FakeEntropy::new(1_783_000_000_000, vec![99]);
    let id = v.allocate_id(&Vec::new(), &mut e).unwrap();
    assert_eq!(id.len(), 6);
    let mut e2 = FakeEntropy::new(1_783_000_000_000, vec![99]);
    let id2 = v.allocate_id(&vec![id.clone()], &mut e2).unwrap();
    assert_ne!(id, id2);
}

#[test]
fn open_uses_config_dir() {
    let mut c = Config::default();
    c.dir = "./elsewhere".into();
    let v = Vault::open("/root", c);
    assert_eq!(v.tasks_dir(), "/root/elsewhere");
}

fn task(id: &str, title: &str) -> Task {
    Task::new(id, title, Date::from_ymd(2026, 7, 1).unwrap())
}

#[test]
fn find_by_id() {
    let scan = Scan { tasks: vec![task("001", "A"), task("002", "B")], invalid: vec![] };
    assert_eq!(scan.find("001").unwrap().title(), "A");
    assert!(scan.find("404").is_none());
    assert_eq!(find_unique(&scan.tasks, "002"), Ok(1));
    assert_eq!(find_unique(&scan.tasks, "404"), Err(FindError::NotFound));
}

#[test]
fn find_duplicate_id_refuses() {
    let tasks = vec![task("001", "A"), task("001", "B"), task("001", "C")];
    assert_eq!(find_unique(&tasks, "001"), Err(FindError::Ambiguous(3)));
}

#[test]
fn scan_subdirectory_becomes_group() {
    assert_eq!(dir_group_of("001-a.md"), None);
    assert_eq!(dir_group_of("web/002-b.md").as_deref(), Some("web"));
    assert_eq!(dir_group_of("a/deep/003-c.md").as_deref(), Some("deep"));
}

#[test]
fn scan_collects_tasks_skips_noise_reports_invalid() {
    match classify_file("web/001-a.md", "---\nid: \"001\"\ntitle: A\n---\n") {
        FileScan::Task(t) => {
            assert_eq!(t.id(), "001");
            assert_eq!(t.rel_path.as_deref(), Some("web/001-a.md"));
            assert_eq!(t.dir_group.as_deref(), Some("web"));
        }
        other => panic!("unexpected {other:?}"),
    }
    assert_eq!(classify_file("README.md", "# readme\n"), FileScan::Skipped);
    match classify_file("002-broken.md", "---\nid: \"002\"\n---\n") {
        FileScan::Invalid(f) => {
            assert_eq!(f.rel_path, "002-broken.md");
            assert!(f.reason.contains("`title`"));
        }
        other => panic!("unexpected {other:?}"),
    }
}

#[test]
fn round_trip_through_taskmd_shape_preserves_recurring() {
    let raw = "---\nid: \"001\"\ntitle: R\nstatus: pending\nrecurring: \"checkin\"\n---\n\n# R\n";
    let mut t = match classify_file("001-r.md", raw) {
        FileScan::Task(t) => t,
        other => panic!("not a task: {other:?}"),
    };
    t.set_status(karamd::taskmd::Status::Completed, Date::from_ymd(2026, 7, 2).unwrap());
    let written = t.try_to_markdown().unwrap();
    let back = match classify_file("001-r.md", &written) {
        FileScan::Task(t) => t,
        other => panic!("not a task: {other:?}"),
    };
    assert_eq!(back.recurring().as_deref(), Some("checkin"));
    assert_eq!(back.completed_at(), Some(Date::from_ymd(2026, 7, 2).unwrap()));
}

#[test]
fn random_id_spells_the_drawn_values_in_base36() {
    assert_eq!(random_id_from(&vec![37, 1], 12), "bbaaaaaaaaba");
    assert_eq!(random_id_from(&vec![35 + 36 * 25], 3), "9za");
    let mut e = FakeEntropy::new(0, vec![37, 1]);
    assert_eq!(random_id(12, &mut e), "bbaaaaaaaaba");
    assert_eq!(e.at, 2);
}

#[test]
fn ulid_tail_spells_five_bit_groups_of_each_draw() {
    assert_eq!(ulid_from(14, 0, &vec![0b11111_00001, 66]), "00000000001z22");
    assert_eq!(ulid_from(6, 1_783_000_000_000, &vec![5]).len(), 6);
    let mut e = FakeEntropy::new(0, vec![0b11111_00001]);
    assert_eq!(ulid_id(14, 0, &mut e), "00000000001z1z");
    assert_eq!(e.at, 3);
}

#[test]
fn scan_sorts_by_relative_path_like_string_order() {
    assert!(text_less("a/b.md", "a/c.md"));
    assert!(text_less("a", "ab"));
    assert!(!text_less("b", "a"));
    assert!(!text_less("a", "a"));
    assert!(text_less("Z", "a"));
    let mut scan = Scan::default();
    for (p, id) in [("b/002-x.md", "002"), ("a/003-y.md", "003"), ("001-z.md", "001")] {
        let mut t = Task::new(id, "t", Date::from_ymd(2026, 1, 1).unwrap());
        t.rel_path = Some(p.to_string());
        scan.tasks.push(t);
    }
    scan.tasks.push(Task::new("000", "none", Date::from_ymd(2026, 1, 1).unwrap()));
    scan.invalid.push(InvalidFile { rel_path: "z.md".into(), reason: "r".into() });
    scan.invalid.push(InvalidFile { rel_path: "m.md".into(), reason: "r".into() });
    scan.sort_by_path();
    let order: Vec<Option<String>> = scan.tasks.iter().map(|t| t.rel_path.clone()).collect();
    assert_eq!(
        order,
        vec![None, Some("001-z.md".to_string()), Some("a/003-y.md".to_string()), Some("b/002-x.md".to_string())]
    );
    assert_eq!(scan.invalid[0].rel_path, "m.md");
}

#[test]
fn scanner_skips_hidden_entries_and_reads_only_markdown() {
    use_entry_actions();
}

fn use_entry_actions() {
    assert_eq!(entry_action(".git", true), EntryAction::Skip);
    assert_eq!(entry_action(".draft.md", false), EntryAction::Skip);
    assert_eq!(entry_action("sub", true), EntryAction::Descend);
    assert_eq!(entry_action("001-x.md", false), EntryAction::Read);
    assert_eq!(entry_action("notes.txt", false), EntryAction::Skip);
    assert_eq!(entry_action("md", false), EntryAction::Skip);
}
