use kvs::{
    choose_active, expect_value, get_generation_list, logfile_path, parse_generation, replay, Command,
    CommandPointer, Engine, Index, KvsError, SIZE_THRESHOLD,
};

fn s(x: &str) -> String {
    x.to_string()
}

fn set(k: &str, v: &str, end: usize) -> (Command, usize) {
    (Command::SetValue(s(k), s(v)), end)
}

fn rm(k: &str, end: usize) -> (Command, usize) {
    (Command::Remove(s(k)), end)
}

fn fresh() -> Engine {
    Engine::open(&vec![], &vec![], 0)
}

fn ptr(gen: usize, start: usize, end: usize) -> CommandPointer {
    CommandPointer::new(gen, start..end)
}

#[test]
fn command_kind_names() {
    assert_eq!(Command::SetValue(s("k"), s("v")).kind(), "set");
    assert_eq!(Command::Remove(s("k")).kind(), "rm");
}

#[test]
fn pointer_from_range() {
    let p = CommandPointer::new(3, 10..25);
    assert_eq!(p.gen(), 3);
    assert_eq!(p.start(), 10);
    assert_eq!(p.len(), 15);
}

#[test]
fn path_of_generation() {
    assert_eq!(logfile_path("data", 12), "data/12.log");
    assert_eq!(logfile_path("/tmp/store", 0), "/tmp/store/0.log");
    assert_eq!(logfile_path("", 7), "7.log");
    assert_eq!(logfile_path("data/", 7), "data/7.log");
}

#[test]
fn parse_generation_names() {
    assert_eq!(parse_generation(b"12.log"), Some(12));
    assert_eq!(parse_generation(b"007.log"), Some(7));
    assert_eq!(parse_generation(b"18446744073709551615.log"), Some(usize::MAX));
    assert_eq!(parse_generation(b"18446744073709551616.log"), None);
    assert_eq!(parse_generation(b".log"), None);
    assert_eq!(parse_generation(b"x1.log"), None);
    assert_eq!(parse_generation(b"12.txt"), None);
    assert_eq!(parse_generation(b"12"), None);
}

#[test]
fn generation_list_sorted_and_filtered() {
    let names: Vec<Vec<u8>> = vec![
        b"3.log".to_vec(),
        b"notes.txt".to_vec(),
        b"1.log".to_vec(),
        b"abc.log".to_vec(),
        b"2.log".to_vec(),
    ];
    assert_eq!(get_generation_list(&names), vec![1, 2, 3]);
    assert_eq!(get_generation_list(&vec![]), Vec::<usize>::new());
}

#[test]
fn active_generation_choice() {
    assert_eq!(choose_active(&vec![], 0), 1);
    assert_eq!(choose_active(&vec![1, 2], 100), 2);
    assert_eq!(choose_active(&vec![1, 2], SIZE_THRESHOLD as u64), 2);
    assert_eq!(choose_active(&vec![1, 2], SIZE_THRESHOLD as u64 + 1), 3);
}

#[test]
fn oversized_segment_starts_new_generation_on_open() {
    let logs = vec![vec![set("a", "1", 10)]];
    let e = Engine::open(&vec![4], &logs, SIZE_THRESHOLD as u64 + 5);
    assert_eq!(e.curr_gen(), 5);
    assert_eq!(e.generations(), vec![4, 5]);
    let e = Engine::open(&vec![4], &logs, 10);
    assert_eq!(e.curr_gen(), 4);
    assert_eq!(e.generations(), vec![4]);
}

#[test]
fn replay_rebuilds_index_and_counts_stale() {
    let mut index = Index::new();
    let recs = vec![set("a", "1", 10), set("b", "2", 25), set("a", "3", 37), rm("b", 45), rm("c", 50)];
    let stale = replay(&recs, &mut index, 7);
    // a's first record (10), b's record (15) and two tombstones (8 and 5)
    assert_eq!(stale, 10 + 15 + 8 + 5);
    assert_eq!(index.len(), 1);
    assert_eq!(index.get(&s("a")), Some(ptr(7, 25, 37)));
    assert_eq!(index.get(&s("b")), None);
}

#[test]
fn later_generation_wins_on_open() {
    let logs = vec![vec![set("a", "1", 10), set("b", "1", 20)], vec![set("a", "2", 12), rm("b", 20)]];
    let e = Engine::open(&vec![1, 2], &logs, 20);
    assert_eq!(e.locate(&s("a")).unwrap(), Some(ptr(2, 0, 12)));
    assert_eq!(e.locate(&s("b")).unwrap(), None);
    assert_eq!(e.stale_bytes(), 10 + 10 + 8);
    assert_eq!(e.curr_gen(), 2);
}

#[test]
fn reopen_matches_live_index() {
    let mut e = fresh();
    e.record_set(s("a"), 0, 10);
    e.record_set(s("b"), 10, 20);
    e.record_set(s("a"), 20, 31);
    e.record_remove(&s("b"), 31, 40);
    let logs = vec![vec![set("a", "x", 10), set("b", "y", 20), set("a", "z", 31), rm("b", 40)]];
    let r = Engine::open(&vec![1], &logs, 40);
    for k in ["a", "b", "c"] {
        assert_eq!(e.locate(&s(k)).unwrap(), r.locate(&s(k)).unwrap());
    }
    assert_eq!(e.stale_bytes(), r.stale_bytes());
}

#[test]
fn tombstone_precedence() {
    let mut e = fresh();
    e.record_set(s("k"), 0, 10);
    assert_eq!(e.record_remove(&s("k"), 10, 18), (true, false));
    assert_eq!(e.locate(&s("k")).unwrap(), None);
    let logs = vec![vec![set("k", "v", 10), rm("k", 18)]];
    let r = Engine::open(&vec![1], &logs, 18);
    assert_eq!(r.locate(&s("k")).unwrap(), None);
}

#[test]
fn overwrite_precedence() {
    let mut e = fresh();
    e.record_set(s("k"), 0, 10);
    e.record_set(s("k"), 10, 20);
    assert_eq!(e.locate(&s("k")).unwrap(), Some(ptr(1, 10, 20)));
    assert_eq!(e.stale_bytes(), 10);
    assert_eq!(expect_value(Command::SetValue(s("k"), s("b"))).unwrap(), "b");
}

#[test]
fn absent_key() {
    let mut e = fresh();
    e.record_set(s("a"), 0, 10);
    assert_eq!(e.locate(&s("missing")).unwrap(), None);
    assert_eq!(e.record_remove(&s("missing"), 10, 20), (false, false));
    assert_eq!(e.stale_bytes(), 0);
    assert_eq!(e.locate(&s("a")).unwrap(), Some(ptr(1, 0, 10)));
}

#[test]
fn remove_counts_record_and_tombstone() {
    let mut e = fresh();
    e.record_set(s("a"), 0, 10);
    assert_eq!(e.record_remove(&s("a"), 10, 17), (true, false));
    assert_eq!(e.stale_bytes(), 17);
}

#[test]
fn unexpected_command_error() {
    match expect_value(Command::Remove(s("k"))) {
        Err(KvsError::UnexpectedCommand { expected, got }) => {
            assert_eq!(expected, "set");
            assert_eq!(got, "rm");
        }
        _ => panic!("expected an UnexpectedCommand error"),
    }
}

#[test]
fn set_signals_compaction_past_threshold() {
    let mut e = fresh();
    assert!(!e.record_set(s("a"), 0, SIZE_THRESHOLD));
    assert!(!e.needs_compaction());
    assert!(!e.record_set(s("a"), SIZE_THRESHOLD, SIZE_THRESHOLD + 1));
    assert!(e.record_set(s("a"), SIZE_THRESHOLD + 1, SIZE_THRESHOLD + 2));
    assert!(e.needs_compaction());
}

#[test]
fn compaction_repoints_into_target() {
    let logs = vec![vec![set("a", "1", 10), set("b", "2", 20)], vec![set("a", "3", 15)]];
    let mut e = Engine::open(&vec![1, 2], &logs, 15);
    assert_eq!(e.compaction_target(), 3);
    let live = e.live_pointers();
    assert_eq!(live.len(), 2);
    let copied: Vec<usize> = live.iter().map(|p| p.len()).collect();
    let c = e.finish_compaction(&copied);
    assert_eq!(c.reclaimed, 10);
    assert_eq!(c.clean_gen, 3);
    assert_eq!(c.active_gen, 3);
    assert_eq!(c.obsolete, vec![1, 2]);
    assert_eq!(e.stale_bytes(), 0);
    assert_eq!(e.curr_gen(), 3);
    assert_eq!(e.generations(), vec![3]);
    let pa = e.locate(&s("a")).unwrap().unwrap();
    let pb = e.locate(&s("b")).unwrap().unwrap();
    assert_eq!(pa.gen(), 3);
    assert_eq!(pb.gen(), 3);
    assert_eq!(pa.len(), 15);
    assert_eq!(pb.len(), 10);
    // the two copies lie back to back from offset 0
    assert_eq!(pa.start().min(pb.start()), 0);
    assert_eq!(pa.start().max(pb.start()), if pa.start() == 0 { 15 } else { 10 });
}

#[test]
fn compaction_without_stale_data_keeps_keys() {
    let mut e = fresh();
    e.record_set(s("a"), 0, 10);
    e.record_set(s("b"), 10, 30);
    let live = e.live_pointers();
    let copied: Vec<usize> = live.iter().map(|p| p.len()).collect();
    let c = e.finish_compaction(&copied);
    assert_eq!(c.reclaimed, 0);
    assert_eq!(c.obsolete, vec![1]);
    let a = e.locate(&s("a")).unwrap().unwrap();
    let b = e.locate(&s("b")).unwrap().unwrap();
    assert_eq!((a.gen(), a.len()), (2, 10));
    assert_eq!((b.gen(), b.len()), (2, 20));
    assert_eq!(a.len() + b.len(), 30);
}

#[test]
fn large_compaction_rolls_to_next_generation() {
    let mut e = fresh();
    e.record_set(s("a"), 0, SIZE_THRESHOLD);
    e.record_set(s("b"), SIZE_THRESHOLD, SIZE_THRESHOLD + 10);
    let copied = vec![SIZE_THRESHOLD, 10];
    let c = e.finish_compaction(&copied);
    assert_eq!(c.clean_gen, 2);
    assert_eq!(c.active_gen, 3);
    assert_eq!(e.curr_gen(), 3);
    assert_eq!(e.generations(), vec![2, 3]);
    assert_eq!(c.obsolete, vec![1]);
    assert_eq!(e.locate(&s("b")).unwrap(), Some(ptr(2, SIZE_THRESHOLD, SIZE_THRESHOLD + 10)));
}

#[test]
fn reopen_before_old_generations_deleted() {
    // generation 1 holds a, b (overwritten) and c (removed); generation 2 is what a
    // compaction copied before the old generation was deleted
    let old = vec![
        set("a", "1", 10),
        set("b", "2", 20),
        set("b", "3", 30),
        set("c", "4", 40),
        rm("c", 48),
    ];
    let mut e = Engine::open(&vec![1], &vec![old.clone()], 48);
    let live = e.live_pointers();
    let copied: Vec<usize> = live.iter().map(|p| p.len()).collect();
    let c = e.finish_compaction(&copied);
    assert_eq!(c.clean_gen, 2);
    let copy = vec![set("a", "1", 10), set("b", "3", 20)];
    let r = Engine::open(&vec![1, 2], &vec![old, copy], 20);
    assert_eq!(r.locate(&s("a")).unwrap(), Some(ptr(2, 0, 10)));
    assert_eq!(r.locate(&s("b")).unwrap(), Some(ptr(2, 10, 20)));
    assert_eq!(r.locate(&s("c")).unwrap(), None);
    assert_eq!(e.locate(&s("a")).unwrap(), r.locate(&s("a")).unwrap());
    assert_eq!(e.locate(&s("b")).unwrap(), r.locate(&s("b")).unwrap());
}

#[test]
fn remove_signals_compaction_past_threshold() {
    let mut e = fresh();
    e.record_set(s("a"), 0, SIZE_THRESHOLD);
    assert_eq!(e.record_remove(&s("a"), SIZE_THRESHOLD, SIZE_THRESHOLD + 5), (true, true));
    assert!(e.needs_compaction());
    assert_eq!(e.record_remove(&s("a"), SIZE_THRESHOLD + 5, SIZE_THRESHOLD + 10), (false, false));
}
