use wallpicker::session::{
    chrono_like, count_set, newest_index, oldest_index, read_modified_time, Action, Event, Group,
    Notice, Phase, Resolution, Session, SessionStats,
};

fn group(size: u64, members: &[&str]) -> Group {
    Group { size, members: members.iter().map(|s| s.to_string()).collect() }
}

fn line(text: &str) -> Event {
    Event::Line(Some(text.to_string()))
}

fn step(s: Session, e: Event) -> (Session, Notice) {
    assert!(s.has_room(&e));
    s.step(e)
}

fn quiet(s: Session, e: Event) -> Session {
    let (s, n) = step(s, e);
    assert!(matches!(n, Notice::Quiet), "{:?}", n);
    s
}

fn prompt_members(s: &Session) -> Vec<String> {
    match s.pending() {
        Action::Prompt { members, .. } => members,
        other => panic!("no prompt but {:?}", other),
    }
}

fn deleted_paths(s: &Session) -> Vec<String> {
    match s.pending() {
        Action::Delete(paths) => paths,
        other => panic!("no deletion but {:?}", other),
    }
}

#[test]
fn newest_and_oldest_of_three() {
    let times = vec![5, 9, 3];
    assert_eq!(newest_index(&times), Some(1));
    assert_eq!(oldest_index(&times), Some(2));
}

#[test]
fn the_first_wins_a_tie() {
    assert_eq!(newest_index(&vec![7, 9, 9, 1]), Some(1));
    assert_eq!(oldest_index(&vec![7, 1, 9, 1]), Some(1));
    assert_eq!(newest_index(&vec![4, 4, 4]), Some(0));
    assert_eq!(oldest_index(&vec![4, 4, 4]), Some(0));
    assert_eq!(newest_index(&vec![-5, -2, -9]), Some(1));
    assert_eq!(oldest_index(&vec![-5, -2, -9]), Some(2));
    assert_eq!(newest_index(&vec![1]), Some(0));
}

#[test]
fn nothing_is_newest_of_nothing() {
    assert_eq!(newest_index(&Vec::new()), None);
    assert_eq!(oldest_index(&Vec::new()), None);
}

#[test]
fn counting_successes() {
    assert_eq!(count_set(&vec![true, false, true, true]), 3);
    assert_eq!(count_set(&Vec::new()), 0);
    assert_eq!(count_set(&vec![false]), 0);
}

#[test]
fn times_as_the_prompt_shows_them() {
    assert_eq!(chrono_like(0), "0s");
    assert_eq!(chrono_like(1700000000), "1700000000s");
    assert_eq!(read_modified_time(Some(12)), "12s");
    assert_eq!(read_modified_time(None), "unknown");
}

#[test]
fn keep_newest_of_three_equal_files() {
    // three files of equal content, 100 bytes each; `kn`
    let s = Session::new(vec![group(100, &["/a", "/b", "/c"])]);
    assert!(matches!(s.pending(), Action::CheckExists(ref p) if p.len() == 3));
    let s = quiet(s, Event::Exists(vec![true, true, true]));
    assert_eq!(s.phase(), Phase::Presenting);
    assert_eq!(s.stats().groups_processed, 0);
    match s.pending() {
        Action::Prompt { number, size, members } => {
            assert_eq!(number, 1);
            assert_eq!(size, 100);
            assert_eq!(members, vec!["/a", "/b", "/c"]);
        }
        other => panic!("{:?}", other),
    }
    let s = quiet(s, line("kn"));
    assert!(matches!(s.pending(), Action::ReadTimes(ref p) if p.len() == 3));
    let s = quiet(s, Event::Times(vec![5, 9, 3]));
    assert_eq!(s.phase(), Phase::Deleting(1));
    assert_eq!(deleted_paths(&s), vec!["/a", "/c"]);
    let s = quiet(s, Event::Deleted(vec![true, true]));
    assert!(s.is_over());
    let stats = s.stats();
    assert_eq!(stats.total_deleted, 2);
    assert_eq!(stats.bytes_reclaimed, 200);
    assert_eq!(stats.groups_processed, 1);
    assert!(matches!(s.pending(), Action::Summary(t) if t == stats));
    assert_eq!(
        s.last_resolution(),
        Some(Resolution { presented: 3, deleted: 2, remaining: 1 })
    );
}

#[test]
fn keep_oldest_of_three() {
    let s = Session::new(vec![group(7, &["/a", "/b", "/c"])]);
    let s = quiet(s, Event::Exists(vec![true, true, true]));
    let s = quiet(s, line("ko"));
    let s = quiet(s, Event::Times(vec![5, 9, 3]));
    assert_eq!(s.phase(), Phase::Deleting(2));
    assert_eq!(deleted_paths(&s), vec!["/a", "/b"]);
    let s = quiet(s, Event::Deleted(vec![true, true]));
    assert_eq!(
        s.stats(),
        SessionStats { groups_processed: 1, total_deleted: 2, bytes_reclaimed: 14 }
    );
}

#[test]
fn quitting_leaves_the_other_groups_alone() {
    // three unresolved groups, and `q` at the first prompt
    let groups = vec![
        group(30, &["/a1", "/a2"]),
        group(20, &["/b1", "/b2"]),
        group(10, &["/c1", "/c2"]),
    ];
    let s = Session::new(groups);
    let s = quiet(s, Event::Exists(vec![true, true]));
    let (s, notice) = step(s, line("q"));
    assert!(matches!(notice, Notice::QuitEarly));
    assert!(s.is_over());
    assert_eq!(s.phase(), Phase::Finished);
    assert_eq!(
        s.stats(),
        SessionStats { groups_processed: 0, total_deleted: 0, bytes_reclaimed: 0 }
    );
    assert!(matches!(
        s.pending(),
        Action::Summary(SessionStats { groups_processed: 0, total_deleted: 0, bytes_reclaimed: 0 })
    ));
    // nothing moves a finished session
    let s = quiet(s, Event::Exists(vec![true, true]));
    let s = quiet(s, line("kn"));
    assert_eq!(s.phase(), Phase::Finished);
    assert_eq!(s.stats().groups_processed, 0);
}

#[test]
fn quitting_at_the_second_of_four_groups() {
    let groups = vec![
        group(40, &["/a1", "/a2"]),
        group(30, &["/b1", "/b2"]),
        group(20, &["/c1", "/c2"]),
        group(10, &["/d1", "/d2"]),
    ];
    let s = Session::new(groups);
    let s = quiet(s, Event::Exists(vec![true, true]));
    let s = quiet(s, line("s"));
    let s = quiet(s, Event::Exists(vec![true, true]));
    assert!(matches!(s.pending(), Action::Prompt { number: 2, size: 30, .. }));
    assert_eq!(s.stats().groups_processed, 1);
    let (s, _) = step(s, line("q"));
    assert!(s.is_over());
    assert_eq!(s.stats().groups_processed, 1);
}

#[test]
fn keep_by_number_asks_first() {
    let s = Session::new(vec![group(50, &["/a", "/b", "/c"])]);
    let s = quiet(s, Event::Exists(vec![true, true, true]));
    let s = quiet(s, line("k 2"));
    assert_eq!(s.phase(), Phase::Confirming(1));
    match s.pending() {
        Action::Confirm { others, keep } => {
            assert_eq!(others, 2);
            assert_eq!(keep, "/b");
        }
        other => panic!("{:?}", other),
    }
    // anything but yes leads back to the prompt, with nothing changed
    let s = quiet(s, line("n"));
    assert_eq!(s.phase(), Phase::Presenting);
    assert_eq!(s.stats().total_deleted, 0);
    let s = quiet(s, line("k 2"));
    let s = quiet(s, Event::Line(None));
    assert_eq!(s.phase(), Phase::Presenting);
    let s = quiet(s, line("k 2"));
    let s = quiet(s, line("Yes\n"));
    assert_eq!(s.phase(), Phase::Deleting(1));
    assert_eq!(deleted_paths(&s), vec!["/a", "/c"]);
    let s = quiet(s, Event::Deleted(vec![true, true]));
    assert_eq!(
        s.stats(),
        SessionStats { groups_processed: 1, total_deleted: 2, bytes_reclaimed: 100 }
    );
}

#[test]
fn a_number_that_names_no_member_gets_a_usage_notice() {
    let s = Session::new(vec![group(50, &["/a", "/b"])]);
    let s = quiet(s, Event::Exists(vec![true, true]));
    for bad in ["k", "k 0", "k 3", "k x", "k -1"] {
        let (t, notice) = step(Session::new(vec![group(50, &["/a", "/b"])]), Event::Exists(vec![true, true]));
        assert!(matches!(notice, Notice::Quiet));
        let (t, notice) = step(t, line(bad));
        assert!(matches!(notice, Notice::KeepUsage), "{:?}", bad);
        assert_eq!(t.phase(), Phase::Presenting);
        assert_eq!(t.stats(), SessionStats { groups_processed: 0, total_deleted: 0, bytes_reclaimed: 0 });
    }
    for bad in ["p", "p 0", "p 3", "p y"] {
        let (t, _) = step(Session::new(vec![group(50, &["/a", "/b"])]), Event::Exists(vec![true, true]));
        let (t, notice) = step(t, line(bad));
        assert!(matches!(notice, Notice::PreviewUsage), "{:?}", bad);
        assert_eq!(t.phase(), Phase::Presenting);
    }
    let (s, notice) = step(s, line("frob 1"));
    assert!(matches!(notice, Notice::Unknown(ref w) if w == "frob"));
    assert_eq!(s.phase(), Phase::Presenting);
    let s = quiet(s, line("   "));
    assert_eq!(s.phase(), Phase::Presenting);
    assert_eq!(prompt_members(&s), vec!["/a", "/b"]);
}

#[test]
fn failed_deletions_are_not_counted() {
    let s = Session::new(vec![group(10, &["/a", "/b", "/c", "/d"])]);
    let s = quiet(s, Event::Exists(vec![true, true, true, true]));
    let s = quiet(s, line("kn"));
    let s = quiet(s, Event::Times(vec![1, 1, 1, 1]));
    assert_eq!(s.phase(), Phase::Deleting(0));
    assert_eq!(deleted_paths(&s), vec!["/b", "/c", "/d"]);
    let s = quiet(s, Event::Deleted(vec![true, false, true]));
    assert!(s.is_over());
    assert_eq!(
        s.stats(),
        SessionStats { groups_processed: 1, total_deleted: 2, bytes_reclaimed: 20 }
    );
    assert_eq!(
        s.last_resolution(),
        Some(Resolution { presented: 4, deleted: 2, remaining: 2 })
    );
}

#[test]
fn skipping_changes_no_count_but_the_groups() {
    let s = Session::new(vec![group(10, &["/a", "/b"]), group(5, &["/c", "/d"])]);
    let s = quiet(s, Event::Exists(vec![true, true]));
    let s = quiet(s, line("s"));
    assert_eq!(s.phase(), Phase::Checking);
    assert_eq!(
        s.last_resolution(),
        Some(Resolution { presented: 2, deleted: 0, remaining: 2 })
    );
    let s = quiet(s, Event::Exists(vec![true, true]));
    let s = quiet(s, line("s"));
    assert!(s.is_over());
    assert_eq!(
        s.stats(),
        SessionStats { groups_processed: 2, total_deleted: 0, bytes_reclaimed: 0 }
    );
}

#[test]
fn a_group_with_fewer_than_two_files_left_is_passed_over() {
    let s = Session::new(vec![
        group(10, &["/a", "/b"]),
        group(5, &["/c", "/d", "/e"]),
        group(3, &["/f", "/g"]),
    ]);
    let s = quiet(s, Event::Exists(vec![true, false]));
    assert_eq!(s.phase(), Phase::Checking);
    assert_eq!(s.stats().groups_processed, 0);
    assert!(matches!(s.pending(), Action::CheckExists(ref p) if p == &vec!["/c", "/d", "/e"]));
    let s = quiet(s, Event::Exists(vec![false, true, true]));
    assert_eq!(s.phase(), Phase::Presenting);
    assert!(matches!(s.pending(), Action::Prompt { number: 2, size: 5, ref members } if members == &vec!["/d", "/e"]));
    assert_eq!(s.stats().groups_processed, 0);
    let s = quiet(s, line("s"));
    assert_eq!(s.stats().groups_processed, 1);
    let s = quiet(s, Event::Exists(vec![false, false]));
    assert!(s.is_over());
    assert_eq!(s.stats().groups_processed, 1);
    assert!(matches!(s.pending(), Action::Summary(_)));
}

#[test]
fn a_file_deleted_in_the_viewer_leaves_the_group() {
    let s = Session::new(vec![group(8, &["/a", "/b", "/c"])]);
    let s = quiet(s, Event::Exists(vec![true, true, true]));
    let s = quiet(s, line("p 2"));
    assert_eq!(s.phase(), Phase::Previewing(1));
    assert!(matches!(s.pending(), Action::Preview(ref p) if p == "/b"));
    let s = quiet(s, Event::Previewed(false));
    assert_eq!(s.phase(), Phase::Presenting);
    assert_eq!(prompt_members(&s), vec!["/a", "/b", "/c"]);
    let s = quiet(s, line("p 2"));
    let s = quiet(s, Event::Previewed(true));
    assert_eq!(s.phase(), Phase::Presenting);
    assert_eq!(prompt_members(&s), vec!["/a", "/c"]);
    assert_eq!(
        s.stats(),
        SessionStats { groups_processed: 0, total_deleted: 1, bytes_reclaimed: 8 }
    );
    // with one more gone the group is resolved by itself
    let s = quiet(s, line("p 1"));
    let s = quiet(s, Event::Previewed(true));
    assert!(s.is_over());
    assert_eq!(
        s.stats(),
        SessionStats { groups_processed: 1, total_deleted: 2, bytes_reclaimed: 16 }
    );
    assert_eq!(
        s.last_resolution(),
        Some(Resolution { presented: 3, deleted: 2, remaining: 1 })
    );
}

#[test]
fn a_line_that_cannot_be_read_leaves_the_group() {
    let s = Session::new(vec![group(8, &["/a", "/b"]), group(4, &["/c", "/d"])]);
    let s = quiet(s, Event::Exists(vec![true, true]));
    let (s, notice) = step(s, Event::Line(None));
    assert!(matches!(notice, Notice::ReadFailed));
    assert_eq!(s.phase(), Phase::Checking);
    assert_eq!(s.stats().groups_processed, 1);
}

#[test]
fn a_session_without_groups_has_nothing_to_do() {
    let s = Session::new(Vec::new());
    assert!(s.is_over());
    assert_eq!(s.phase(), Phase::NothingFound);
    assert!(matches!(s.pending(), Action::NothingFound));
    let s = quiet(s, line("kn"));
    assert_eq!(s.phase(), Phase::NothingFound);
}

#[test]
fn an_event_that_was_not_asked_for_changes_nothing() {
    let s = Session::new(vec![group(8, &["/a", "/b"])]);
    let s = quiet(s, line("kn"));
    assert_eq!(s.phase(), Phase::Checking);
    let s = quiet(s, Event::Exists(vec![true]));
    assert_eq!(s.phase(), Phase::Checking);
    let s = quiet(s, Event::Exists(vec![true, true]));
    let s = quiet(s, Event::Deleted(vec![true]));
    assert_eq!(s.phase(), Phase::Presenting);
    let s = quiet(s, line("kn"));
    let s = quiet(s, Event::Times(vec![1]));
    assert_eq!(s.phase(), Phase::Timing(true));
    let s = quiet(s, Event::Times(vec![1, 2]));
    let s = quiet(s, Event::Deleted(vec![true, true]));
    assert_eq!(s.phase(), Phase::Deleting(1));
    assert_eq!(s.stats().total_deleted, 0);
}

#[test]
fn counters_that_are_full_have_no_room() {
    let s = Session::new(vec![group(u64::MAX, &["/a", "/b", "/c"])]);
    let s = quiet(s, Event::Exists(vec![true, true, true]));
    let s = quiet(s, line("kn"));
    let s = quiet(s, Event::Times(vec![3, 2, 1]));
    assert!(s.has_room(&Event::Deleted(vec![true, false])));
    assert!(s.has_room(&Event::Deleted(vec![false, false])));
    assert!(!s.has_room(&Event::Deleted(vec![true, true])));
    let s = quiet(s, Event::Deleted(vec![false, true]));
    assert_eq!(s.stats().bytes_reclaimed, u64::MAX);
}

#[test]
fn a_step_without_room_hands_the_session_back() {
    let s = Session::new(vec![group(u64::MAX, &["/a", "/b", "/c"])]);
    let s = quiet(s, Event::Exists(vec![true, true, true]));
    let s = quiet(s, line("ko"));
    let s = quiet(s, Event::Times(vec![3, 2, 1]));
    let s = match s.try_step(Event::Deleted(vec![true, true])) {
        Ok(_) => panic!("moved on"),
        Err(same) => same,
    };
    assert_eq!(s.phase(), Phase::Deleting(2));
    assert_eq!(s.stats().total_deleted, 0);
    match s.try_step(Event::Deleted(vec![true, false])) {
        Ok((next, _)) => assert_eq!(next.stats().bytes_reclaimed, u64::MAX),
        Err(_) => panic!("held back"),
    }
}

#[test]
fn what_was_deleted_and_what_is_left_add_up() {
    let s = Session::new(vec![group(1, &["/a", "/b", "/c", "/d", "/e"])]);
    let s = quiet(s, Event::Exists(vec![true, true, false, true, true]));
    let s = quiet(s, line("p 1"));
    let s = quiet(s, Event::Previewed(true));
    let s = quiet(s, line("k 3"));
    let s = quiet(s, line("y"));
    assert_eq!(deleted_paths(&s), vec!["/b", "/d"]);
    let s = quiet(s, Event::Deleted(vec![false, true]));
    let r = s.last_resolution().unwrap();
    assert_eq!(r, Resolution { presented: 4, deleted: 2, remaining: 2 });
    assert_eq!(r.deleted + r.remaining, r.presented);
    assert_eq!(s.stats().total_deleted, 2);
}
