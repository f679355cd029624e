use wallpicker::cache::{artifact_name, temp_name, SourceMeta};
use wallpicker::store::{tally, Failure, Outcome, Population, Stage, StoreAction, StoreEvent, Tally};

fn begin() -> Population {
    Population::begin("/cache", "/pics/a.png", Some(SourceMeta { mtime: 3, length: 4 }), 200)
}

fn names() -> (String, String) {
    let key = wallpicker::cache::derive("/pics/a.png", Some(SourceMeta { mtime: 3, length: 4 }), 200);
    (
        format!("/cache/{}", artifact_name(&key)),
        format!("/cache/{}", temp_name(&key, 123456789)),
    )
}

#[test]
fn a_cached_thumbnail_is_a_hit() {
    let (candidate, _) = names();
    let p = begin();
    assert!(matches!(p.pending(), StoreAction::Probe(ref c) if c == &candidate));
    assert_eq!(p.outcome(), None);
    let p = p.advance(StoreEvent::Present(true));
    assert_eq!(p.outcome(), Some(Outcome::Hit));
    assert!(matches!(p.pending(), StoreAction::Finish(Outcome::Hit)));
}

#[test]
fn a_miss_writes_once_and_moves_the_file_into_place() {
    let (candidate, temp) = names();
    let p = begin().advance(StoreEvent::Present(false));
    assert!(matches!(p.pending(), StoreAction::Decode(ref s) if s == "/pics/a.png"));
    let p = p.advance(StoreEvent::Decoded(true));
    assert!(matches!(p.pending(), StoreAction::MakeDir(ref d) if d == "/cache"));
    let p = p.advance(StoreEvent::DirMade(true));
    assert!(matches!(p.pending(), StoreAction::ReadClock));
    let p = p.advance(StoreEvent::Clock(Some(123456789)));
    assert!(matches!(p.pending(), StoreAction::WriteTemp(ref t) if t == &temp));
    let p = p.advance(StoreEvent::Written(true));
    match p.pending() {
        StoreAction::Rename { from, to } => {
            assert_eq!(from, temp);
            assert_eq!(to, candidate);
        }
        other => panic!("{:?}", other),
    }
    let p = p.advance(StoreEvent::Renamed(true));
    assert_eq!(p.outcome(), Some(Outcome::Created));
    // the second population of the same source looks in the same place
    let again = begin();
    assert!(matches!(again.pending(), StoreAction::Probe(ref c) if c == &candidate));
    assert_eq!(again.advance(StoreEvent::Present(true)).outcome(), Some(Outcome::Hit));
}

#[test]
fn each_step_can_fail() {
    let p = begin().advance(StoreEvent::Present(false));
    assert_eq!(
        begin().advance(StoreEvent::Present(false)).advance(StoreEvent::Decoded(false)).outcome(),
        Some(Outcome::Failed(Failure::Decode))
    );
    let p = p.advance(StoreEvent::Decoded(true));
    assert_eq!(p.stage, Stage::MakingDir);
    let q = begin()
        .advance(StoreEvent::Present(false))
        .advance(StoreEvent::Decoded(true))
        .advance(StoreEvent::DirMade(false));
    assert_eq!(q.outcome(), Some(Outcome::Failed(Failure::MakeDir)));
    let p = p.advance(StoreEvent::DirMade(true)).advance(StoreEvent::Clock(None));
    assert_eq!(p.nanos, 0);
    let key = wallpicker::cache::derive("/pics/a.png", Some(SourceMeta { mtime: 3, length: 4 }), 200);
    assert_eq!(p.temporary(), format!("/cache/{}.0.png", key.to_hex()));
    let w = begin()
        .advance(StoreEvent::Present(false))
        .advance(StoreEvent::Decoded(true))
        .advance(StoreEvent::DirMade(true))
        .advance(StoreEvent::Clock(Some(1)))
        .advance(StoreEvent::Written(false));
    assert_eq!(w.outcome(), Some(Outcome::Failed(Failure::Write)));
    let p = p.advance(StoreEvent::Written(true)).advance(StoreEvent::Renamed(false));
    assert_eq!(p.outcome(), Some(Outcome::Failed(Failure::Rename)));
}

#[test]
fn an_answer_to_another_question_changes_nothing() {
    let p = begin().advance(StoreEvent::Written(true));
    assert_eq!(p.stage, Stage::Probing);
    let p = p.advance(StoreEvent::Present(true)).advance(StoreEvent::Present(false));
    assert_eq!(p.outcome(), Some(Outcome::Hit));
}

#[test]
fn a_batch_counts_failures_and_goes_on() {
    let outcomes = vec![
        Outcome::Created,
        Outcome::Hit,
        Outcome::Failed(Failure::Decode),
        Outcome::Created,
        Outcome::Failed(Failure::Rename),
        Outcome::Hit,
        Outcome::Hit,
    ];
    assert_eq!(tally(&outcomes), Tally { generated: 2, skipped: 3, failed: 2 });
    assert_eq!(tally(&Vec::new()), Tally { generated: 0, skipped: 0, failed: 0 });
}
