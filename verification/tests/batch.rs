//! A list of tracks.

use ymelorix::batch::{Batch, Step, GIVE_UP_AFTER};
use ymelorix::download::{Failure, Outcome};
use ymelorix::track::{TrackId, TrackInfo};

fn track(title: &str) -> TrackInfo {
    TrackInfo {
        id: TrackId("1".to_owned()),
        artists: vec!["A".to_owned()],
        title: Some(title.to_owned()),
        album: None,
    }
}

fn downloaded() -> Result<Outcome, Failure> {
    Ok(Outcome::Downloaded {
        path: "d/f".to_owned(),
        bytes: 4096,
    })
}

fn skipped() -> Result<Outcome, Failure> {
    Ok(Outcome::Skipped {
        stem: "s".to_owned(),
    })
}

fn failed() -> Result<Outcome, Failure> {
    Err(Failure::Track("нет".to_owned()))
}

fn line_of(step: Step) -> Option<String> {
    match step {
        Step::Next { line, .. } => Some(line),
        Step::Stop { last, .. } => last,
    }
}

#[test]
fn reports_every_track() {
    let batch = Batch::new(3);
    let (batch, step) = batch.report(&track("x"), downloaded());
    assert_eq!(line_of(step).unwrap(), "[1/3] A — x — скачан d/f (4 КБ)");
    let (batch, step) = batch.report(&track("y"), skipped());
    assert_eq!(line_of(step).unwrap(), "[2/3] A — y — уже есть s");
    let (batch, step) = batch.report(&track("z"), failed());
    assert_eq!(line_of(step).unwrap(), "[3/3] A — z — не скачан: нет");
    assert_eq!(
        batch.finish(),
        Err("не скачано треков: 1 из 3".to_owned())
    );
}

#[test]
fn a_list_without_failures_ends_well() {
    let (batch, _step) = Batch::new(1).report(&track("x"), skipped());
    assert_eq!(batch.finish(), Ok(()));
    assert_eq!(Batch::new(0).finish(), Ok(()));
}

#[test]
fn notes_a_file_that_took_the_place_of_another() {
    let (batch, step) = Batch::new(3).report(&track("x"), downloaded());
    assert!(matches!(step, Step::Next { overwritten: false, .. }));
    let (batch, step) = batch.report(&track("x"), skipped());
    assert!(matches!(step, Step::Next { overwritten: false, .. }));
    let (_batch, step) = batch.report(&track("x"), downloaded());
    match step {
        Step::Next { line, overwritten } => {
            assert!(overwritten);
            assert_eq!(
                line,
                "[3/3] A — x — скачан d/f (4 КБ) (перезаписал одноимённый трек)"
            );
        }
        other => panic!("{other:?}"),
    }
}

#[test]
fn gives_up_after_failures_in_a_row_with_skips_between() {
    let mut batch = Batch::new(20);
    for _failure in 1..GIVE_UP_AFTER {
        let (next, step) = batch.report(&track("x"), failed());
        assert!(matches!(step, Step::Next { .. }));
        let (next, step) = next.report(&track("x"), skipped());
        assert!(matches!(step, Step::Next { .. }));
        batch = next;
    }
    let (_batch, step) = batch.report(&track("x"), failed());
    match step {
        Step::Stop {
            last,
            context,
            reason,
        } => {
            assert_eq!(last.unwrap(), "[9/20] A — x — не скачан: нет");
            assert_eq!(
                context,
                "5 трека подряд не скачались — дело не в треках; остановился на 9 из 20"
            );
            assert_eq!(reason, "нет");
        }
        other => panic!("{other:?}"),
    }
}

#[test]
fn a_download_resets_the_count() {
    let mut batch = Batch::new(20);
    for _round in 0..3 {
        for _failure in 1..GIVE_UP_AFTER {
            let (next, step) = batch.report(&track("x"), failed());
            assert!(matches!(step, Step::Next { .. }));
            batch = next;
        }
        let (next, _step) = batch.report(&track("x"), downloaded());
        batch = next;
    }
    assert_eq!(
        batch.finish(),
        Err("не скачано треков: 12 из 20".to_owned())
    );
}

#[test]
fn stops_where_going_on_is_no_use() {
    let (_batch, step) =
        Batch::new(2).report(&track("x"), Err(Failure::Fatal("нет места".to_owned())));
    match step {
        Step::Stop {
            last,
            context,
            reason,
        } => {
            assert_eq!(last, None);
            assert_eq!(context, "выгрузка прервана на 1 из 2");
            assert_eq!(reason, "нет места");
        }
        other => panic!("{other:?}"),
    }
    let (_batch, step) =
        Batch::new(2).report(&track("x"), Err(Failure::Throttled("темп".to_owned())));
    match step {
        Step::Stop { context, .. } => assert_eq!(
            context,
            "остановился на 1 из 2; повторите позже — с `--update` докачается только недостающее"
        ),
        other => panic!("{other:?}"),
    }
}
