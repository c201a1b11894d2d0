//! Options of the command line.

use std::path::PathBuf;

use clap::{Arg, ArgAction, ArgMatches, Command};
use ymelorix::cli::{Target, DEFAULT_PATH};
use ymelorix::download::Quality;
use ymelorix::updater::Mode;

fn with_target(command: Command) -> Command {
    command
        .arg(Arg::new("path").short('p').long("path"))
        .arg(Arg::new("quality").short('q').long("quality"))
        .arg(
            Arg::new("update")
                .short('u')
                .long("update")
                .action(ArgAction::SetTrue),
        )
}

fn options(matches: &ArgMatches) -> Option<Target> {
    Target::from_options(
        PathBuf::from(
            matches
                .get_one::<String>("path")
                .map_or(DEFAULT_PATH, String::as_str),
        ),
        matches.get_one::<String>("quality").map(String::as_str),
        matches.get_flag("update"),
    )
}

fn target_of(args: &[&str]) -> Result<Target, String> {
    let parsed = Command::new("ymelorix")
        .subcommand(with_target(Command::new("download-favorites")))
        .subcommand(with_target(
            Command::new("download-link").arg(Arg::new("url").required(true)),
        ))
        .try_get_matches_from(args)
        .map_err(|error| error.to_string())?;
    parsed
        .subcommand()
        .and_then(|(_name, matches)| options(matches))
        .ok_or_else(|| "no target".to_owned())
}

#[test]
fn defaults_to_lossless_and_full_download() {
    let target = target_of(&["ymelorix", "download-favorites"]).unwrap();

    assert_eq!(
        (target.quality, target.destination().mode),
        (Quality::Lossless, Mode::Full)
    );
    assert_eq!(target.destination().directory, &PathBuf::from("."));
}

#[test]
fn reads_every_quality() {
    for (argument, expected) in [
        ("lossless", Quality::Lossless),
        ("high", Quality::High),
        ("normal", Quality::Normal),
        ("low", Quality::Low),
    ] {
        let target = target_of(&["ymelorix", "download-favorites", "-q", argument]).unwrap();

        assert_eq!(target.quality, expected);
        assert_eq!(expected.name(), argument);
        assert_eq!(Quality::named(argument), Some(expected));
    }
}

#[test]
fn reads_quality_and_update_flag() {
    let target = target_of(&[
        "ymelorix",
        "download-link",
        "33898323",
        "--quality",
        "low",
        "--update",
    ])
    .unwrap();

    assert_eq!(
        (target.quality, target.destination().mode),
        (Quality::Low, Mode::Update)
    );
}

#[test]
fn rejects_unknown_quality() {
    let parsed = target_of(&["ymelorix", "download-favorites", "-q", "ultra"]);

    assert!(parsed.is_err());
}

#[test]
fn passes_the_directory_on() {
    let target = target_of(&["ymelorix", "download-favorites", "-p", "музыка/сюда"]).unwrap();
    assert_eq!(target.destination().directory, &PathBuf::from("музыка/сюда"));
}

#[test]
fn every_quality_is_explained() {
    assert_eq!(
        Quality::Lossless.help(),
        "без потерь, FLAC — самые большие файлы"
    );
    assert_eq!(Quality::High.help(), "высокое, MP3 320 kbps");
    assert_eq!(Quality::Normal.help(), "обычное, экономит трафик и место");
    assert_eq!(Quality::Low.help(), "низкое, для медленной связи");
}
