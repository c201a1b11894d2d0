//! The options of the command line, once they have been told apart.

use vstd::prelude::*;
use vstd::string::*;

use crate::download::Quality;
use crate::text::same;
use crate::updater::{Destination, Mode};

verus! {

/// The directory to download to if none is named.
pub const DEFAULT_PATH: &'static str = ".";

/// The quality to ask for if none is named.
pub const DEFAULT_QUALITY: &'static str = "lossless";

impl Quality {
    /// The name of a quality on the command line.
    pub open spec fn label(self) -> Seq<char> {
        match self {
            Quality::Lossless => "lossless"@,
            Quality::High => "high"@,
            Quality::Normal => "normal"@,
            Quality::Low => "low"@,
        }
    }

    /// The quality of a name.
    pub open spec fn labelled(name: Seq<char>) -> Option<Quality> {
        if name == "lossless"@ {
            Some(Quality::Lossless)
        } else if name == "high"@ {
            Some(Quality::High)
        } else if name == "normal"@ {
            Some(Quality::Normal)
        } else if name == "low"@ {
            Some(Quality::Low)
        } else {
            None
        }
    }

    /// The name of the quality on the command line.
    pub fn name(&self) -> (r: &'static str)
        ensures
            r@ == self.label(),
    {
        match self {
            Quality::Lossless => "lossless",
            Quality::High => "high",
            Quality::Normal => "normal",
            Quality::Low => "low",
        }
    }

    /// What the quality is, in words.
    pub fn help(&self) -> (r: &'static str)
        ensures
            r@ == match self {
                Quality::Lossless => "без потерь, FLAC — самые большие файлы"@,
                Quality::High => "высокое, MP3 320 kbps"@,
                Quality::Normal => "обычное, экономит трафик и место"@,
                Quality::Low => "низкое, для медленной связи"@,
            },
    {
        match self {
            Quality::Lossless => "без потерь, FLAC — самые большие файлы",
            Quality::High => "высокое, MP3 320 kbps",
            Quality::Normal => "обычное, экономит трафик и место",
            Quality::Low => "низкое, для медленной связи",
        }
    }

    /// The quality of a name.
    pub fn named(name: &str) -> (r: Option<Self>)
        ensures
            r == Self::labelled(name@),
    {
        if same(name, "lossless") {
            Some(Quality::Lossless)
        } else if same(name, "high") {
            Some(Quality::High)
        } else if same(name, "normal") {
            Some(Quality::Normal)
        } else if same(name, "low") {
            Some(Quality::Low)
        } else {
            None
        }
    }
}

/// Every quality has a name of its own, by which it is found again.
pub proof fn law_quality_names(quality: Quality)
    ensures
        Quality::labelled(quality.label()) == Some(quality),
        forall|name: Seq<char>| #[trigger]
            Quality::labelled(name) == Some(quality) ==> name == quality.label(),
{
    reveal_strlit("lossless");
    reveal_strlit("high");
    reveal_strlit("normal");
    reveal_strlit("low");
    assert("lossless"@.len() == 8 && "high"@.len() == 4 && "normal"@.len() == 6 && "low"@.len()
        == 3);
}

/// Where to store files, and what to do with those that are there.
#[derive(Debug)]
pub struct Target {
    pub path: std::path::PathBuf,
    pub quality: Quality,
    pub update: bool,
}

impl Target {
    /// Options as they were given; a quality that was not named is
    /// [`DEFAULT_QUALITY`], and one of an unknown name is no target at all.
    pub fn from_options(
        path: std::path::PathBuf,
        quality: Option<&str>,
        update: bool,
    ) -> (r: Option<Self>)
        ensures
            ({
                let named = Quality::labelled(
                    match quality {
                        Some(name) => name@,
                        None => DEFAULT_QUALITY@,
                    },
                );
                match (r, named) {
                    (Some(target), Some(quality)) => target.path == path && target.quality
                        == quality && target.update == update,
                    (None, None) => true,
                    _ => false,
                }
            }),
    {
        let name = match quality {
            Some(name) => name,
            None => DEFAULT_QUALITY,
        };
        match Quality::named(name) {
            Some(quality) => Some(Target { path, quality, update }),
            None => None,
        }
    }

    /// The destination of the files.
    pub fn destination(&self) -> (r: Destination<'_>)
        ensures
            *r.directory == self.path,
            r.mode == if self.update {
                Mode::Update
            } else {
                Mode::Full
            },
    {
        Destination {
            directory: &self.path,
            mode: if self.update {
                Mode::Update
            } else {
                Mode::Full
            },
        }
    }
}

} // verus!
