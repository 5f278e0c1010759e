//! Where the public suffix list comes from, and when it is fetched anew.

use crate::config::{PslConfig, PslSource};
use crate::time::Duration;
use vstd::prelude::*;

verus! {

/// How the list is loaded at startup.
#[derive(Debug, Clone, Copy, PartialEq, Eq, Structural)]
pub enum InitialLoad {
    /// Take the list that is compiled in.
    Embedded,
    /// Read the file.
    File,
    /// Download the file; what comes next depends on whether there is one already.
    Download { have_file: bool },
}

/// How the list is loaded at startup, given the age of the file if there is one.
pub open spec fn initial_load_of(source: PslSource, auto_update: bool, age: Option<Duration>, max_age: Duration) -> InitialLoad {
    match source {
        PslSource::Embedded => InitialLoad::Embedded,
        PslSource::File => if !auto_update {
            InitialLoad::File
        } else {
            match age {
                Some(age) => if age.nanos <= max_age.nanos {
                    InitialLoad::File
                } else {
                    InitialLoad::Download { have_file: true }
                },
                None => InitialLoad::Download { have_file: false },
            }
        },
    }
}

/// Decide how the list is loaded at startup.
pub fn load_initial(cfg: &PslConfig, age: Option<Duration>) -> (r: InitialLoad)
    ensures
        r == initial_load_of(cfg.source, cfg.auto_update, age, cfg.max_age),
{
    match cfg.source {
        PslSource::Embedded => InitialLoad::Embedded,
        PslSource::File => {
            if !cfg.auto_update {
                return InitialLoad::File;
            }
            match age {
                Some(age) => if age.nanos <= cfg.max_age.nanos {
                    InitialLoad::File
                } else {
                    InitialLoad::Download { have_file: true }
                },
                None => InitialLoad::Download { have_file: false },
            }
        },
    }
}

/// What is loaded after a download: the file if there is one, fresh or stale, and
/// the compiled-in list otherwise.
pub open spec fn after_download_of(ok: bool, have_file: bool) -> InitialLoad {
    if ok || have_file {
        InitialLoad::File
    } else {
        InitialLoad::Embedded
    }
}

/// Decide what is loaded after a download.
pub fn after_download(ok: bool, have_file: bool) -> (r: InitialLoad)
    ensures
        r == after_download_of(ok, have_file),
{
    if ok || have_file {
        InitialLoad::File
    } else {
        InitialLoad::Embedded
    }
}

/// Startup settles on a list after one download at most, and falls back to the
/// compiled-in list only where it has no file at all.
pub proof fn law_startup_settles(source: PslSource, auto_update: bool, age: Option<Duration>, max_age: Duration, ok: bool)
    ensures
        initial_load_of(source, auto_update, age, max_age) matches InitialLoad::Download { have_file } ==> {
            &&& after_download_of(ok, have_file) !is Download
            &&& after_download_of(ok, have_file) is Embedded <==> !ok && age is None
        },
{
}

/// Whether a periodic check downloads the list: the file is there and is stale.
pub fn update_due(age: Option<Duration>, max_age: Duration) -> (r: bool)
    ensures
        r == (age matches Some(age) && age.nanos > max_age.nanos),
{
    match age {
        Some(age) => age.nanos > max_age.nanos,
        None => false,
    }
}

/// Whether the file is watched for changes.
pub fn watches_file(cfg: &PslConfig) -> (r: bool)
    ensures
        r == (cfg.auto_reload && cfg.source == PslSource::File),
{
    cfg.auto_reload && match cfg.source {
        PslSource::File => true,
        PslSource::Embedded => false,
    }
}

/// How often the age of the file is checked at runtime, if it is.
pub fn check_interval(cfg: &PslConfig) -> (r: Option<Duration>)
    ensures
        r == (if cfg.auto_update && cfg.source == PslSource::File {
            cfg.check_interval
        } else {
            None
        }),
{
    match cfg.source {
        PslSource::File => if cfg.auto_update {
            cfg.check_interval
        } else {
            None
        },
        PslSource::Embedded => None,
    }
}

/// Where the list is downloaded from.
pub fn update_url(cfg: &PslConfig) -> (r: String)
    ensures
        r@ == (if cfg.update_url@.len() == 0 {
            "https://publicsuffix.org/list/public_suffix_list.dat"@
        } else {
            cfg.update_url@
        }),
{
    if cfg.update_url.as_str().unicode_len() == 0 {
        "https://publicsuffix.org/list/public_suffix_list.dat".to_owned()
    } else {
        cfg.update_url.clone()
    }
}

/// A list that is compiled in is never fetched; a file is fetched at startup exactly where
/// it is kept up to date and is missing or older than allowed.
pub proof fn law_stale_file_is_fetched(age: Duration, max_age: Duration, auto_update: bool, known: Option<Duration>)
    ensures
        initial_load_of(PslSource::Embedded, auto_update, known, max_age) == InitialLoad::Embedded,
        initial_load_of(PslSource::File, false, known, max_age) == InitialLoad::File,
        initial_load_of(PslSource::File, true, None, max_age) == (InitialLoad::Download { have_file: false }),
        age.nanos > max_age.nanos ==> initial_load_of(PslSource::File, true, Some(age), max_age)
            == (InitialLoad::Download { have_file: true }),
        age.nanos <= max_age.nanos ==> initial_load_of(PslSource::File, true, Some(age), max_age) == InitialLoad::File,
        after_download_of(true, false) == InitialLoad::File,
        after_download_of(false, true) == InitialLoad::File,
        after_download_of(false, false) == InitialLoad::Embedded,
{
}

} // verus!
