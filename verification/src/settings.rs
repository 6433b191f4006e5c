//! Directory selection for downloads: a configured path is used only
//! when the caller found it to be an existing directory, anything else
//! falls back to the platform download directory, fetched once and
//! cached. Reading the configuration file and asking the platform for
//! its directories happen outside the library; the decisions happen
//! here.

use vstd::prelude::*;

use crate::types::Settings;

verus! {

/// Lazily-resolved fallback download directory.
pub struct DownloadDirCache {
    value: Option<String>,
}

impl DownloadDirCache {
    /// The directory held so far, as ghost state.
    pub closed spec fn cached(&self) -> Option<Seq<char>> {
        match self.value {
            Some(ref s) => Some(s@),
            None => None,
        }
    }

    /// Remembers the configured default directory: kept only when the
    /// configuration supplied a path and the caller found it to be an
    /// existing directory.
    pub fn new(default_path: Option<String>, path_is_dir: bool) -> (r: DownloadDirCache)
        ensures
            r.cached() == (match default_path {
                Some(p) => if path_is_dir {
                    Some(p@)
                } else {
                    None::<Seq<char>>
                },
                None => None::<Seq<char>>,
            }),
    {
        match default_path {
            Some(p) => {
                if path_is_dir {
                    DownloadDirCache { value: Some(p) }
                } else {
                    DownloadDirCache { value: None }
                }
            },
            None => DownloadDirCache { value: None },
        }
    }

    /// The directory to use: the held one if any, else the caller's
    /// platform download directory, which is then held for the next
    /// ask.
    pub fn value(&mut self, fallback: &str) -> (r: String)
        ensures
            r@ == (match old(self).cached() {
                Some(p) => p,
                None => fallback@,
            }),
            final(self).cached() == Some(r@),
    {
        match &self.value {
            Some(v) => v.clone(),
            None => {
                let dir = fallback.to_owned();
                self.value = Some(dir.clone());
                dir
            },
        }
    }
}

impl Settings {
    /// Picks a media directory: the configured path when the caller
    /// found it to be an existing directory, else the cached fallback.
    pub fn validate_path(
        path: Option<String>,
        path_is_dir: bool,
        default: &mut DownloadDirCache,
        fallback: &str,
    ) -> (r: String)
        ensures
            ({
                let configured = path matches Some(p) && path_is_dir;
                &&& configured ==> r@ == path->Some_0@ && final(default).cached() == old(
                    default,
                ).cached()
                &&& !configured ==> r@ == (match old(default).cached() {
                    Some(c) => c,
                    None => fallback@,
                }) && final(default).cached() == Some(r@)
            }),
    {
        match path {
            Some(p) => {
                if path_is_dir {
                    p
                } else {
                    default.value(fallback)
                }
            },
            None => default.value(fallback),
        }
    }

    /// The settings used when no configuration file can be read: every
    /// media kind downloads to the platform download directory, and
    /// nothing is auto-downloaded.
    pub fn from_download_dir(dir: String) -> (r: Settings)
        ensures
            r.anime_dir@ == dir@,
            r.tvshow_dir@ == dir@,
            r.movie_dir@ == dir@,
            r.default_directory@ == dir@,
            !r.autodownload,
    {
        let anime_dir = dir.clone();
        let tvshow_dir = dir.clone();
        let movie_dir = dir.clone();
        Settings { anime_dir, tvshow_dir, movie_dir, default_directory: dir, autodownload: false }
    }
}

} // verus!
