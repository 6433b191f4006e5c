//! The canonical record shape shared by every source adapter, and the
//! enums selecting sources, media kinds and sort modes.

use vstd::prelude::*;

verus! {

/// One discovered torrent, as extracted from a single source row.
/// All four fields were present in the row; a row missing any of them
/// yields no record at all.
#[derive(Clone, Debug)]
pub struct Torrent {
    /// Human-readable name; non-empty.
    pub title: String,
    /// Magnet URI, cleaned of appended tracker parameters.
    pub magnet: String,
    /// Human-readable size exactly as scraped, e.g. "700.5 MiB".
    pub size: String,
    /// Seeder count exactly as scraped; may be a non-numeric placeholder.
    pub seeders: String,
}

/// A torrent-indexing site the search can fan out to.
#[derive(Clone, Copy, PartialEq, Eq, Structural, Debug)]
pub enum Website {
    Nyaa,
    Piratebay,
    YTS,
}

/// The kind of media searched for; selects the download directory.
#[derive(Clone, Copy, PartialEq, Eq, Structural, Debug)]
pub enum Media {
    Anime,
    Movie,
    TVShow,
}

/// The ranking key the aggregator orders records by.
#[derive(Clone, Copy, PartialEq, Eq, Structural, Debug)]
pub enum Sort {
    Size,
    Seeds,
}

/// Directories and download behaviour from the configuration collaborator.
/// Paths are plain strings already validated by the caller.
pub struct Settings {
    pub anime_dir: String,
    pub tvshow_dir: String,
    pub movie_dir: String,
    pub default_directory: String,
    pub autodownload: bool,
}

/// Everything one search invocation needs.
pub struct UserParameters {
    pub websites: Vec<Website>,
    pub directory: String,
    pub search_query: String,
    pub search_depth: u32,
    pub sort_preference: Sort,
    pub autodownload: bool,
}

/// The four field texts of one record.
pub open spec fn record_view(t: Torrent) -> (Seq<char>, Seq<char>, Seq<char>, Seq<char>) {
    (t.title@, t.magnet@, t.size@, t.seeders@)
}

/// The field texts of a whole record list.
pub open spec fn records_view(s: Seq<Torrent>) -> Seq<(Seq<char>, Seq<char>, Seq<char>, Seq<char>)> {
    s.map_values(|t: Torrent| record_view(t))
}

/// The view of an optional owned text.
pub open spec fn opt_view(o: Option<String>) -> Option<Seq<char>> {
    match o {
        Some(s) => Some(s@),
        None => None,
    }
}

} // verus!
