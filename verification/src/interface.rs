//! Decision logic behind the interactive prompts: which sites an answer
//! selects, which media kind it names and the directory that kind maps
//! to, and which magnet links a row selection stands for. The prompting
//! itself (reading lines, printing tables) lives outside the library
//! and hands the answers in as plain strings.

use vstd::prelude::*;

use crate::text::{
    is_uint_text, lower_seq, parse_usize, str_eq, to_lowercase_ascii, trim_seq, trim_spaces,
    uint_text_val,
};
use crate::types::{Media, Settings, Torrent, Website};

verus! {

/// The site selection a trimmed, lowercased answer stands for; `None`
/// when it names no known site.
pub open spec fn websites_of_key(key: Seq<char>) -> Option<Seq<Website>> {
    if key == "nyaa"@ {
        Some(seq![Website::Nyaa])
    } else if key == "piratebay"@ {
        Some(seq![Website::Piratebay])
    } else if key == "all"@ {
        Some(seq![Website::Nyaa, Website::Piratebay])
    } else {
        None
    }
}

impl Website {
    /// The site selection an answer stands for, compared after
    /// trimming whitespace and lowercasing ASCII letters: "nyaa",
    /// "piratebay", or "all" for both; anything else is refused with a
    /// usage message.
    pub fn new(s: &str) -> (r: Result<Vec<Website>, &'static str>)
        ensures
            match websites_of_key(lower_seq(trim_seq(s@))) {
                Some(ws) => (r matches Ok(v) && v@ == ws),
                None => (r matches Err(m) && m@
                    == "Unknown website, supported sites: nyaa, piratebay"@),
            },
    {
        let trimmed = trim_spaces(s);
        let key = to_lowercase_ascii(trimmed.as_str());
        if str_eq(key.as_str(), "nyaa") {
            let mut v: Vec<Website> = Vec::new();
            v.push(Website::Nyaa);
            proof {
                assert(v@ =~= seq![Website::Nyaa]);
            }
            Ok(v)
        } else if str_eq(key.as_str(), "piratebay") {
            let mut v: Vec<Website> = Vec::new();
            v.push(Website::Piratebay);
            proof {
                assert(v@ =~= seq![Website::Piratebay]);
            }
            Ok(v)
        } else if str_eq(key.as_str(), "all") {
            let mut v: Vec<Website> = Vec::new();
            v.push(Website::Nyaa);
            v.push(Website::Piratebay);
            proof {
                assert(v@ =~= seq![Website::Nyaa, Website::Piratebay]);
            }
            Ok(v)
        } else {
            Err("Unknown website, supported sites: nyaa, piratebay")
        }
    }
}

/// The media kind a trimmed, lowercased answer stands for; `None` when
/// it names no known kind.
pub open spec fn media_of_key(key: Seq<char>) -> Option<Media> {
    if key == "anime"@ {
        Some(Media::Anime)
    } else if key == "movie"@ {
        Some(Media::Movie)
    } else if key == "tvshow"@ {
        Some(Media::TVShow)
    } else if key == "tv"@ {
        Some(Media::TVShow)
    } else {
        None
    }
}

impl Media {
    /// The media kind an answer stands for, compared after trimming
    /// whitespace and lowercasing ASCII letters; "tv" is accepted for
    /// "tvshow". Anything else is refused with a usage message.
    pub fn new(s: &str) -> (r: Result<Media, &'static str>)
        ensures
            match media_of_key(lower_seq(trim_seq(s@))) {
                Some(m) => r == Ok::<Media, &'static str>(m),
                None => (r matches Err(m) && m@
                    == "Unknown media type, supported types: anime, movie, tvshow"@),
            },
    {
        let trimmed = trim_spaces(s);
        let key = to_lowercase_ascii(trimmed.as_str());
        if str_eq(key.as_str(), "anime") {
            Ok(Media::Anime)
        } else if str_eq(key.as_str(), "movie") {
            Ok(Media::Movie)
        } else if str_eq(key.as_str(), "tvshow") {
            Ok(Media::TVShow)
        } else if str_eq(key.as_str(), "tv") {
            Ok(Media::TVShow)
        } else {
            Err("Unknown media type, supported types: anime, movie, tvshow")
        }
    }

    /// The download directory configured for this media kind.
    pub fn path(&self, settings: &Settings) -> (r: String)
        ensures
            r@ == (match *self {
                Media::Anime => settings.anime_dir@,
                Media::Movie => settings.movie_dir@,
                Media::TVShow => settings.tvshow_dir@,
            }),
    {
        match self {
            Media::Anime => settings.anime_dir.clone(),
            Media::Movie => settings.movie_dir.clone(),
            Media::TVShow => settings.tvshow_dir.clone(),
        }
    }
}

/// A selection entry parses as a number the display could have shown.
pub open spec fn sel_parses(s: Seq<char>) -> bool {
    is_uint_text(s) && uint_text_val(s) <= usize::MAX
}

/// A selection entry names one of `n` displayed rows, 1-based.
pub open spec fn sel_valid(s: Seq<char>, n: int) -> bool {
    sel_parses(s) && 1 <= uint_text_val(s) <= n
}

/// The message a bad selection entry is refused with.
pub open spec fn bad_sel_message(s: Seq<char>, n: int) -> Seq<char> {
    if sel_parses(s) {
        "Input out of range"@
    } else {
        "Only input numbers indicated on the left-most column"@
    }
}

/// Resolves the user's row selections to magnet links: each entry must
/// be a 1-based row number of the displayed table; the first entry that
/// is not a number, or is out of range, refuses the whole selection.
#[verifier::loop_isolation(false)]
pub fn collect_magnet_links(torrents: &Vec<Torrent>, selections: &Vec<String>) -> (r: Result<
    Vec<String>,
    &'static str,
>)
    ensures
        (r is Ok) == (forall|k: int|
            0 <= k < selections@.len() ==> sel_valid(
                #[trigger] selections@[k]@,
                torrents@.len() as int,
            )),
        r matches Ok(v) ==> v@.len() == selections@.len() && (forall|k: int|
            0 <= k < selections@.len() ==> #[trigger] v@[k]@ == torrents@[uint_text_val(
                selections@[k]@,
            ) - 1].magnet@),
        r matches Err(m) ==> exists|k: int|
            0 <= k < selections@.len() && (forall|j: int|
                0 <= j < k ==> sel_valid(#[trigger] selections@[j]@, torrents@.len() as int))
                && !sel_valid(#[trigger] selections@[k]@, torrents@.len() as int) && m@
                == bad_sel_message(selections@[k]@, torrents@.len() as int),
{
    let mut magnets: Vec<String> = Vec::new();
    let mut k: usize = 0;
    while k < selections.len()
        invariant
            k <= selections@.len(),
            magnets@.len() == k,
            forall|j: int|
                0 <= j < k ==> sel_valid(#[trigger] selections@[j]@, torrents@.len() as int),
            forall|j: int|
                0 <= j < k ==> #[trigger] magnets@[j]@ == torrents@[uint_text_val(
                    selections@[j]@,
                ) - 1].magnet@,
        decreases selections@.len() - k,
    {
        let num = match parse_usize(selections[k].as_str()) {
            Some(v) => v,
            None => {
                proof {
                    assert(!sel_parses(selections@[k as int]@));
                    assert(!sel_valid(selections@[k as int]@, torrents@.len() as int));
                }
                return Err("Only input numbers indicated on the left-most column");
            },
        };
        if num > torrents.len() || num == 0 {
            proof {
                crate::text::lemma_digits_val_nonneg_of(crate::text::uint_body(
                    selections@[k as int]@,
                ));
                assert(!sel_valid(selections@[k as int]@, torrents@.len() as int));
            }
            return Err("Input out of range");
        }
        magnets.push(torrents[num - 1].magnet.clone());
        proof {
            crate::text::lemma_digits_val_nonneg_of(crate::text::uint_body(
                selections@[k as int]@,
            ));
            assert(num as int == uint_text_val(selections@[k as int]@));
            assert(sel_valid(selections@[k as int]@, torrents@.len() as int));
            assert(magnets@[k as int]@ == torrents@[uint_text_val(selections@[k as int]@)
                - 1].magnet@);
        }
        k = k + 1;
    }
    Ok(magnets)
}

} // verus!
