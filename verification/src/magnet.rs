//! Magnet-link handling shared by the source adapters: cleaning a
//! scraped link of appended tracker parameters, and synthesizing a link
//! from a content hash for the API source that embeds none.

use vstd::prelude::*;

use crate::text::{
    contains_seq, contains_sub, find_sub, lemma_split_point, occurs_at, split_point,
};
use crate::types::Torrent;

verus! {

/// What extraction guarantees of every record the HTML sources emit: a
/// non-empty title, and a magnet link that carries the magnet scheme
/// marker and is cut before any tracker parameter.
pub open spec fn cleaned_record(t: Torrent) -> bool {
    t.title@.len() > 0 && contains_seq(t.magnet@, "magnet"@) && !contains_seq(t.magnet@, "&tr="@)
}

/// A scraped link cut before its first appended tracker parameter; the
/// whole link when it carries none.
pub open spec fn tracker_cut(href: Seq<char>) -> Seq<char> {
    href.subrange(0, split_point(href, "&tr="@))
}

/// The cut link never contains a tracker parameter.
pub proof fn lemma_tracker_cut_clean(href: Seq<char>)
    ensures
        !contains_seq(tracker_cut(href), "&tr="@),
{
    reveal_strlit("&tr=");
    let tr = "&tr="@;
    lemma_split_point(href, tr);
    let m = tracker_cut(href);
    if contains_seq(m, tr) {
        let j = choose|j: int| occurs_at(m, tr, j);
        assert(j + tr.len() <= m.len());
        assert(m.subrange(j, j + tr.len() as int) =~= href.subrange(j, j + tr.len() as int));
        assert(occurs_at(href, tr, j));
        assert(contains_seq(href, tr));
        assert(j < split_point(href, tr));
        assert(false);
    }
}

/// Strips everything from the first appended tracker parameter onward,
/// and accepts the link only when what is kept still carries the magnet
/// scheme marker — a link whose marker sits among the stripped tracker
/// noise is no magnet link.
pub fn clean_magnet(href: &str) -> (r: Option<String>)
    ensures
        (r is Some) == contains_seq(tracker_cut(href@), "magnet"@),
        r matches Some(m) ==> m@ == tracker_cut(href@) && contains_seq(m@, "magnet"@)
            && !contains_seq(m@, "&tr="@),
{
    proof {
        reveal_strlit("&tr=");
        lemma_split_point(href@, "&tr="@);
    }
    let n: usize = href.unicode_len();
    let cut: usize = match find_sub(href, "&tr=") {
        Some(i) => i,
        None => n,
    };
    proof {
        assert(cut as int == split_point(href@, "&tr="@));
    }
    let m = href.substring_char(0, cut);
    proof {
        assert(m@ == tracker_cut(href@));
    }
    if !contains_sub(m, "magnet") {
        return None;
    }
    proof {
        lemma_tracker_cut_clean(href@);
    }
    Some(m.to_owned())
}

/// Every synthesized link carries the magnet scheme marker: it begins
/// with the magnet URI prefix.
pub proof fn lemma_magnet_of_has_marker(hash: Seq<char>, name: Seq<char>)
    ensures
        contains_seq(magnet_of(hash, name), "magnet"@),
{
    reveal_strlit("magnet:?xt=urn:btih:");
    reveal_strlit("magnet");
    let m = magnet_of(hash, name);
    assert(m.subrange(0, 6) =~= "magnet"@);
    assert(occurs_at(m, "magnet"@, 0));
}

/// The fixed fallback trackers appended to every synthesized link,
/// joined by the tracker-parameter separator.
pub open spec fn trackers_tail() -> Seq<char> {
    "udp://open.demonii.com:1337/announce"@ + "&tr="@ + "udp://tracker.openbittorrent.com:80"@
        + "&tr="@ + "udp://tracker.coppersurfer.tk:6969"@ + "&tr="@ + "udp://glotorrents.pw:6969/announce"@
        + "&tr="@ + "udp://tracker.opentrackr.org:1337/announce"@ + "&tr="@
        + "udp://torrent.gresille.org:80/announce"@ + "&tr="@ + "udp://p4p.arenabg.com:1337"@
        + "&tr="@ + "udp://tracker.leechers-paradise.org:6969"@
}

/// The magnet link synthesized from a content hash and a display name.
pub open spec fn magnet_of(hash: Seq<char>, name: Seq<char>) -> Seq<char> {
    "magnet:?xt=urn:btih:"@ + hash + "&dn="@ + name + "&tr="@ + trackers_tail()
}

/// Builds a magnet link for a source whose payload carries only a
/// content hash: the canonical URI, the display name, and the fixed
/// fallback trackers.
pub fn make_magnet(info_hash: String, name: String) -> (r: String)
    ensures
        r@ == magnet_of(info_hash@, name@),
{
    let mut r = ("magnet:?xt=urn:btih:").to_owned();
    r.append(info_hash.as_str());
    r.append("&dn=");
    r.append(name.as_str());
    r.append("&tr=");
    r.append("udp://open.demonii.com:1337/announce");
    r.append("&tr=");
    r.append("udp://tracker.openbittorrent.com:80");
    r.append("&tr=");
    r.append("udp://tracker.coppersurfer.tk:6969");
    r.append("&tr=");
    r.append("udp://glotorrents.pw:6969/announce");
    r.append("&tr=");
    r.append("udp://tracker.opentrackr.org:1337/announce");
    r.append("&tr=");
    r.append("udp://torrent.gresille.org:80/announce");
    r.append("&tr=");
    r.append("udp://p4p.arenabg.com:1337");
    r.append("&tr=");
    r.append("udp://tracker.leechers-paradise.org:6969");
    proof {
        assert(r@ =~= magnet_of(info_hash@, name@));
    }
    r
}

} // verus!
