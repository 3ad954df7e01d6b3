//! The analysis summary of a collection of songs: how many are missing
//! each tag, the distinct artists, the distinct albums labelled with
//! their artists, the widest track number seen, and the songs themselves.

use vstd::prelude::*;

verus! {

use crate::metadata::SongMetadata;
use crate::order::views;
use crate::text::{dec_str, lex_le};

/// How many songs lack each tag.
pub struct MissingSongInfo {
    pub artist: u32,
    pub title: u32,
    pub album: u32,
    pub disc_number: u32,
    pub track_number: u32,
}

/// Oddments of the analysis: the most decimal digits any track number
/// shows, which callers use to pick a padding width.
pub struct MiscSongInfo {
    pub most_digits_in_track_number: u32,
}

/// The whole analysis of a song collection.
pub struct SongsAnalysis {
    pub artists: Vec<String>,
    pub albums: Vec<String>,
    pub missing_song_info: MissingSongInfo,
    pub misc: MiscSongInfo,
    pub song_metadata: Vec<SongMetadata>,
}

/// How many songs of `s` have no artist tag.
pub open spec fn missing_artist_count(s: Seq<SongMetadata>) -> nat
    decreases s.len(),
{
    if s.len() == 0 {
        0
    } else {
        missing_artist_count(s.drop_last()) + if s.last().artist is None {
            1nat
        } else {
            0nat
        }
    }
}

/// How many songs of `s` have no title tag.
pub open spec fn missing_title_count(s: Seq<SongMetadata>) -> nat
    decreases s.len(),
{
    if s.len() == 0 {
        0
    } else {
        missing_title_count(s.drop_last()) + if s.last().title is None {
            1nat
        } else {
            0nat
        }
    }
}

/// How many songs of `s` have no album tag.
pub open spec fn missing_album_count(s: Seq<SongMetadata>) -> nat
    decreases s.len(),
{
    if s.len() == 0 {
        0
    } else {
        missing_album_count(s.drop_last()) + if s.last().album is None {
            1nat
        } else {
            0nat
        }
    }
}

/// How many songs of `s` have no disc number.
pub open spec fn missing_disc_count(s: Seq<SongMetadata>) -> nat
    decreases s.len(),
{
    if s.len() == 0 {
        0
    } else {
        missing_disc_count(s.drop_last()) + if s.last().disc_number is None {
            1nat
        } else {
            0nat
        }
    }
}

/// How many songs of `s` have no track number.
pub open spec fn missing_track_count(s: Seq<SongMetadata>) -> nat
    decreases s.len(),
{
    if s.len() == 0 {
        0
    } else {
        missing_track_count(s.drop_last()) + if s.last().track_number is None {
            1nat
        } else {
            0nat
        }
    }
}

/// How many decimal digits a song's track number shows; none, none.
pub open spec fn track_digits(m: SongMetadata) -> nat {
    match m.track_number {
        Some(t) => dec_str(t as nat).len(),
        None => 0,
    }
}

/// The most decimal digits any track number of `s` shows.
pub open spec fn max_track_digits(s: Seq<SongMetadata>) -> nat
    decreases s.len(),
{
    if s.len() == 0 {
        0
    } else if track_digits(s.last()) >= max_track_digits(s.drop_last()) {
        track_digits(s.last())
    } else {
        max_track_digits(s.drop_last())
    }
}

/// The artists present in `s`, in listing order, repetitions kept.
pub open spec fn present_artists(s: Seq<SongMetadata>) -> Seq<Seq<char>> {
    s.filter(|m: SongMetadata| m.artist is Some).map_values(
        |m: SongMetadata| m.artist->Some_0@,
    )
}

/// The artist an album is credited to when none is tagged.
pub open spec fn unknown_artist() -> Seq<char> {
    seq!['U', 'n', 'k', 'n', 'o', 'w', 'n', ' ', 'a', 'r', 't', 'i', 's', 't']
}

/// The (artist, album) pairs of the songs of `s` with an album tag, in
/// listing order, repetitions kept; a song without an artist credits its
/// album to the unknown artist.
pub open spec fn album_pairs(s: Seq<SongMetadata>) -> Seq<(Seq<char>, Seq<char>)> {
    s.filter(|m: SongMetadata| m.album is Some).map_values(
        |m: SongMetadata|
            (
                match m.artist {
                    Some(a) => a@,
                    None => unknown_artist(),
                },
                m.album->Some_0@,
            ),
    )
}

/// Pairs order by artist first, album second.
pub open spec fn pair_le(a: (Seq<char>, Seq<char>), b: (Seq<char>, Seq<char>)) -> bool {
    if a.0 != b.0 {
        lex_le(a.0, b.0)
    } else {
        lex_le(a.1, b.1)
    }
}

/// The pair order as a relation value.
pub open spec fn pair_leq() -> spec_fn((Seq<char>, Seq<char>), (Seq<char>, Seq<char>)) -> bool {
    |a: (Seq<char>, Seq<char>), b: (Seq<char>, Seq<char>)| pair_le(a, b)
}

/// A sorted sequence with adjacent repetitions dropped.
pub open spec fn dedup_adj<A>(s: Seq<A>) -> Seq<A>
    decreases s.len(),
{
    if s.len() == 0 {
        s
    } else if s.len() >= 2 && s.last() == s[s.len() - 2] {
        dedup_adj(s.drop_last())
    } else {
        dedup_adj(s.drop_last()).push(s.last())
    }
}

/// How an album is shown: the album, then the artist in parentheses.
pub open spec fn album_label(p: (Seq<char>, Seq<char>)) -> Seq<char> {
    p.1 + seq![' ', '('] + p.0 + seq![')']
}

/// The views of a sequence of string pairs.
pub open spec fn pair_views(s: Seq<(String, String)>) -> Seq<(Seq<char>, Seq<char>)> {
    s.map_values(|p: (String, String)| (p.0@, p.1@))
}

proof fn lemma_pair_le_connected(a: (Seq<char>, Seq<char>), b: (Seq<char>, Seq<char>))
    ensures
        pair_le(a, b) || pair_le(b, a),
{
    crate::text::lemma_lex_le_total(a.0, b.0);
    crate::text::lemma_lex_le_total(a.1, b.1);
    if a.0 != b.0 {
        if lex_le(a.0, b.0) && lex_le(b.0, a.0) {
            crate::text::lemma_lex_le_antisymmetric(a.0, b.0);
        }
    }
}

proof fn lemma_pair_le_trans(
    a: (Seq<char>, Seq<char>),
    b: (Seq<char>, Seq<char>),
    c: (Seq<char>, Seq<char>),
)
    requires
        pair_le(a, b),
        pair_le(b, c),
    ensures
        pair_le(a, c),
{
    if a.0 != b.0 && b.0 != c.0 {
        crate::text::lemma_lex_le_transitive(a.0, b.0, c.0);
        if a.0 == c.0 {
            crate::text::lemma_lex_le_antisymmetric(a.0, b.0);
        }
    } else if a.0 == b.0 && b.0 == c.0 {
        crate::text::lemma_lex_le_transitive(a.1, b.1, c.1);
    }
}

proof fn lemma_pair_le_total_ordering()
    ensures
        vstd::relations::total_ordering(pair_leq()),
{
    let leq = pair_leq();
    assert forall|a: (Seq<char>, Seq<char>), b: (Seq<char>, Seq<char>)|
        #[trigger] leq(a, b) && leq(b, a) implies a == b by {
        if a.0 == b.0 {
            crate::text::lemma_lex_le_antisymmetric(a.1, b.1);
        } else {
            crate::text::lemma_lex_le_antisymmetric(a.0, b.0);
        }
    }
    assert forall|a: (Seq<char>, Seq<char>), b: (Seq<char>, Seq<char>), c: (Seq<char>, Seq<char>)|
        #[trigger] leq(a, b) && #[trigger] leq(b, c) implies leq(a, c) by {
        lemma_pair_le_trans(a, b, c);
    }
    assert forall|a: (Seq<char>, Seq<char>), b: (Seq<char>, Seq<char>)| #[trigger] leq(a, b)
        || #[trigger] leq(b, a) by {
        lemma_pair_le_connected(a, b);
    }
}

fn pair_le_exec(a: &(String, String), b: &(String, String)) -> (r: bool)
    ensures
        r == pair_le((a.0@, a.1@), (b.0@, b.1@)),
{
    let c: i8 = crate::text::lex_cmp_str(a.0.as_str(), b.0.as_str());
    if c == 0 {
        crate::text::lex_cmp_str(a.1.as_str(), b.1.as_str()) <= 0
    } else {
        c < 0
    }
}

/// Sort string pairs by artist, then album.
fn sort_pairs(v: Vec<(String, String)>) -> (r: Vec<(String, String)>)
    ensures
        pair_views(r@) == pair_views(v@).sort_by(pair_leq()),
{
    broadcast use vstd::seq_lib::group_to_multiset_ensures;

    let mut work: Vec<(String, String)> = v;
    let mut out: Vec<(String, String)> = Vec::new();
    while work.len() > 0
        invariant
            forall|i: int, j: int|
                0 <= i < j < out@.len() ==> pair_le(
                    #[trigger] pair_views(out@)[i],
                    #[trigger] pair_views(out@)[j],
                ),
            forall|i: int, j: int|
                0 <= i < out@.len() && 0 <= j < work@.len() ==> pair_le(
                    #[trigger] pair_views(out@)[i],
                    #[trigger] pair_views(work@)[j],
                ),
            pair_views(out@).to_multiset().add(pair_views(work@).to_multiset()) == pair_views(
                v@,
            ).to_multiset(),
        decreases work@.len(),
    {
        let mut m: usize = 0;
        let mut i: usize = 1;
        proof {
            lemma_pair_le_connected(pair_views(work@)[0], pair_views(work@)[0]);
        }
        while i < work.len()
            invariant
                work@.len() > 0,
                m < work@.len(),
                i <= work@.len(),
                forall|j: int|
                    0 <= j < i ==> pair_le(
                        pair_views(work@)[m as int],
                        #[trigger] pair_views(work@)[j],
                    ),
            decreases work@.len() - i,
        {
            let le: bool = pair_le_exec(&work[i], &work[m]);
            proof {
                assert(pair_views(work@)[i as int] == (work@[i as int].0@, work@[i as int].1@));
                assert(pair_views(work@)[m as int] == (work@[m as int].0@, work@[m as int].1@));
            }
            if le {
                proof {
                    assert forall|j: int| 0 <= j < i + 1 implies pair_le(
                        pair_views(work@)[i as int],
                        #[trigger] pair_views(work@)[j],
                    ) by {
                        if j < i {
                            lemma_pair_le_trans(
                                pair_views(work@)[i as int],
                                pair_views(work@)[m as int],
                                pair_views(work@)[j],
                            );
                        } else if j == i {
                            lemma_pair_le_connected(
                                pair_views(work@)[i as int],
                                pair_views(work@)[i as int],
                            );
                        }
                    }
                }
                m = i;
            } else {
                proof {
                    lemma_pair_le_connected(
                        pair_views(work@)[i as int],
                        pair_views(work@)[m as int],
                    );
                }
            }
            i = i + 1;
        }
        let ghost old_out = out@;
        let ghost old_work = work@;
        let x: (String, String) = work.remove(m);
        let ghost xv = (x.0@, x.1@);
        out.push(x);
        proof {
            assert(pair_views(old_work)[m as int] == xv);
            assert(pair_views(out@) =~= pair_views(old_out).push(xv));
            assert(pair_views(work@) =~= pair_views(old_work).remove(m as int));
            assert forall|i: int, j: int| 0 <= i < j < out@.len() implies pair_le(
                #[trigger] pair_views(out@)[i],
                #[trigger] pair_views(out@)[j],
            ) by {
                if j < old_out.len() {
                    assert(pair_views(out@)[i] == pair_views(old_out)[i]);
                    assert(pair_views(out@)[j] == pair_views(old_out)[j]);
                } else {
                    assert(pair_views(out@)[j] == xv);
                    assert(pair_views(out@)[i] == pair_views(old_out)[i]);
                    assert(pair_le(pair_views(old_out)[i], pair_views(old_work)[m as int]));
                }
            }
            assert forall|i: int, j: int|
                0 <= i < out@.len() && 0 <= j < work@.len() implies pair_le(
                #[trigger] pair_views(out@)[i],
                #[trigger] pair_views(work@)[j],
            ) by {
                let wv = pair_views(work@)[j];
                if j < m {
                    assert(wv == pair_views(old_work)[j]);
                } else {
                    assert(wv == pair_views(old_work)[j + 1]);
                }
                if i < old_out.len() {
                    assert(pair_views(out@)[i] == pair_views(old_out)[i]);
                } else {
                    assert(pair_views(out@)[i] == xv);
                }
            }
            let vw = pair_views(old_work);
            vw.to_multiset_ensures();
            pair_views(old_out).to_multiset_ensures();
            assert(vw.remove(m as int).to_multiset() =~= vw.to_multiset().remove(vw[m as int]));
            assert(pair_views(out@).to_multiset() =~= pair_views(old_out).to_multiset().insert(
                xv,
            ));
            assert(vw.to_multiset().count(xv) >= 1) by {
                assert(vw[m as int] == xv);
                assert(vw.contains(xv));
            }
            assert(pair_views(out@).to_multiset().add(pair_views(work@).to_multiset())
                =~= pair_views(v@).to_multiset());
        }
    }
    proof {
        vstd::multiset::lemma_multiset_empty_len(pair_views(work@).to_multiset());
        assert(pair_views(work@).to_multiset().len() == 0);
        assert(pair_views(out@).to_multiset() =~= pair_views(v@).to_multiset());
        assert forall|i: int, j: int| 0 <= i < j < pair_views(out@).len() implies pair_leq()(
            pair_views(out@)[i],
            pair_views(out@)[j],
        ) by {
            assert(pair_le(pair_views(out@)[i], pair_views(out@)[j]));
        }
        lemma_pair_le_total_ordering();
        pair_views(v@).lemma_sort_by_ensures(pair_leq());
        vstd::seq_lib::lemma_sorted_unique(
            pair_views(out@),
            pair_views(v@).sort_by(pair_leq()),
            pair_leq(),
        );
    }
    out
}

impl SongsAnalysis {
    /// Summarize a song collection: the count of songs missing each tag,
    /// the distinct artists in order, the distinct albums in artist order
    /// under their labels, the widest track number, and the songs
    /// themselves, unchanged.
    pub fn from_song_metadata(song_metadata: Vec<SongMetadata>) -> (r: SongsAnalysis)
        requires
            song_metadata@.len() <= u32::MAX,
        ensures
            r.missing_song_info.artist == missing_artist_count(song_metadata@),
            r.missing_song_info.title == missing_title_count(song_metadata@),
            r.missing_song_info.album == missing_album_count(song_metadata@),
            r.missing_song_info.disc_number == missing_disc_count(song_metadata@),
            r.missing_song_info.track_number == missing_track_count(song_metadata@),
            r.misc.most_digits_in_track_number == max_track_digits(song_metadata@),
            views(r.artists@) == dedup_adj(
                present_artists(song_metadata@).sort_by(crate::order::name_leq(false)),
            ),
            views(r.albums@) == dedup_adj(
                album_pairs(song_metadata@).sort_by(pair_leq()),
            ).map_values(|p: (Seq<char>, Seq<char>)| album_label(p)),
            r.song_metadata@ == song_metadata@,
    {
        let s: &Vec<SongMetadata> = &song_metadata;
        let mut artist_missing: u32 = 0;
        let mut title_missing: u32 = 0;
        let mut album_missing: u32 = 0;
        let mut disc_missing: u32 = 0;
        let mut track_missing: u32 = 0;
        let mut most_digits: u32 = 0;
        let mut artist_list: Vec<String> = Vec::new();
        let mut pair_list: Vec<(String, String)> = Vec::new();
        let mut i: usize = 0;
        proof {
            reveal_strlit("Unknown artist");
            assert("Unknown artist"@ =~= unknown_artist());
        }
        while i < s.len()
            invariant
                i <= s@.len(),
                s@.len() <= u32::MAX,
                artist_missing == missing_artist_count(s@.take(i as int)),
                title_missing == missing_title_count(s@.take(i as int)),
                album_missing == missing_album_count(s@.take(i as int)),
                disc_missing == missing_disc_count(s@.take(i as int)),
                track_missing == missing_track_count(s@.take(i as int)),
                most_digits == max_track_digits(s@.take(i as int)),
                views(artist_list@) == present_artists(s@.take(i as int)),
                pair_views(pair_list@) == album_pairs(s@.take(i as int)),
            decreases s@.len() - i,
        {
            let m: &SongMetadata = &s[i];
            let ghost pre_art = views(artist_list@);
            let ghost pre_pairs = pair_views(pair_list@);
            proof {
                lemma_missing_counts_bounded(s@.take(i as int));
                assert(s@.take(i + 1).drop_last() =~= s@.take(i as int));
                assert(s@.take(i + 1).last() == s@[i as int]);
            }
            if m.artist.is_none() {
                artist_missing = artist_missing + 1;
            }
            if m.title.is_none() {
                title_missing = title_missing + 1;
            }
            if m.album.is_none() {
                album_missing = album_missing + 1;
            }
            if m.disc_number.is_none() {
                disc_missing = disc_missing + 1;
            }
            if m.track_number.is_none() {
                track_missing = track_missing + 1;
            }
            match m.track_number {
                Some(t) => {
                    let digits: Vec<char> = crate::text::dec_chars(t);
                    let d: usize = digits.len();
                    proof {
                        crate::order::lemma_digits_len_facts(digits@);
                        assert(dec_str(t as nat).len() <= 10) by {
                            lemma_dec_str_len_bounded(t as nat);
                        }
                    }
                    if (d as u32) > most_digits {
                        most_digits = d as u32;
                    }
                },
                None => {},
            }
            match &m.artist {
                Some(a) => {
                    artist_list.push(a.clone());
                },
                None => {},
            }
            match &m.album {
                Some(al) => {
                    let artist_for: String = match &m.artist {
                        Some(a) => a.clone(),
                        None => {
                            let mut u: String = String::new();
                            u.append("Unknown artist");
                            u
                        },
                    };
                    pair_list.push((artist_for, al.clone()));
                },
                None => {},
            }
            i = i + 1;
            proof {
                reveal_with_fuel(Seq::filter, 2);
                assert(s@.take(i as int).drop_last() =~= s@.take(i - 1));
                assert(s@.take(i as int).drop_last() == s@.take(i - 1));
                assert(s@.take(i as int).last() == s@[i - 1]);
                if s@[i - 1].artist is Some {
                    assert(s@.take(i as int).filter(|m: SongMetadata| m.artist is Some) == s@.take(
                        i - 1,
                    ).filter(|m: SongMetadata| m.artist is Some).push(s@[i - 1]));
                    assert(views(artist_list@) =~= pre_art.push(s@[i - 1].artist->Some_0@));
                    assert(views(artist_list@) =~= present_artists(s@.take(i as int)));
                } else {
                    assert(s@.take(i as int).filter(|m: SongMetadata| m.artist is Some) == s@.take(
                        i - 1,
                    ).filter(|m: SongMetadata| m.artist is Some));
                    assert(views(artist_list@) =~= present_artists(s@.take(i as int)));
                }
                if s@[i - 1].album is Some {
                    reveal_strlit("Unknown artist");
                    assert("Unknown artist"@ =~= unknown_artist());
                    assert(s@.take(i as int).filter(|m: SongMetadata| m.album is Some) == s@.take(
                        i - 1,
                    ).filter(|m: SongMetadata| m.album is Some).push(s@[i - 1]));
                    assert(pair_views(pair_list@) =~= pre_pairs.push(
                        (
                            match s@[i - 1].artist {
                                Some(a) => a@,
                                None => unknown_artist(),
                            },
                            s@[i - 1].album->Some_0@,
                        ),
                    ));
                    assert(pair_views(pair_list@) =~= album_pairs(s@.take(i as int)));
                } else {
                    assert(s@.take(i as int).filter(|m: SongMetadata| m.album is Some) == s@.take(
                        i - 1,
                    ).filter(|m: SongMetadata| m.album is Some));
                    assert(pair_views(pair_list@) =~= album_pairs(s@.take(i as int)));
                }
            }
        }
        proof {
            assert(s@.take(s@.len() as int) =~= s@);
        }
        let sorted_artists: Vec<String> = crate::order::sort_names(artist_list, false);
        let artists: Vec<String> = dedup_strings(sorted_artists);
        let sorted_pairs: Vec<(String, String)> = sort_pairs(pair_list);
        let albums: Vec<String> = label_pairs(dedup_pairs(sorted_pairs));
        SongsAnalysis {
            artists,
            albums,
            missing_song_info: MissingSongInfo {
                artist: artist_missing,
                title: title_missing,
                album: album_missing,
                disc_number: disc_missing,
                track_number: track_missing,
            },
            misc: MiscSongInfo { most_digits_in_track_number: most_digits },
            song_metadata,
        }
    }
}

/// Each missing-tag count is at most the number of songs.
proof fn lemma_missing_counts_bounded(s: Seq<SongMetadata>)
    ensures
        missing_artist_count(s) <= s.len(),
        missing_title_count(s) <= s.len(),
        missing_album_count(s) <= s.len(),
        missing_disc_count(s) <= s.len(),
        missing_track_count(s) <= s.len(),
    decreases s.len(),
{
    if s.len() > 0 {
        lemma_missing_counts_bounded(s.drop_last());
    }
}

/// A 32-bit number shows at most ten decimal digits.
proof fn lemma_dec_str_len_bounded(n: nat)
    ensures
        n <= u32::MAX ==> dec_str(n).len() <= 10,
        dec_str(n).len() >= 1,
    decreases n,
{
    if n >= 10 {
        lemma_dec_str_len_bounded(n / 10);
        if n <= u32::MAX {
            assert(dec_str(n).len() == dec_str(n / 10).len() + 1);
            reveal_with_fuel(crate::order::pow10, 11);
            assert(crate::order::pow10(10) == 10000000000);
            lemma_dec_str_len_at_most(n, 10);
        }
    }
}

/// `n` below ten to the `k` shows at most `k` digits (for positive `k`).
proof fn lemma_dec_str_len_at_most(n: nat, k: nat)
    requires
        k >= 1,
        n < crate::order::pow10(k),
    ensures
        dec_str(n).len() <= k,
    decreases k,
{
    if n >= 10 {
        assert(crate::order::pow10(k) == 10 * crate::order::pow10((k - 1) as nat));
        assert(n / 10 < crate::order::pow10((k - 1) as nat)) by (nonlinear_arith)
            requires
                n < 10 * crate::order::pow10((k - 1) as nat),
                n >= 10,
        ;
        lemma_dec_str_len_at_most(n / 10, (k - 1) as nat);
    }
}

/// Drop adjacent repetitions from a sorted list of strings.
fn dedup_strings(v: Vec<String>) -> (r: Vec<String>)
    ensures
        views(r@) == dedup_adj(views(v@)),
{
    let mut out: Vec<String> = Vec::new();
    let mut i: usize = 0;
    while i < v.len()
        invariant
            i <= v@.len(),
            views(out@) == dedup_adj(views(v@).take(i as int)),
        decreases v@.len() - i,
    {
        let ghost pre = views(out@);
        let skip_it: bool = if i > 0 {
            v[i] == v[i - 1]
        } else {
            false
        };
        proof {
            assert(views(v@).take(i + 1).drop_last() =~= views(v@).take(i as int));
            assert(views(v@).take(i + 1).last() == v@[i as int]@);
            if i > 0 {
                assert(views(v@).take(i + 1)[i - 1] == v@[i - 1]@);
            }
        }
        if !skip_it {
            out.push(v[i].clone());
            proof {
                assert(views(out@) =~= pre.push(v@[i as int]@));
            }
        }
        i = i + 1;
    }
    proof {
        assert(views(v@).take(v@.len() as int) =~= views(v@));
    }
    out
}

/// Drop adjacent repetitions from a sorted list of pairs.
fn dedup_pairs(v: Vec<(String, String)>) -> (r: Vec<(String, String)>)
    ensures
        pair_views(r@) == dedup_adj(pair_views(v@)),
{
    let mut out: Vec<(String, String)> = Vec::new();
    let mut i: usize = 0;
    while i < v.len()
        invariant
            i <= v@.len(),
            pair_views(out@) == dedup_adj(pair_views(v@).take(i as int)),
        decreases v@.len() - i,
    {
        let ghost pre = pair_views(out@);
        let skip_it: bool = if i > 0 {
            v[i].0 == v[i - 1].0 && v[i].1 == v[i - 1].1
        } else {
            false
        };
        proof {
            assert(pair_views(v@).take(i + 1).drop_last() =~= pair_views(v@).take(i as int));
            assert(pair_views(v@).take(i + 1).last() == (v@[i as int].0@, v@[i as int].1@));
            if i > 0 {
                assert(pair_views(v@).take(i + 1)[i - 1] == (v@[i - 1].0@, v@[i - 1].1@));
            }
        }
        if !skip_it {
            out.push((v[i].0.clone(), v[i].1.clone()));
            proof {
                assert(pair_views(out@) =~= pre.push((v@[i as int].0@, v@[i as int].1@)));
            }
        }
        i = i + 1;
    }
    proof {
        assert(pair_views(v@).take(v@.len() as int) =~= pair_views(v@));
    }
    out
}

/// Show each pair as its album label.
fn label_pairs(v: Vec<(String, String)>) -> (r: Vec<String>)
    ensures
        views(r@) == pair_views(v@).map_values(|p: (Seq<char>, Seq<char>)| album_label(p)),
{
    let mut out: Vec<String> = Vec::new();
    let mut i: usize = 0;
    while i < v.len()
        invariant
            i <= v@.len(),
            views(out@) == pair_views(v@).take(i as int).map_values(
                |p: (Seq<char>, Seq<char>)| album_label(p),
            ),
        decreases v@.len() - i,
    {
        let ghost pre = views(out@);
        let mut label: String = v[i].1.clone();
        label.append(" (");
        label.append(v[i].0.as_str());
        label.append(")");
        proof {
            reveal_strlit(" (");
            reveal_strlit(")");
            assert(" ("@ =~= seq![' ', '(']);
            assert(")"@ =~= seq![')']);
            assert(label@ =~= album_label((v@[i as int].0@, v@[i as int].1@)));
        }
        out.push(label);
        i = i + 1;
        proof {
            assert(pair_views(v@).take(i as int).drop_last() =~= pair_views(v@).take(i - 1));
            assert(views(out@) =~= pre.push(album_label((v@[i - 1].0@, v@[i - 1].1@))));
            assert(views(out@) =~= pair_views(v@).take(i as int).map_values(
                |p: (Seq<char>, Seq<char>)| album_label(p),
            ));
        }
    }
    proof {
        assert(pair_views(v@).take(v@.len() as int) =~= pair_views(v@));
    }
    out
}

} // verus!
