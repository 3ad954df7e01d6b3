//! One audio file's extracted tags.
//!
//! Every field is independently optional: a missing tag never aborts the
//! processing of a file.  Numeric tags are read by taking the longest
//! leading run of ASCII digits of the raw value and parsing it as an
//! unsigned integer, so a value like `3/12` still yields a track number;
//! a value with no leading digits, or one whose run overflows, yields
//! nothing rather than an error.

use vstd::prelude::*;

verus! {

use crate::order::{digits_len, num_val};

/// The tags read from one audio file, with the path it was read from.
#[derive(Clone)]
pub struct SongMetadata {
    pub artist: Option<String>,
    pub title: Option<String>,
    pub album: Option<String>,
    pub disc_number: Option<u32>,
    pub track_number: Option<u32>,
    pub filepath: String,
}

/// The mathematical form of `SongMetadata`.
pub struct SongMetadataV {
    pub artist: Option<Seq<char>>,
    pub title: Option<Seq<char>>,
    pub album: Option<Seq<char>>,
    pub disc_number: Option<u32>,
    pub track_number: Option<u32>,
    pub filepath: Seq<char>,
}

impl View for SongMetadata {
    type V = SongMetadataV;

    open spec fn view(&self) -> SongMetadataV {
        SongMetadataV {
            artist: self.artist.deep_view(),
            title: self.title.deep_view(),
            album: self.album.deep_view(),
            disc_number: self.disc_number,
            track_number: self.track_number,
            filepath: self.filepath@,
        }
    }
}

/// The number a raw numeric tag denotes: the value of its longest leading
/// digit run, when there is one and it fits.
pub open spec fn parsed_track_number(s: Seq<char>) -> Option<u32> {
    let d = digits_len(s);
    if d == 0 {
        None
    } else if num_val(s.take(d as int)) <= u32::MAX {
        Some(num_val(s.take(d as int)) as u32)
    } else {
        None
    }
}

impl SongMetadata {
    /// Parse a numeric tag value: the longest leading run of ASCII digits,
    /// read as an unsigned integer; `None` when there is no leading digit
    /// or the number does not fit.
    pub fn parse_track_number(val: &str) -> (r: Option<u32>)
        ensures
            r == parsed_track_number(val@),
    {
        let v: Vec<char> = crate::text::chars_of(val);
        let d: usize = crate::order::digits_prefix_len(&v);
        proof {
            crate::order::lemma_digits_len_facts(v@);
        }
        if d == 0 {
            return None;
        }
        let mut acc: u64 = 0;
        let mut i: usize = 0;
        while i < d
            invariant
                v@ == val@,
                i <= d,
                d == digits_len(v@),
                d <= v@.len(),
                forall|j: int| 0 <= j < d ==> crate::order::is_digit(#[trigger] v@[j]),
                acc == num_val(v@.take(i as int)),
            decreases d - i,
        {
            if acc > 0xffff_ffff {
                proof {
                    assert(v@.take(d as int).len() == d as int);
                    crate::order::lemma_num_val_prefix_mono(v@.take(d as int), i as int);
                    assert(v@.take(d as int).take(i as int) =~= v@.take(i as int));
                }
                return None;
            }
            let dv: u64 = ((v[i] as u32) - 48) as u64;
            proof {
                assert(crate::order::is_digit(v@[i as int]));
                assert(v@.take(i + 1) =~= v@.take(i as int).push(v@[i as int]));
                crate::order::lemma_num_val_snoc(v@.take(i as int), v@[i as int]);
            }
            acc = acc * 10 + dv;
            i = i + 1;
        }
        if acc > 0xffff_ffff {
            return None;
        }
        Some(acc as u32)
    }
}

} // verus!
