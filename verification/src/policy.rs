//! The track-number rewrite policy.
//!
//! After an audio file has been copied, and only when its track number is
//! known, the destination copy's track-number tag may be rewritten: left
//! alone, set to the plain decimal number, set to the number zero-padded
//! to two digits, or set to the disc number (zero when absent) followed by
//! the two-digit padded track number.

use vstd::prelude::*;

verus! {

use crate::text::{dec_str, pad_left};

/// How the destination copy's track-number tag is rewritten.
#[derive(Clone, Copy, PartialEq, Eq, Structural, Debug)]
pub enum TrackNumberModification {
    Unchanged,
    Number,
    PaddedNumber,
    IncludeDiscNumber,
}

/// The tag-rewrite half of the copy configuration.
pub struct CopyMetadataOptions {
    pub track_number_modification: TrackNumberModification,
}

/// The tag value a policy writes for a known track number, or `None` when
/// the policy leaves the tag alone.
pub open spec fn rewritten_track_tag(
    policy: TrackNumberModification,
    track: u32,
    disc: Option<u32>,
) -> Option<Seq<char>> {
    match policy {
        TrackNumberModification::Unchanged => None,
        TrackNumberModification::Number => Some(dec_str(track as nat)),
        TrackNumberModification::PaddedNumber => Some(pad_left(dec_str(track as nat), 2, '0')),
        TrackNumberModification::IncludeDiscNumber => Some(
            dec_str(
                match disc {
                    Some(d) => d as nat,
                    None => 0,
                },
            ) + pad_left(dec_str(track as nat), 2, '0'),
        ),
    }
}

/// The tag value to write after a copy, or `None` when nothing is to be
/// rewritten: when the policy says so, or when no track number is known.
pub open spec fn tag_rewrite_of(
    policy: TrackNumberModification,
    track: Option<u32>,
    disc: Option<u32>,
) -> Option<Seq<char>> {
    match track {
        None => None,
        Some(t) => rewritten_track_tag(policy, t, disc),
    }
}

/// The new track-number tag for a copied file, or `None` when the tag is
/// left untouched.
pub fn plan_tag_rewrite(
    policy: TrackNumberModification,
    track_number: Option<u32>,
    disc_number: Option<u32>,
) -> (r: Option<String>)
    ensures
        r.deep_view() == tag_rewrite_of(policy, track_number, disc_number),
{
    let track: u32 = match track_number {
        None => {
            return None;
        },
        Some(t) => t,
    };
    match policy {
        TrackNumberModification::Unchanged => None,
        TrackNumberModification::Number => {
            let v: Vec<char> = crate::text::dec_chars(track);
            Some(crate::text::string_of(&v))
        },
        TrackNumberModification::PaddedNumber => {
            let v: Vec<char> = crate::text::dec_chars(track);
            let p: Vec<char> = crate::text::pad_left_chars(&v, 2, '0');
            Some(crate::text::string_of(&p))
        },
        TrackNumberModification::IncludeDiscNumber => {
            let d: u32 = match disc_number {
                Some(d) => d,
                None => 0,
            };
            let mut out: Vec<char> = crate::text::dec_chars(d);
            let t: Vec<char> = crate::text::dec_chars(track);
            let p: Vec<char> = crate::text::pad_left_chars(&t, 2, '0');
            crate::text::extend_chars(&mut out, &p);
            Some(crate::text::string_of(&out))
        },
    }
}

} // verus!
