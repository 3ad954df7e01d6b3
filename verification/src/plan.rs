//! The copy plan.
//!
//! A copy run is planned here, in full, before anything touches the
//! filesystem: for every file of the source tree one action saying what to
//! copy where, whether it is an audio file, and what track-number tag to
//! write on the destination copy.  Within each directory the audio files
//! come first in natural name order, then the other files in the same
//! order, then the subdirectories lexicographically, depth first — so a
//! plan is a pure, reproducible function of the tree, the template and the
//! options.  The caller executes the plan: it skips an action whose
//! destination already exists when overwriting is off, copies the bytes
//! otherwise, rewrites the tag only after a copy that actually happened,
//! and pauses after each audio copy.  A rerun with overwriting off after
//! a full run therefore copies and rewrites nothing (see
//! `lemma_rerun_is_idempotent`).

use vstd::prelude::*;

verus! {

use crate::metadata::SongMetadata;
use crate::order::views;
use crate::policy::{CopyMetadataOptions, TrackNumberModification, tag_rewrite_of};
use crate::sanitize::sanitize_name;
use crate::template::{ItemV, RenderValuesV, Template, render_items};
use crate::text::{dec_str, pad_left};
use crate::tree::{
    DirEntryV, EntryKind, audio_names, comp_start, file_ext_of, other_names, subdir_names,
    with_extension,
};

/// The file-naming half of the copy configuration.
pub struct CopyFileOptions {
    pub filename_template: String,
    pub delay_ms: u64,
    pub override_files: bool,
    pub pad_width: usize,
    pub fat_32: bool,
}

/// One node of the source tree as the planner sees it: a file, carrying
/// its tags when they were read, or a directory of further entries.
pub enum PlanNode {
    File(Option<SongMetadata>),
    Dir(Vec<PlanEntry>),
}

/// One named node of the planner's source tree.
pub struct PlanEntry {
    pub name: String,
    pub node: PlanNode,
}

/// One file to copy.  `dest` is the destination path, sanitized for the
/// constrained filesystem when that is asked for; the existence check and
/// the bytes both use it.  `tag_rewrite` is the track-number tag to write
/// on the copy, when one is to be written at all.
#[derive(Debug)]
pub struct CopyAction {
    pub src: String,
    pub dest: String,
    pub is_audio: bool,
    pub tag_rewrite: Option<String>,
}

/// The mathematical form of a `CopyAction`.
pub struct CopyActionV {
    pub src: Seq<char>,
    pub dest: Seq<char>,
    pub is_audio: bool,
    pub tag_rewrite: Option<Seq<char>>,
}

impl View for CopyAction {
    type V = CopyActionV;

    open spec fn view(&self) -> CopyActionV {
        CopyActionV {
            src: self.src@,
            dest: self.dest@,
            is_audio: self.is_audio,
            tag_rewrite: self.tag_rewrite.deep_view(),
        }
    }
}

/// The views of a sequence of actions.
pub open spec fn action_views(s: Seq<CopyAction>) -> Seq<CopyActionV> {
    s.map_values(|a: CopyAction| a@)
}

/// Planning fails only on an audio file whose tags were never read.
#[derive(Debug)]
pub enum PlanError {
    MissingMetadata(String),
}

impl PlanError {
    /// A line for the user naming the file without tags.
    pub fn message(&self) -> (r: String)
        ensures
            (self matches PlanError::MissingMetadata(p) ==> r@ == "no tags were read for '"@ + p@
                + "'"@),
    {
        let mut s: String = String::new();
        s.append("no tags were read for '");
        match self {
            PlanError::MissingMetadata(p) => {
                s.append(p.as_str());
            },
        }
        s.append("'");
        s
    }
}

/// The plain listing (name and kind) of one level of the planner's tree.
pub open spec fn plan_listing(es: Seq<PlanEntry>) -> Seq<DirEntryV> {
    es.map_values(
        |e: PlanEntry| DirEntryV {
            name: e.name@,
            kind: match e.node {
                PlanNode::File(_) => EntryKind::File,
                PlanNode::Dir(_) => EntryKind::Dir,
            },
        },
    )
}

/// The first file entry called `name`, or a negative number.
pub open spec fn find_file_index(es: Seq<PlanEntry>, name: Seq<char>, i: int) -> int
    decreases es.len() - i,
{
    if i < 0 || i >= es.len() {
        -1
    } else if es[i].name@ == name && (es[i].node matches PlanNode::File(_)) {
        i
    } else {
        find_file_index(es, name, i + 1)
    }
}

/// The first subdirectory entry called `name`, or a negative number.
pub open spec fn find_subdir_index(es: Seq<PlanEntry>, name: Seq<char>, i: int) -> int
    decreases es.len() - i,
{
    if i < 0 || i >= es.len() {
        -1
    } else if es[i].name@ == name && (es[i].node matches PlanNode::Dir(_)) {
        i
    } else {
        find_subdir_index(es, name, i + 1)
    }
}

proof fn lemma_find_file_bounds(es: Seq<PlanEntry>, name: Seq<char>, i: int)
    ensures
        find_file_index(es, name, i) == -1 || (i <= find_file_index(es, name, i) < es.len()
            && es[find_file_index(es, name, i)].name@ == name && (es[find_file_index(
            es,
            name,
            i,
        )].node matches PlanNode::File(_))),
    decreases es.len() - i,
{
    if 0 <= i < es.len() {
        lemma_find_file_bounds(es, name, i + 1);
    }
}

proof fn lemma_find_subdir_bounds(es: Seq<PlanEntry>, name: Seq<char>, i: int)
    ensures
        find_subdir_index(es, name, i) == -1 || (i <= find_subdir_index(es, name, i) < es.len()
            && es[find_subdir_index(es, name, i)].name@ == name && (es[find_subdir_index(
            es,
            name,
            i,
        )].node matches PlanNode::Dir(_))),
    decreases es.len() - i,
{
    if 0 <= i < es.len() {
        lemma_find_subdir_bounds(es, name, i + 1);
    }
}

/// The template values a song renders with: text fields as they stand,
/// numeric fields zero-padded to the configured width.
pub open spec fn render_values_of(md: SongMetadata, pad: nat) -> RenderValuesV {
    RenderValuesV {
        artist: md.artist.deep_view(),
        title: md.title.deep_view(),
        album: md.album.deep_view(),
        disc_number: match md.disc_number {
            Some(d) => Some(pad_left(dec_str(d as nat), pad, '0')),
            None => None,
        },
        track_number: match md.track_number {
            Some(t) => Some(pad_left(dec_str(t as nat), pad, '0')),
            None => None,
        },
        src_dir: None,
    }
}

/// A path's last component sanitized for a constrained filesystem.
pub open spec fn fat32_path(p: Seq<char>) -> Seq<char> {
    let k = comp_start(p);
    if p.skip(k).len() == 0 {
        p
    } else {
        p.take(k) + sanitize_name(p.skip(k))
    }
}

/// The action that copies one audio file: the name is rendered from the
/// song's tags, given the source file's extension back, and sanitized
/// when the target filesystem asks for it.
pub open spec fn audio_action_of(
    name: Seq<char>,
    md: SongMetadata,
    src_dir: Seq<char>,
    dest_dir: Seq<char>,
    tmpl: Seq<ItemV>,
    pad: nat,
    fat32: bool,
    policy: TrackNumberModification,
) -> CopyActionV {
    let rendered = render_items(tmpl, render_values_of(md, pad));
    let ext = match file_ext_of(name) {
        Some(e) => e,
        None => Seq::empty(),
    };
    let named = with_extension(dest_dir + seq!['/'] + rendered, ext);
    CopyActionV {
        src: src_dir + seq!['/'] + name,
        dest: if fat32 {
            fat32_path(named)
        } else {
            named
        },
        is_audio: true,
        tag_rewrite: tag_rewrite_of(policy, md.track_number, md.disc_number),
    }
}

/// The action that copies one non-audio file under its own name.
pub open spec fn other_action_of(
    name: Seq<char>,
    src_dir: Seq<char>,
    dest_dir: Seq<char>,
    fat32: bool,
) -> CopyActionV {
    let named = dest_dir + seq!['/'] + name;
    CopyActionV {
        src: src_dir + seq!['/'] + name,
        dest: if fat32 {
            fat32_path(named)
        } else {
            named
        },
        is_audio: false,
        tag_rewrite: None,
    }
}

/// The actions for the audio files named from `k` on, or the path of the
/// first one whose tags are missing.
pub open spec fn plan_audio(
    es: Seq<PlanEntry>,
    anames: Seq<Seq<char>>,
    k: int,
    src_dir: Seq<char>,
    dest_dir: Seq<char>,
    tmpl: Seq<ItemV>,
    pad: nat,
    fat32: bool,
    policy: TrackNumberModification,
) -> Result<Seq<CopyActionV>, Seq<char>>
    decreases anames.len() - k,
{
    if k < 0 || k >= anames.len() {
        Ok(Seq::empty())
    } else {
        let idx = find_file_index(es, anames[k], 0);
        if idx >= 0 && (es[idx].node matches PlanNode::File(Some(_))) {
            match plan_audio(es, anames, k + 1, src_dir, dest_dir, tmpl, pad, fat32, policy) {
                Ok(rest) => Ok(
                    seq![
                        audio_action_of(
                            anames[k],
                            es[idx].node->File_0->Some_0,
                            src_dir,
                            dest_dir,
                            tmpl,
                            pad,
                            fat32,
                            policy,
                        ),
                    ] + rest,
                ),
                Err(e) => Err(e),
            }
        } else if idx >= 0 {
            Err(src_dir + seq!['/'] + anames[k])
        } else {
            plan_audio(es, anames, k + 1, src_dir, dest_dir, tmpl, pad, fat32, policy)
        }
    }
}

/// The actions for the non-audio files named from `k` on.
pub open spec fn plan_others(
    onames: Seq<Seq<char>>,
    k: int,
    src_dir: Seq<char>,
    dest_dir: Seq<char>,
    fat32: bool,
) -> Seq<CopyActionV>
    decreases onames.len() - k,
{
    if k < 0 || k >= onames.len() {
        Seq::empty()
    } else {
        seq![other_action_of(onames[k], src_dir, dest_dir, fat32)] + plan_others(
            onames,
            k + 1,
            src_dir,
            dest_dir,
            fat32,
        )
    }
}

/// The whole plan for one directory level: audio files, then other
/// files, then each subdirectory in turn, depth first.
pub open spec fn plan_dir(
    es: Seq<PlanEntry>,
    src_dir: Seq<char>,
    dest_dir: Seq<char>,
    tmpl: Seq<ItemV>,
    pad: nat,
    fat32: bool,
    policy: TrackNumberModification,
    exts: Seq<Seq<char>>,
) -> Result<Seq<CopyActionV>, Seq<char>>
    decreases es, 1nat,
{
    let listing = plan_listing(es);
    let anames = audio_names(listing, exts).sort_by(crate::order::name_leq(true));
    let onames = other_names(listing, exts).sort_by(crate::order::name_leq(true));
    let dnames = subdir_names(listing).sort_by(crate::order::name_leq(false));
    match plan_audio(es, anames, 0, src_dir, dest_dir, tmpl, pad, fat32, policy) {
        Err(e) => Err(e),
        Ok(aacts) => {
            let oacts = plan_others(onames, 0, src_dir, dest_dir, fat32);
            match plan_subdirs(es, dnames, 0, src_dir, dest_dir, tmpl, pad, fat32, policy, exts) {
                Err(e) => Err(e),
                Ok(dacts) => Ok(aacts + oacts + dacts),
            }
        },
    }
}

/// The plans of the subdirectories named from `k` on, concatenated.
pub open spec fn plan_subdirs(
    es: Seq<PlanEntry>,
    dnames: Seq<Seq<char>>,
    k: int,
    src_dir: Seq<char>,
    dest_dir: Seq<char>,
    tmpl: Seq<ItemV>,
    pad: nat,
    fat32: bool,
    policy: TrackNumberModification,
    exts: Seq<Seq<char>>,
) -> Result<Seq<CopyActionV>, Seq<char>>
    decreases es, 0nat, dnames.len() - k,
    via plan_subdirs_decreases
{
    if k < 0 || k >= dnames.len() {
        Ok(Seq::empty())
    } else {
        let idx = find_subdir_index(es, dnames[k], 0);
        let here = if idx >= 0 {
            match es[idx].node {
                PlanNode::Dir(children) => plan_dir(
                    children@,
                    src_dir + seq!['/'] + dnames[k],
                    dest_dir + seq!['/'] + dnames[k],
                    tmpl,
                    pad,
                    fat32,
                    policy,
                    exts,
                ),
                PlanNode::File(_) => Ok(Seq::empty()),
            }
        } else {
            Ok(Seq::empty())
        };
        match here {
            Err(e) => Err(e),
            Ok(acts) => match plan_subdirs(
                es,
                dnames,
                k + 1,
                src_dir,
                dest_dir,
                tmpl,
                pad,
                fat32,
                policy,
                exts,
            ) {
                Err(e) => Err(e),
                Ok(rest) => Ok(acts + rest),
            },
        }
    }
}

#[via_fn]
proof fn plan_subdirs_decreases(
    es: Seq<PlanEntry>,
    dnames: Seq<Seq<char>>,
    k: int,
    src_dir: Seq<char>,
    dest_dir: Seq<char>,
    tmpl: Seq<ItemV>,
    pad: nat,
    fat32: bool,
    policy: TrackNumberModification,
    exts: Seq<Seq<char>>,
) {
    if 0 <= k < dnames.len() {
        let idx = find_subdir_index(es, dnames[k], 0);
        lemma_find_subdir_bounds(es, dnames[k], 0);
        if idx >= 0 {
            vstd::seq::axiom_seq_index_decreases(es, idx);
            match es[idx].node {
                PlanNode::Dir(children) => {
                    vstd::std_specs::vec::axiom_vec_decreases_to_view(children);
                    assert(decreases_to!(es[idx] => es[idx].node));
                    assert(decreases_to!(es => children@));
                },
                PlanNode::File(_) => {},
            }
        }
    }
}

/// Plan one directory level and everything below it.  Planning succeeds
/// exactly when every audio file in the tree carries tags, and the plan
/// is the specification's, action for action.
pub fn plan_copy(
    entries: &Vec<PlanEntry>,
    src_dir: &str,
    dest_dir: &str,
    template: &Template,
    file_options: &CopyFileOptions,
    metadata_options: &CopyMetadataOptions,
    audio_extensions: &Vec<String>,
) -> (r: Result<Vec<CopyAction>, PlanError>)
    ensures
        ({
            let spec = plan_dir(
                entries@,
                src_dir@,
                dest_dir@,
                template@,
                file_options.pad_width as nat,
                file_options.fat_32,
                metadata_options.track_number_modification,
                views(audio_extensions@),
            );
            match r {
                Ok(p) => spec == Ok::<Seq<CopyActionV>, Seq<char>>(action_views(p@)),
                Err(e) => (e matches PlanError::MissingMetadata(q) && spec == Err::<
                    Seq<CopyActionV>,
                    Seq<char>,
                >(q@)),
            }
        }),
    decreases entries@,
{
    let ghost exts = views(audio_extensions@);
    let ghost tmpl = template@;
    let ghost pad = file_options.pad_width as nat;
    let ghost fat32 = file_options.fat_32;
    let ghost policy = metadata_options.track_number_modification;
    let mut listing: Vec<crate::tree::DirEntry> = Vec::new();
    let mut i: usize = 0;
    while i < entries.len()
        invariant
            i <= entries@.len(),
            crate::tree::entry_views(listing@) == plan_listing(entries@.take(i as int)),
        decreases entries@.len() - i,
    {
        let kind: EntryKind = match &entries[i].node {
            PlanNode::File(_) => EntryKind::File,
            PlanNode::Dir(_) => EntryKind::Dir,
        };
        let ghost pre_listing = listing@;
        let entry: crate::tree::DirEntry = crate::tree::DirEntry {
            name: entries[i].name.clone(),
            kind,
        };
        let ghost ev = entry@;
        proof {
            assert(entries@.take(i + 1)[i as int] == entries@[i as int]);
            assert(ev == plan_listing(entries@.take(i + 1))[i as int]);
        }
        listing.push(entry);
        i = i + 1;
        proof {
            assert(crate::tree::entry_views(pre_listing).len() == pre_listing.len());
            assert(plan_listing(entries@.take(i - 1)).len() == i - 1);
            assert(listing@.len() == i);
            assert forall|j: int| 0 <= j < listing@.len() implies crate::tree::entry_views(
                listing@,
            )[j] == plan_listing(entries@.take(i as int))[j] by {
                if j < pre_listing.len() {
                    assert(listing@[j] == pre_listing[j]);
                    assert(crate::tree::entry_views(pre_listing)[j] == plan_listing(
                        entries@.take(i - 1),
                    )[j]);
                    assert(entries@.take(i - 1)[j] == entries@.take(i as int)[j]);
                } else {
                    assert(listing@[j]@ == ev);
                    assert(entries@.take(i as int) == entries@.take(i - 1 + 1));
                }
            }
            assert(crate::tree::entry_views(listing@) =~= plan_listing(entries@.take(i as int)));
        }
    }
    proof {
        assert(entries@.take(entries@.len() as int) =~= entries@);
    }
    let set: crate::tree::DirectoryEntrySet = crate::tree::walk(&listing, audio_extensions, true);
    let ghost anames = audio_names(plan_listing(entries@), exts).sort_by(
        crate::order::name_leq(true),
    );
    let ghost onames = other_names(plan_listing(entries@), exts).sort_by(
        crate::order::name_leq(true),
    );
    let ghost dnames = subdir_names(plan_listing(entries@)).sort_by(crate::order::name_leq(false));
    proof {
        assert(views(set.audio_files@) == anames);
        assert(views(set.other_files@) == onames);
        assert(views(set.subdirs@) == dnames);
    }
    let mut out: Vec<CopyAction> = Vec::new();

    // Audio files, in natural order.
    let mut a: usize = 0;
    proof {
        assert(action_views(out@) =~= Seq::<CopyActionV>::empty());
        match plan_audio(entries@, anames, 0, src_dir@, dest_dir@, tmpl, pad, fat32, policy) {
            Ok(rest) => {
                assert(action_views(out@) + rest =~= rest);
            },
            Err(e) => {},
        }
    }
    while a < set.audio_files.len()
        invariant
            a <= set.audio_files@.len(),
            views(set.audio_files@) == anames,
            anames == audio_names(plan_listing(entries@), views(audio_extensions@)).sort_by(
                crate::order::name_leq(true),
            ),
            exts == views(audio_extensions@),
            tmpl == template@,
            pad == file_options.pad_width as nat,
            fat32 == file_options.fat_32,
            policy == metadata_options.track_number_modification,
            plan_audio(entries@, anames, 0, src_dir@, dest_dir@, tmpl, pad, fat32, policy) == (
            match plan_audio(
                entries@,
                anames,
                a as int,
                src_dir@,
                dest_dir@,
                tmpl,
                pad,
                fat32,
                policy,
            ) {
                Ok(rest) => Ok::<Seq<CopyActionV>, Seq<char>>(action_views(out@) + rest),
                Err(e) => Err::<Seq<CopyActionV>, Seq<char>>(e),
            }),
        decreases set.audio_files@.len() - a,
    {
        let aname: &String = &set.audio_files[a];
        proof {
            assert(aname@ == anames[a as int]);
        }
        let mut j: usize = 0;
        while j < entries.len()
            invariant
                j <= entries@.len(),
                find_file_index(entries@, aname@, 0) == find_file_index(
                    entries@,
                    aname@,
                    j as int,
                ),
            ensures
                j <= entries@.len(),
                j < entries@.len() ==> find_file_index(entries@, aname@, 0) == j,
                j == entries@.len() ==> find_file_index(entries@, aname@, 0) == -1,
            decreases entries@.len() - j,
        {
            let is_match: bool = match &entries[j].node {
                PlanNode::File(_) => entries[j].name == *aname,
                PlanNode::Dir(_) => false,
            };
            if is_match {
                break ;
            }
            j = j + 1;
        }
        proof {
            lemma_find_file_bounds(entries@, aname@, 0);
        }
        let ghost pre = action_views(out@);
        let ghost rem_a = plan_audio(
            entries@,
            anames,
            a as int,
            src_dir@,
            dest_dir@,
            tmpl,
            pad,
            fat32,
            policy,
        );
        if j < entries.len() {
            match &entries[j].node {
                PlanNode::File(opt) => {
                    match opt {
                        Some(md) => {
                            let act: CopyAction = build_audio_action(
                                aname.as_str(),
                                md,
                                src_dir,
                                dest_dir,
                                template,
                                file_options,
                                metadata_options,
                            );
                            out.push(act);
                            proof {
                                assert(action_views(out@) =~= pre.push(
                                    audio_action_of(
                                        anames[a as int],
                                        entries@[j as int].node->File_0->Some_0,
                                        src_dir@,
                                        dest_dir@,
                                        tmpl,
                                        pad,
                                        fat32,
                                        policy,
                                    ),
                                ));
                            }
                        },
                        None => {
                            let p: String = crate::tree::path_join(src_dir, aname.as_str());
                            proof {
                                assert(rem_a == Err::<Seq<CopyActionV>, Seq<char>>(
                                    src_dir@ + seq!['/'] + anames[a as int],
                                ));
                            }
                            return Err(PlanError::MissingMetadata(p));
                        },
                    }
                },
                PlanNode::Dir(_) => {
                    proof {
                        assert(false);
                    }
                },
            }
        }
        a = a + 1;
        proof {
            let rem_next = plan_audio(
                entries@,
                anames,
                a as int,
                src_dir@,
                dest_dir@,
                tmpl,
                pad,
                fat32,
                policy,
            );
            match rem_next {
                Ok(rest) => {
                    assert(action_views(out@) + rest =~= pre + (rem_a->Ok_0));
                },
                Err(e) => {},
            }
        }
    }
    proof {
        assert(plan_audio(
            entries@,
            anames,
            a as int,
            src_dir@,
            dest_dir@,
            tmpl,
            pad,
            fat32,
            policy,
        ) == Ok::<Seq<CopyActionV>, Seq<char>>(Seq::<CopyActionV>::empty()));
        assert(action_views(out@) + Seq::<CopyActionV>::empty() =~= action_views(out@));
    }
    let ghost aacts = action_views(out@);

    // Other files, in the same order.
    let mut o: usize = 0;
    while o < set.other_files.len()
        invariant
            o <= set.other_files@.len(),
            views(set.other_files@) == onames,
            fat32 == file_options.fat_32,
            aacts + plan_others(onames, 0, src_dir@, dest_dir@, fat32) == action_views(out@)
                + plan_others(onames, o as int, src_dir@, dest_dir@, fat32),
        decreases set.other_files@.len() - o,
    {
        let oname: &String = &set.other_files[o];
        proof {
            assert(oname@ == onames[o as int]);
        }
        let ghost pre = action_views(out@);
        let act: CopyAction = build_other_action(oname.as_str(), src_dir, dest_dir, file_options);
        out.push(act);
        o = o + 1;
        proof {
            assert(action_views(out@) =~= pre.push(
                other_action_of(onames[o - 1], src_dir@, dest_dir@, fat32),
            ));
            assert(action_views(out@) + plan_others(onames, o as int, src_dir@, dest_dir@, fat32)
                =~= pre + plan_others(onames, o - 1, src_dir@, dest_dir@, fat32));
        }
    }
    proof {
        assert(plan_others(onames, set.other_files@.len() as int, src_dir@, dest_dir@, fat32)
            =~= Seq::<CopyActionV>::empty());
        assert(action_views(out@) =~= action_views(out@) + Seq::<CopyActionV>::empty());
        assert(action_views(out@) == aacts + plan_others(onames, 0, src_dir@, dest_dir@, fat32));
    }

    // Subdirectories, lexicographically, depth first.
    let mut k: usize = 0;
    proof {
        let oall = plan_others(onames, 0, src_dir@, dest_dir@, fat32);
        let m = (aacts.len() + oall.len()) as int;
        assert(action_views(out@).len() == m);
        assert(action_views(out@).take(m) =~= action_views(out@));
        assert(action_views(out@).skip(m) =~= Seq::<CopyActionV>::empty());
        match plan_subdirs(entries@, dnames, 0, src_dir@, dest_dir@, tmpl, pad, fat32, policy,
            exts) {
            Ok(d0) => {
                assert(action_views(out@).skip(m) + d0 =~= d0);
            },
            Err(e) => {},
        }
    }
    while k < set.subdirs.len()
        invariant
            k <= set.subdirs@.len(),
            views(set.subdirs@) == dnames,
            anames == audio_names(plan_listing(entries@), views(audio_extensions@)).sort_by(
                crate::order::name_leq(true),
            ),
            onames == other_names(plan_listing(entries@), views(audio_extensions@)).sort_by(
                crate::order::name_leq(true),
            ),
            dnames == subdir_names(plan_listing(entries@)).sort_by(crate::order::name_leq(false)),
            plan_audio(entries@, anames, 0, src_dir@, dest_dir@, tmpl, pad, fat32, policy) == Ok::<
                Seq<CopyActionV>,
                Seq<char>,
            >(aacts),
            aacts.len() + plan_others(onames, 0, src_dir@, dest_dir@, fat32).len()
                <= action_views(out@).len(),
            exts == views(audio_extensions@),
            tmpl == template@,
            pad == file_options.pad_width as nat,
            fat32 == file_options.fat_32,
            policy == metadata_options.track_number_modification,
            ({
                let whole = plan_subdirs(
                    entries@,
                    dnames,
                    0,
                    src_dir@,
                    dest_dir@,
                    tmpl,
                    pad,
                    fat32,
                    policy,
                    exts,
                );
                let rem = plan_subdirs(
                    entries@,
                    dnames,
                    k as int,
                    src_dir@,
                    dest_dir@,
                    tmpl,
                    pad,
                    fat32,
                    policy,
                    exts,
                );
                match rem {
                    Ok(rest) => whole == Ok::<Seq<CopyActionV>, Seq<char>>(
                        action_views(out@).skip(
                            (aacts.len() + plan_others(
                                onames,
                                0,
                                src_dir@,
                                dest_dir@,
                                fat32,
                            ).len()) as int,
                        ) + rest,
                    ) && action_views(out@).take(
                        (aacts.len() + plan_others(
                            onames,
                            0,
                            src_dir@,
                            dest_dir@,
                            fat32,
                        ).len()) as int,
                    ) == aacts + plan_others(onames, 0, src_dir@, dest_dir@, fat32),
                    Err(e) => whole == Err::<Seq<CopyActionV>, Seq<char>>(e),
                }
            }),
        decreases set.subdirs@.len() - k,
    {
        let dname: &String = &set.subdirs[k];
        proof {
            assert(dname@ == dnames[k as int]);
        }
        let mut j: usize = 0;
        while j < entries.len()
            invariant
                j <= entries@.len(),
                find_subdir_index(entries@, dname@, 0) == find_subdir_index(
                    entries@,
                    dname@,
                    j as int,
                ),
            ensures
                j <= entries@.len(),
                j < entries@.len() ==> find_subdir_index(entries@, dname@, 0) == j,
                j == entries@.len() ==> find_subdir_index(entries@, dname@, 0) == -1,
            decreases entries@.len() - j,
        {
            let is_match: bool = match &entries[j].node {
                PlanNode::Dir(_) => entries[j].name == *dname,
                PlanNode::File(_) => false,
            };
            if is_match {
                break ;
            }
            j = j + 1;
        }
        proof {
            lemma_find_subdir_bounds(entries@, dname@, 0);
        }
        let ghost pre = action_views(out@);
        let ghost rem_k = plan_subdirs(
            entries@,
            dnames,
            k as int,
            src_dir@,
            dest_dir@,
            tmpl,
            pad,
            fat32,
            policy,
            exts,
        );
        if j < entries.len() {
            match &entries[j].node {
                PlanNode::Dir(children) => {
                    let sub_src: String = crate::tree::path_join(src_dir, dname.as_str());
                    let sub_dest: String = crate::tree::path_join(dest_dir, dname.as_str());
                    proof {
                        vstd::seq::axiom_seq_index_decreases(entries@, j as int);
                        vstd::std_specs::vec::axiom_vec_decreases_to_view(*children);
                        assert(decreases_to!(entries@[j as int] => entries@[j as int].node));
                        assert(decreases_to!(entries@ => children@));
                    }
                    let sub: Result<Vec<CopyAction>, PlanError> = plan_copy(
                        children,
                        sub_src.as_str(),
                        sub_dest.as_str(),
                        template,
                        file_options,
                        metadata_options,
                        audio_extensions,
                    );
                    match sub {
                        Ok(acts) => {
                            let mut tail: Vec<CopyAction> = acts;
                            let ghost tailv = action_views(tail@);
                            out.append(&mut tail);
                            proof {
                                assert(action_views(out@) =~= pre + tailv);
                            }
                        },
                        Err(e) => {
                            proof {
                                assert(rem_k is Err);
                            }
                            return Err(e);
                        },
                    }
                },
                PlanNode::File(_) => {
                    proof {
                        assert(false);
                    }
                },
            }
        }
        k = k + 1;
        proof {
            let oall = plan_others(onames, 0, src_dir@, dest_dir@, fat32);
            let rem_next = plan_subdirs(
                entries@,
                dnames,
                k as int,
                src_dir@,
                dest_dir@,
                tmpl,
                pad,
                fat32,
                policy,
                exts,
            );
            match rem_next {
                Ok(rest) => {
                    match rem_k {
                        Ok(rk) => {
                            assert(action_views(out@).take((aacts.len() + oall.len()) as int)
                                =~= pre.take((aacts.len() + oall.len()) as int));
                            assert(action_views(out@).skip((aacts.len() + oall.len()) as int)
                                + rest =~= pre.skip((aacts.len() + oall.len()) as int) + rk);
                        },
                        Err(e) => {},
                    }
                },
                Err(e) => {},
            }
        }
    }
    proof {
        let oall = plan_others(onames, 0, src_dir@, dest_dir@, fat32);
        assert(plan_subdirs(
            entries@,
            dnames,
            set.subdirs@.len() as int,
            src_dir@,
            dest_dir@,
            tmpl,
            pad,
            fat32,
            policy,
            exts,
        ) == Ok::<Seq<CopyActionV>, Seq<char>>(Seq::<CopyActionV>::empty()));
        assert(action_views(out@).skip((aacts.len() + oall.len()) as int) + Seq::<
            CopyActionV,
        >::empty() =~= action_views(out@).skip((aacts.len() + oall.len()) as int));
        assert(action_views(out@) =~= action_views(out@).take((aacts.len() + oall.len()) as int)
            + action_views(out@).skip((aacts.len() + oall.len()) as int));
        match plan_subdirs(entries@, dnames, 0, src_dir@, dest_dir@, tmpl, pad, fat32, policy,
            exts) {
            Ok(d0) => {
                assert(action_views(out@) =~= aacts + oall + d0);
            },
            Err(e) => {
                assert(false);
            },
        }
    }
    Ok(out)
}

/// Whether an action's copy goes ahead: the destination is missing, or
/// overwriting was requested.  A skipped file is a normal outcome, not
/// an error.
pub open spec fn copy_goes_ahead(dest_exists: bool, override_files: bool) -> bool {
    !dest_exists || override_files
}

/// Decide whether to copy, given whether the destination exists.
pub fn should_copy(dest_exists: bool, override_files: bool) -> (r: bool)
    ensures
        r == copy_goes_ahead(dest_exists, override_files),
{
    !dest_exists || override_files
}

/// The destination paths present after the plan has run against a
/// filesystem where `existing` paths were present.
pub open spec fn after_run(
    existing: Set<Seq<char>>,
    plan: Seq<CopyActionV>,
    override_files: bool,
) -> Set<Seq<char>>
    decreases plan.len(),
{
    if plan.len() == 0 {
        existing
    } else {
        let a = plan[0];
        let next = if copy_goes_ahead(existing.contains(a.dest), override_files) {
            existing.insert(a.dest)
        } else {
            existing
        };
        after_run(next, plan.skip(1), override_files)
    }
}

/// How many byte copies a run of the plan performs.
pub open spec fn copies_performed(
    existing: Set<Seq<char>>,
    plan: Seq<CopyActionV>,
    override_files: bool,
) -> nat
    decreases plan.len(),
{
    if plan.len() == 0 {
        0
    } else {
        let a = plan[0];
        let go = copy_goes_ahead(existing.contains(a.dest), override_files);
        (if go {
            1nat
        } else {
            0nat
        }) + copies_performed(
            if go {
                existing.insert(a.dest)
            } else {
                existing
            },
            plan.skip(1),
            override_files,
        )
    }
}

/// How many tag rewrites a run of the plan performs: one for each copy
/// that goes ahead on an audio file with a tag value to write.
pub open spec fn rewrites_performed(
    existing: Set<Seq<char>>,
    plan: Seq<CopyActionV>,
    override_files: bool,
) -> nat
    decreases plan.len(),
{
    if plan.len() == 0 {
        0
    } else {
        let a = plan[0];
        let go = copy_goes_ahead(existing.contains(a.dest), override_files);
        (if go && a.is_audio && a.tag_rewrite is Some {
            1nat
        } else {
            0nat
        }) + rewrites_performed(
            if go {
                existing.insert(a.dest)
            } else {
                existing
            },
            plan.skip(1),
            override_files,
        )
    }
}

/// Running a plan never removes a path.
proof fn lemma_after_run_monotone(
    existing: Set<Seq<char>>,
    plan: Seq<CopyActionV>,
    override_files: bool,
)
    ensures
        forall|p: Seq<char>|
            existing.contains(p) ==> #[trigger] after_run(existing, plan, override_files).contains(
                p,
            ),
    decreases plan.len(),
{
    if plan.len() > 0 {
        let a = plan[0];
        let next = if copy_goes_ahead(existing.contains(a.dest), override_files) {
            existing.insert(a.dest)
        } else {
            existing
        };
        lemma_after_run_monotone(next, plan.skip(1), override_files);
        assert forall|p: Seq<char>| existing.contains(p) implies after_run(
            existing,
            plan,
            override_files,
        ).contains(p) by {
            assert(next.contains(p));
            assert(after_run(next, plan.skip(1), override_files).contains(p));
        }
    }
}

/// After a full run, every destination of the plan is present: a
/// performed copy put it there, a skipped one found it there.
proof fn lemma_after_run_all_present(
    existing: Set<Seq<char>>,
    plan: Seq<CopyActionV>,
    override_files: bool,
)
    ensures
        forall|i: int|
            0 <= i < plan.len() ==> after_run(existing, plan, override_files).contains(
                #[trigger] plan[i].dest,
            ),
    decreases plan.len(),
{
    if plan.len() > 0 {
        let a = plan[0];
        let next = if copy_goes_ahead(existing.contains(a.dest), override_files) {
            existing.insert(a.dest)
        } else {
            existing
        };
        assert(next.contains(a.dest));
        lemma_after_run_monotone(next, plan.skip(1), override_files);
        lemma_after_run_all_present(next, plan.skip(1), override_files);
        assert forall|i: int| 0 <= i < plan.len() implies after_run(
            existing,
            plan,
            override_files,
        ).contains(#[trigger] plan[i].dest) by {
            if i > 0 {
                assert(plan.skip(1)[i - 1] == plan[i]);
                assert(after_run(next, plan.skip(1), override_files).contains(
                    plan.skip(1)[i - 1].dest,
                ));
            } else {
                assert(after_run(next, plan.skip(1), override_files).contains(a.dest));
            }
        }
    }
}

/// When every destination is already present and overwriting is off, a
/// run performs nothing.
proof fn lemma_run_on_complete_tree(existing: Set<Seq<char>>, plan: Seq<CopyActionV>)
    requires
        forall|i: int| 0 <= i < plan.len() ==> existing.contains(#[trigger] plan[i].dest),
    ensures
        copies_performed(existing, plan, false) == 0,
        rewrites_performed(existing, plan, false) == 0,
    decreases plan.len(),
{
    if plan.len() > 0 {
        assert(existing.contains(plan[0].dest));
        assert(forall|i: int|
            0 <= i < plan.skip(1).len() ==> #[trigger] plan.skip(1)[i] == plan[i + 1]);
        lemma_run_on_complete_tree(existing, plan.skip(1));
    }
}

/// Rerunning any plan with overwriting off after a prior full run of it
/// performs no byte copy and no tag rewrite: after the first run every
/// destination exists, and the existence check runs against the same
/// destination path the bytes went to.
pub proof fn lemma_rerun_is_idempotent(
    existing: Set<Seq<char>>,
    plan: Seq<CopyActionV>,
    override_files: bool,
)
    ensures
        copies_performed(after_run(existing, plan, override_files), plan, false) == 0,
        rewrites_performed(after_run(existing, plan, override_files), plan, false) == 0,
{
    lemma_after_run_all_present(existing, plan, override_files);
    lemma_run_on_complete_tree(after_run(existing, plan, override_files), plan);
}

/// Build the copy action for one audio file from its tags.
fn build_audio_action(
    name: &str,
    md: &SongMetadata,
    src_dir: &str,
    dest_dir: &str,
    template: &Template,
    file_options: &CopyFileOptions,
    metadata_options: &CopyMetadataOptions,
) -> (r: CopyAction)
    ensures
        r@ == audio_action_of(
            name@,
            *md,
            src_dir@,
            dest_dir@,
            template@,
            file_options.pad_width as nat,
            file_options.fat_32,
            metadata_options.track_number_modification,
        ),
{
    let vals: crate::template::RenderValues = make_render_values(md, file_options.pad_width);
    let rendered: String = template.render(&vals);
    let ext: String = match crate::tree::file_extension(name) {
        Some(e) => e,
        None => String::new(),
    };
    let joined: String = crate::tree::path_join(dest_dir, rendered.as_str());
    let named: String = crate::tree::set_extension_path(joined.as_str(), ext.as_str());
    let dest: String = if file_options.fat_32 {
        let d: String = crate::sanitize::sanitize_pathbuf_for_fat32(named.as_str());
        proof {
            assert(d@ == fat32_path(named@));
        }
        d
    } else {
        named
    };
    let rewrite: Option<String> = crate::policy::plan_tag_rewrite(
        metadata_options.track_number_modification,
        md.track_number,
        md.disc_number,
    );
    CopyAction {
        src: crate::tree::path_join(src_dir, name),
        dest,
        is_audio: true,
        tag_rewrite: rewrite,
    }
}

/// Build the copy action for one non-audio file.
fn build_other_action(
    name: &str,
    src_dir: &str,
    dest_dir: &str,
    file_options: &CopyFileOptions,
) -> (r: CopyAction)
    ensures
        r@ == other_action_of(name@, src_dir@, dest_dir@, file_options.fat_32),
{
    let named: String = crate::tree::path_join(dest_dir, name);
    let dest: String = if file_options.fat_32 {
        let d: String = crate::sanitize::sanitize_pathbuf_for_fat32(named.as_str());
        proof {
            assert(d@ == fat32_path(named@));
        }
        d
    } else {
        named
    };
    CopyAction {
        src: crate::tree::path_join(src_dir, name),
        dest,
        is_audio: false,
        tag_rewrite: None,
    }
}

/// The template values for one song.
fn make_render_values(md: &SongMetadata, pad: usize) -> (r: crate::template::RenderValues)
    ensures
        r@ == render_values_of(*md, pad as nat),
{
    let artist: Option<String> = match &md.artist {
        Some(s) => Some(s.clone()),
        None => None,
    };
    let title: Option<String> = match &md.title {
        Some(s) => Some(s.clone()),
        None => None,
    };
    let album: Option<String> = match &md.album {
        Some(s) => Some(s.clone()),
        None => None,
    };
    let disc_number: Option<String> = match md.disc_number {
        Some(d) => {
            let v: Vec<char> = crate::text::dec_chars(d);
            let p: Vec<char> = crate::text::pad_left_chars(&v, pad, '0');
            Some(crate::text::string_of(&p))
        },
        None => None,
    };
    let track_number: Option<String> = match md.track_number {
        Some(t) => {
            let v: Vec<char> = crate::text::dec_chars(t);
            let p: Vec<char> = crate::text::pad_left_chars(&v, pad, '0');
            Some(crate::text::string_of(&p))
        },
        None => None,
    };
    crate::template::RenderValues { artist, title, album, disc_number, track_number, src_dir: None }
}

} // verus!
