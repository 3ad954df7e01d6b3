use music_organizer::metadata::SongMetadata;
use music_organizer::plan::{
    plan_copy, should_copy, CopyFileOptions, PlanEntry, PlanNode,
};
use music_organizer::policy::{CopyMetadataOptions, TrackNumberModification};
use music_organizer::template::compile_template;

fn exts() -> Vec<String> {
    vec!["flac".to_string()]
}

fn song(title: &str, track: Option<u32>, disc: Option<u32>, path: &str) -> SongMetadata {
    SongMetadata {
        artist: Some("Band".to_string()),
        title: Some(title.to_string()),
        album: None,
        disc_number: disc,
        track_number: track,
        filepath: path.to_string(),
    }
}

fn options(fat_32: bool, override_files: bool) -> CopyFileOptions {
    CopyFileOptions {
        filename_template: "{{track_number}} {{title}}".to_string(),
        delay_ms: 0,
        override_files,
        pad_width: 2,
        fat_32,
    }
}

#[test]
fn plans_audio_then_others_then_subdirs() {
    let sub = vec![PlanEntry {
        name: "b.flac".to_string(),
        node: PlanNode::File(Some(song("Deep", Some(2), None, "src/cd2/b.flac"))),
    }];
    let entries = vec![
        PlanEntry {
            name: "cover.jpg".to_string(),
            node: PlanNode::File(None),
        },
        PlanEntry {
            name: "10 ten.flac".to_string(),
            node: PlanNode::File(Some(song("Ten", Some(10), None, "src/10 ten.flac"))),
        },
        PlanEntry {
            name: "2 two.flac".to_string(),
            node: PlanNode::File(Some(song("Two", Some(2), None, "src/2 two.flac"))),
        },
        PlanEntry {
            name: "cd2".to_string(),
            node: PlanNode::Dir(sub),
        },
    ];
    let template = compile_template("{{track_number}} {{title}}").unwrap();
    let plan = plan_copy(
        &entries,
        "src",
        "dest",
        &template,
        &options(false, false),
        &CopyMetadataOptions {
            track_number_modification: TrackNumberModification::Unchanged,
        },
        &exts(),
    )
    .unwrap();
    let srcs: Vec<&str> = plan.iter().map(|a| a.src.as_str()).collect();
    assert_eq!(
        srcs,
        vec![
            "src/2 two.flac",
            "src/10 ten.flac",
            "src/cover.jpg",
            "src/cd2/b.flac",
        ]
    );
    assert_eq!(plan[0].dest, "dest/02 Two.flac");
    assert_eq!(plan[1].dest, "dest/10 Ten.flac");
    assert_eq!(plan[2].dest, "dest/cover.jpg");
    assert_eq!(plan[3].dest, "dest/cd2/02 Deep.flac");
    assert!(plan[0].is_audio);
    assert!(!plan[2].is_audio);
    assert_eq!(plan[0].tag_rewrite, None);
}

#[test]
fn rewrites_follow_the_policy() {
    let entries = vec![PlanEntry {
        name: "7 seven.flac".to_string(),
        node: PlanNode::File(Some(song("Seven", Some(7), None, "src/7 seven.flac"))),
    }];
    let template = compile_template("{{track_number}} {{title}}").unwrap();
    let plan = plan_copy(
        &entries,
        "src",
        "dest",
        &template,
        &options(false, false),
        &CopyMetadataOptions {
            track_number_modification: TrackNumberModification::IncludeDiscNumber,
        },
        &exts(),
    )
    .unwrap();
    assert_eq!(plan[0].tag_rewrite, Some("007".to_string()));
}

#[test]
fn fat32_sanitizes_the_planned_destination() {
    let entries = vec![PlanEntry {
        name: "1 one.flac".to_string(),
        node: PlanNode::File(Some(song("What?", Some(1), None, "src/1 one.flac"))),
    }];
    let template = compile_template("{{track_number}} {{title}}").unwrap();
    let plan = plan_copy(
        &entries,
        "src",
        "dest",
        &template,
        &options(true, false),
        &CopyMetadataOptions {
            track_number_modification: TrackNumberModification::Unchanged,
        },
        &exts(),
    )
    .unwrap();
    assert_eq!(plan[0].dest, "dest/01 What_.flac");
}

#[test]
fn missing_tags_abort_the_plan() {
    let entries = vec![PlanEntry {
        name: "1 one.flac".to_string(),
        node: PlanNode::File(None),
    }];
    let template = compile_template("{{track_number}} {{title}}").unwrap();
    let err = plan_copy(
        &entries,
        "src",
        "dest",
        &template,
        &options(false, false),
        &CopyMetadataOptions {
            track_number_modification: TrackNumberModification::Unchanged,
        },
        &exts(),
    )
    .unwrap_err();
    assert_eq!(err.message(), "no tags were read for 'src/1 one.flac'");
}

#[test]
fn three_records_rerun_copies_nothing() {
    // First run on an empty destination copies everything; a second run
    // with overwriting off finds every destination present and skips.
    let entries = vec![
        PlanEntry {
            name: "1 a.flac".to_string(),
            node: PlanNode::File(Some(song("A", Some(1), None, "src/1 a.flac"))),
        },
        PlanEntry {
            name: "2 b.flac".to_string(),
            node: PlanNode::File(Some(song("B", Some(2), None, "src/2 b.flac"))),
        },
        PlanEntry {
            name: "booklet.pdf".to_string(),
            node: PlanNode::File(None),
        },
    ];
    let template = compile_template("{{track_number}} {{title}}").unwrap();
    let plan = plan_copy(
        &entries,
        "src",
        "dest",
        &template,
        &options(false, false),
        &CopyMetadataOptions {
            track_number_modification: TrackNumberModification::PaddedNumber,
        },
        &exts(),
    )
    .unwrap();

    let mut existing: Vec<String> = Vec::new();
    let mut first_copies = 0;
    let mut first_rewrites = 0;
    for a in &plan {
        if should_copy(existing.contains(&a.dest), false) {
            existing.push(a.dest.clone());
            first_copies += 1;
            if a.is_audio && a.tag_rewrite.is_some() {
                first_rewrites += 1;
            }
        }
    }
    assert_eq!(first_copies, 3);
    assert_eq!(first_rewrites, 2);

    let mut second_copies = 0;
    let mut second_rewrites = 0;
    for a in &plan {
        if should_copy(existing.contains(&a.dest), false) {
            existing.push(a.dest.clone());
            second_copies += 1;
            if a.is_audio && a.tag_rewrite.is_some() {
                second_rewrites += 1;
            }
        }
    }
    assert_eq!(second_copies, 0);
    assert_eq!(second_rewrites, 0);
}

#[test]
fn fat32_rerun_copies_nothing_even_when_sanitization_renames() {
    // The skip test runs against the sanitized destination, the same
    // path the bytes went to, so the rerun finds every file.
    let entries = vec![PlanEntry {
        name: "1 one.flac".to_string(),
        node: PlanNode::File(Some(song("What?", Some(1), None, "src/1 one.flac"))),
    }];
    let template = compile_template("{{track_number}} {{title}}").unwrap();
    let plan = plan_copy(
        &entries,
        "src",
        "dest",
        &template,
        &options(true, false),
        &CopyMetadataOptions {
            track_number_modification: TrackNumberModification::PaddedNumber,
        },
        &exts(),
    )
    .unwrap();

    let mut existing: Vec<String> = Vec::new();
    for a in &plan {
        if should_copy(existing.contains(&a.dest), false) {
            existing.push(a.dest.clone());
        }
    }
    assert_eq!(existing, vec!["dest/01 What_.flac".to_string()]);
    let mut rerun_copies = 0;
    for a in &plan {
        if should_copy(existing.contains(&a.dest), false) {
            rerun_copies += 1;
        }
    }
    assert_eq!(rerun_copies, 0);
}

#[test]
fn overwriting_copies_again() {
    assert!(should_copy(false, false));
    assert!(should_copy(false, true));
    assert!(should_copy(true, true));
    assert!(!should_copy(true, false));
}
