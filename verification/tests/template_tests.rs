use music_organizer::template::{
    compile_template, render_template_str, Field, Item, Piece, RenderValues,
};

fn values(
    artist: Option<&str>,
    title: Option<&str>,
    album: Option<&str>,
    disc: Option<&str>,
    track: Option<&str>,
) -> RenderValues {
    RenderValues {
        artist: artist.map(|s| s.to_string()),
        title: title.map(|s| s.to_string()),
        album: album.map(|s| s.to_string()),
        disc_number: disc.map(|s| s.to_string()),
        track_number: track.map(|s| s.to_string()),
        src_dir: None,
    }
}

#[test]
fn absent_section_is_fully_omitted() {
    let out = render_template_str(
        "{{#disc_number}}{{disc_number}}-{{/disc_number}}{{track_number}} {{title}}",
        &values(None, Some("Intro"), None, None, Some("01")),
    )
    .unwrap();
    assert_eq!(out, "01 Intro");
}

#[test]
fn present_section_renders_with_its_text() {
    let out = render_template_str(
        "{{#disc_number}}{{disc_number}}-{{/disc_number}}{{track_number}} {{title}}",
        &values(None, Some("Intro"), None, Some("1"), Some("01")),
    )
    .unwrap();
    assert_eq!(out, "1-01 Intro");
}

#[test]
fn triple_braced_tags_substitute_too() {
    let out = render_template_str(
        "{{#disc_number}}{{{disc_number}}}-{{/disc_number}}{{{track_number}}} {{{title}}}",
        &values(None, Some("Money"), None, None, Some("06")),
    )
    .unwrap();
    assert_eq!(out, "06 Money");
}

#[test]
fn absent_variable_renders_empty() {
    let out = render_template_str(
        "{{artist}}-{{title}}",
        &values(None, Some("Echoes"), None, None, None),
    )
    .unwrap();
    assert_eq!(out, "-Echoes");
}

#[test]
fn plain_text_passes_through() {
    let out = render_template_str("just a name", &values(None, None, None, None, None)).unwrap();
    assert_eq!(out, "just a name");
    let out2 = render_template_str("a{b}c", &values(None, None, None, None, None)).unwrap();
    assert_eq!(out2, "a{b}c");
}

#[test]
fn unrecognized_field_is_refused() {
    assert!(compile_template("{{bogus}}").is_err());
    assert!(compile_template("{{#genre}}x{{/genre}}").is_err());
}

#[test]
fn malformed_templates_are_refused() {
    assert!(compile_template("{{title").is_err());
    assert!(compile_template("{{#artist}}never closed").is_err());
    assert!(compile_template("{{/artist}}").is_err());
    assert!(compile_template("{{#artist}}{{#album}}{{/album}}{{/artist}}").is_err());
    assert!(compile_template("{{}}").is_err());
}

#[test]
fn error_carries_a_message() {
    let e = compile_template("{{bogus}}").unwrap_err();
    assert_eq!(
        e.message(),
        "template is malformed or names an unrecognized field"
    );
}

#[test]
fn the_conditional_template_parses_to_its_four_items() {
    // `compile_template` guarantees the compiled items are the parse of
    // the string, so checking their shape here pins that parse.
    let t = compile_template(
        "{{#disc_number}}{{disc_number}}-{{/disc_number}}{{track_number}} {{title}}",
    )
    .unwrap();
    assert_eq!(t.items.len(), 4);
    match &t.items[0] {
        Item::Section(Field::DiscNumber, ps) => {
            assert_eq!(ps.len(), 2);
            match &ps[0] {
                Piece::Var(Field::DiscNumber) => {}
                _ => panic!("the section should open with the disc number"),
            }
            match &ps[1] {
                Piece::Lit(cs) => assert_eq!(cs.iter().collect::<String>(), "-"),
                _ => panic!("the section should close with the dash"),
            }
        }
        _ => panic!("the template should open with the disc section"),
    }
    match &t.items[1] {
        Item::Var(Field::TrackNumber) => {}
        _ => panic!("the track number should follow"),
    }
    match &t.items[2] {
        Item::Lit(cs) => assert_eq!(cs.iter().collect::<String>(), " "),
        _ => panic!("a space should follow"),
    }
    match &t.items[3] {
        Item::Var(Field::Title) => {}
        _ => panic!("the title should close the template"),
    }
}

#[test]
fn directory_templates_use_the_source_directory_name() {
    let mut vals = values(None, None, None, None, None);
    vals.src_dir = Some("Album Disc 1".to_string());
    let out = render_template_str("{{src_dir}}", &vals).unwrap();
    assert_eq!(out, "Album Disc 1");
}

#[test]
fn compiled_template_renders_repeatedly() {
    let t = compile_template("{{album}}/{{title}}").unwrap();
    let a = t.render(&values(None, Some("One"), Some("X"), None, None));
    let b = t.render(&values(None, Some("Two"), Some("Y"), None, None));
    assert_eq!(a, "X/One");
    assert_eq!(b, "Y/Two");
}
