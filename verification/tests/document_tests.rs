use dmi_index::entry::IconStates;
use dmi_index::extract::extract;
use dmi_index::extract::ExtractError;
use dmi_index::index::BuildError;
use dmi_index::index::Document;
use dmi_index::index::IconIndex;
use dmi_index::json::emit_document;

/// Builds a one-pixel PNG holding the given manifest text in a zTXt chunk.
fn make_dmi(payload: &str) -> Vec<u8> {
    let mut buf = Vec::new();
    {
        let mut encoder = png::Encoder::new(&mut buf, 1, 1);
        encoder.set_color(png::ColorType::Grayscale);
        encoder.set_depth(png::BitDepth::Eight);
        encoder
            .add_ztxt_chunk("Description".to_string(), payload.to_string())
            .unwrap();
        let mut writer = encoder.write_header().unwrap();
        writer.write_image_data(&[0]).unwrap();
    }
    buf
}

fn emit_string(doc: &Document, pretty: bool) -> String {
    String::from_utf8(emit_document(doc, pretty)).unwrap()
}

#[test]
fn empty_directory_document() {
    let icons = IconIndex::new(false);
    assert_eq!(icons.file_count(), 0);
    assert_eq!(icons.state_total(), Some(0));
    let doc = Document::new(icons, None);
    assert_eq!(emit_string(&doc, false), "{\"revision\":null,\"icons\":{}}");
}

#[test]
fn single_file_set_form() {
    let payload = "# BEGIN DMI\nversion = 4.0\nstate = \"idle\"\n\tdirs = 1\nstate = \"run\"\n\tdirs = 4\n# END DMI\n";
    let png_bytes = make_dmi(payload);
    let mut icons = IconIndex::new(false);
    let added = icons
        .add_file(b"icons/mob.dmi".to_vec(), &png_bytes)
        .unwrap();
    assert!(added);
    assert_eq!(icons.file_count(), 1);
    assert_eq!(icons.state_total(), Some(2));
    let doc = Document::new(icons, None);
    assert_eq!(
        emit_string(&doc, false),
        "{\"revision\":null,\"icons\":{\"icons/mob.dmi\":[\"idle\",\"run\"]}}"
    );
}

#[test]
fn single_file_mapping_form() {
    let payload = "state = \"idle\"\nstate = \"run\"\n# END DMI\n";
    let png_bytes = make_dmi(payload);
    let mut icons = IconIndex::new(true);
    icons
        .add_file(b"icons/mob.dmi".to_vec(), &png_bytes)
        .unwrap();
    let doc = Document::new(icons, None);
    assert_eq!(
        emit_string(&doc, false),
        "{\"revision\":null,\"icons\":{\"icons/mob.dmi\":{\"idle\":true,\"run\":true}}}"
    );
}

#[test]
fn two_files_sorted_unique() {
    let mut icons = IconIndex::new(false);
    let b = make_dmi("state = \"y\"\nstate = \"z\"\n# END DMI\n");
    let a = make_dmi("state = \"x\"\nstate = \"y\"\n# END DMI\n");
    icons.add_file(b"sub/b.dmi".to_vec(), &b).unwrap();
    icons.add_file(b"a.dmi".to_vec(), &a).unwrap();
    assert_eq!(icons.file_count(), 2);
    assert_eq!(icons.state_total(), Some(4));
    let doc = Document::new(icons, None);
    assert_eq!(
        emit_string(&doc, false),
        "{\"revision\":null,\"icons\":{\"a.dmi\":[\"x\",\"y\"],\"sub/b.dmi\":[\"y\",\"z\"]}}"
    );
}

#[test]
fn terminator_hides_later_states() {
    let png_bytes = make_dmi("state = \"kept\"\n# END DMI\nstate = \"ignored\"\n");
    let states = extract(&png_bytes).unwrap();
    assert_eq!(states, vec![b"kept".to_vec()]);
}

#[test]
fn backslash_key_is_normalized() {
    let png_bytes = make_dmi("state = \"s\"\n# END DMI\n");
    let mut icons = IconIndex::new(false);
    icons.add_file(b"sub\\x.dmi".to_vec(), &png_bytes).unwrap();
    let doc = Document::new(icons, None);
    assert_eq!(
        emit_string(&doc, false),
        "{\"revision\":null,\"icons\":{\"sub/x.dmi\":[\"s\"]}}"
    );
}

#[test]
fn revision_is_emitted_as_string() {
    let doc = Document::new(IconIndex::new(false), Some(b"abc123".to_vec()));
    assert_eq!(
        emit_string(&doc, false),
        "{\"revision\":\"abc123\",\"icons\":{}}"
    );
}

#[test]
fn duplicate_path_is_an_error() {
    let png_bytes = make_dmi("state = \"s\"\n# END DMI\n");
    let mut icons = IconIndex::new(false);
    icons.add_file(b"same.dmi".to_vec(), &png_bytes).unwrap();
    let before = emit_string(&Document::new(icons, None), false);
    let mut icons = IconIndex::new(false);
    icons.add_file(b"same.dmi".to_vec(), &png_bytes).unwrap();
    match icons.add_file(b"same.dmi".to_vec(), &png_bytes) {
        Err(BuildError::DuplicatePath { path }) => assert_eq!(path, b"same.dmi".to_vec()),
        other => panic!("expected a duplicate-path error, got {:?}", other.is_ok()),
    }
    // The failed insertion left the index unchanged.
    assert_eq!(emit_string(&Document::new(icons, None), false), before);
}

#[test]
fn non_dmi_path_is_skipped() {
    let png_bytes = make_dmi("state = \"s\"\n# END DMI\n");
    let mut icons = IconIndex::new(false);
    let added = icons.add_file(b"notes.txt".to_vec(), &png_bytes).unwrap();
    assert!(!added);
    let added = icons.add_file(b".dmi".to_vec(), &png_bytes).unwrap();
    assert!(!added);
    let added = icons.add_file(b"upper.DMI".to_vec(), &png_bytes).unwrap();
    assert!(!added);
    assert_eq!(icons.file_count(), 0);
}

#[test]
fn garbage_bytes_are_a_structural_error() {
    let garbage = b"this is not a png at all".to_vec();
    match extract(&garbage) {
        Err(ExtractError::PngStructure(_)) => {}
        Err(ExtractError::ChunkDecode(_)) => panic!("wrong error variant"),
        Ok(_) => panic!("garbage must not extract"),
    }
    let mut icons = IconIndex::new(false);
    match icons.add_file(b"bad.dmi".to_vec(), &garbage) {
        Err(BuildError::Extract { path, .. }) => assert_eq!(path, b"bad.dmi".to_vec()),
        _ => panic!("expected an extract error"),
    }
}

#[test]
fn duplicate_states_collapse() {
    let png_bytes = make_dmi("state = \"a\"\nstate = \"a\"\nstate = \"b\"\n# END DMI\n");
    let mut icons = IconIndex::new(false);
    icons.add_file(b"d.dmi".to_vec(), &png_bytes).unwrap();
    assert_eq!(icons.state_total(), Some(2));
    let doc = Document::new(icons, None);
    assert_eq!(
        emit_string(&doc, false),
        "{\"revision\":null,\"icons\":{\"d.dmi\":[\"a\",\"b\"]}}"
    );
}

#[test]
fn icon_states_new_sorts_and_dedups() {
    let states = vec![b"run".to_vec(), b"idle".to_vec(), b"run".to_vec()];
    let entry = IconStates::new(states, false);
    assert_eq!(entry.len(), 2);
    match entry {
        IconStates::Array(names) => {
            assert_eq!(names, vec![b"idle".to_vec(), b"run".to_vec()]);
        }
        IconStates::Assoc(_) => panic!("set form expected"),
    }
    let entry = IconStates::new(vec![b"x".to_vec()], true);
    assert!(matches!(entry, IconStates::Assoc(_)));
    assert_eq!(entry.len(), 1);
}

#[test]
fn pretty_output_matches_serde_json() {
    let payload = "state = \"idle\"\nstate = \"run\"\n# END DMI\n";
    let png_bytes = make_dmi(payload);
    let mut icons = IconIndex::new(false);
    icons.add_file(b"icons/mob.dmi".to_vec(), &png_bytes).unwrap();
    icons.add_file(b"a.dmi".to_vec(), &png_bytes).unwrap();
    let doc = Document::new(icons, Some(b"deadbeef".to_vec()));
    let compact = emit_string(&doc, false);
    let pretty = emit_string(&doc, true);
    let value: serde_json::Value = serde_json::from_str(&compact).unwrap();
    let icons_value = &value["icons"];
    assert_eq!(
        compact,
        format!(
            "{{\"revision\":\"deadbeef\",\"icons\":{}}}",
            serde_json::to_string(icons_value).unwrap()
        )
    );
    assert_eq!(
        pretty,
        format!(
            "{{\n  \"revision\": \"deadbeef\",\n  \"icons\": {}\n}}",
            serde_json::to_string_pretty(icons_value)
                .unwrap()
                .replace('\n', "\n  ")
        )
    );
}

#[test]
fn pretty_mapping_form_matches_serde_json() {
    let png_bytes = make_dmi("state = \"b\"\nstate = \"a\"\n# END DMI\n");
    let mut icons = IconIndex::new(true);
    icons.add_file(b"m.dmi".to_vec(), &png_bytes).unwrap();
    let empty = make_dmi("# END DMI\n");
    icons.add_file(b"empty.dmi".to_vec(), &empty).unwrap();
    let doc = Document::new(icons, None);
    let compact = emit_string(&doc, false);
    let pretty = emit_string(&doc, true);
    assert_eq!(
        compact,
        "{\"revision\":null,\"icons\":{\"empty.dmi\":{},\"m.dmi\":{\"a\":true,\"b\":true}}}"
    );
    let value: serde_json::Value = serde_json::from_str(&compact).unwrap();
    assert_eq!(
        pretty,
        format!(
            "{{\n  \"revision\": null,\n  \"icons\": {}\n}}",
            serde_json::to_string_pretty(&value["icons"])
                .unwrap()
                .replace('\n', "\n  ")
        )
    );
}

#[test]
fn escaping_matches_serde_json() {
    let weird = vec![
        b"quote\"name".to_vec(),
        b"back\\slash".to_vec(),
        b"tab\tnewline\ncarriage\rbell\x07ctl\x01".to_vec(),
        "unicode\u{00e9}".as_bytes().to_vec(),
    ];
    let entry = IconStates::new(weird, false);
    let icons = IconIndex {
        assoc: false,
        entries: vec![dmi_index::index::IndexEntry {
            path: b"w.dmi".to_vec(),
            states: entry,
        }],
    };
    let doc = Document::new(icons, None);
    let compact = emit_string(&doc, false);
    let value: serde_json::Value = serde_json::from_str(&compact).unwrap();
    assert_eq!(
        compact,
        format!(
            "{{\"revision\":null,\"icons\":{}}}",
            serde_json::to_string(&value["icons"]).unwrap()
        )
    );
    assert!(compact.contains("\\u0001"));
    assert!(compact.contains("\\t"));
}

#[test]
fn empty_document_pretty() {
    let doc = Document::new(IconIndex::new(false), None);
    assert_eq!(
        emit_string(&doc, true),
        "{\n  \"revision\": null,\n  \"icons\": {}\n}"
    );
}

#[test]
fn insertion_order_does_not_matter() {
    let a = make_dmi("state = \"x\"\n# END DMI\n");
    let b = make_dmi("state = \"y\"\n# END DMI\n");
    let mut first = IconIndex::new(false);
    first.add_file(b"a.dmi".to_vec(), &a).unwrap();
    first.add_file(b"sub/b.dmi".to_vec(), &b).unwrap();
    let mut second = IconIndex::new(false);
    second.add_file(b"sub/b.dmi".to_vec(), &b).unwrap();
    second.add_file(b"a.dmi".to_vec(), &a).unwrap();
    let one = emit_string(&Document::new(first, None), false);
    let two = emit_string(&Document::new(second, None), false);
    assert_eq!(one, two);
}
