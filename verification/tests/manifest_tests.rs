use dmi_index::entry::IconStates;
use dmi_index::manifest::parse_states;
use dmi_index::paths::has_dmi_extension;
use dmi_index::paths::normalize_separators;

fn parse(payload: &str) -> Vec<Vec<u8>> {
    parse_states(&payload.as_bytes().to_vec())
}

#[test]
fn round_trip_payload() {
    let states = parse("state = \"a\"\nstate = \"b\"\n# END DMI\nstate = \"c\"\n");
    assert_eq!(states, vec![b"a".to_vec(), b"b".to_vec()]);
}

#[test]
fn lines_are_trimmed_before_matching() {
    let states = parse("   state = \"padded\"   \nstate = \"x\"\r\n# END DMI\n");
    assert_eq!(states, vec![b"padded".to_vec(), b"x".to_vec()]);
}

#[test]
fn non_state_lines_are_ignored() {
    let states = parse(
        "# BEGIN DMI\nversion = 4.0\n\twidth = 32\nstate = \"one\"\n\tdirs = 1\nnot a state\n",
    );
    assert_eq!(states, vec![b"one".to_vec()]);
}

#[test]
fn name_is_taken_verbatim_between_quotes() {
    // No unescaping: inner quotes stay; an empty name is allowed.
    let states = parse("state = \"a\"b\"\nstate = \"\"\n");
    assert_eq!(states, vec![b"a\"b".to_vec(), b"".to_vec()]);
}

#[test]
fn unterminated_quote_is_ignored() {
    let states = parse("state = \"open\nstate = ok\nstate= \"x\"\n");
    assert_eq!(states, Vec::<Vec<u8>>::new());
}

#[test]
fn duplicates_are_kept_in_source_order() {
    let states = parse("state = \"b\"\nstate = \"a\"\nstate = \"b\"\n");
    assert_eq!(states, vec![b"b".to_vec(), b"a".to_vec(), b"b".to_vec()]);
}

#[test]
fn terminator_anywhere_in_line_stops() {
    let states = parse("state = \"a\"\n  stuff # END DMI stuff\nstate = \"c\"\n");
    assert_eq!(states, vec![b"a".to_vec()]);
}

#[test]
fn extension_filter_is_exact() {
    assert!(has_dmi_extension(&b"a.dmi".to_vec()));
    assert!(has_dmi_extension(&b"dir/sub/a.tar.dmi".to_vec()));
    assert!(!has_dmi_extension(&b".dmi".to_vec()));
    assert!(!has_dmi_extension(&b"dir/.dmi".to_vec()));
    assert!(!has_dmi_extension(&b"a.DMI".to_vec()));
    assert!(!has_dmi_extension(&b"admi".to_vec()));
    assert!(!has_dmi_extension(&b"a.dmi/".to_vec()));
}

#[test]
fn separators_are_normalized() {
    let out = normalize_separators(&b"a\\b\\c.dmi".to_vec());
    assert_eq!(out, b"a/b/c.dmi".to_vec());
    let out = normalize_separators(&b"plain/path.dmi".to_vec());
    assert_eq!(out, b"plain/path.dmi".to_vec());
}

#[test]
fn round_trip_set_form() {
    let states = parse("state = \"a\"\nstate = \"b\"\n# END DMI\nstate = \"c\"\n");
    match IconStates::new(states, false) {
        IconStates::Array(names) => assert_eq!(names, vec![b"a".to_vec(), b"b".to_vec()]),
        IconStates::Assoc(_) => panic!("set form expected"),
    }
}
