use qmk_keymap::keycodes::{
    build_keycode_table, get_keycode_label, is_keycode_document, KeycodeFile, KeycodeInfo,
    KeycodeTable,
};
use qmk_keymap::keymap::{parse_keymap_layers, Keymap};
use qmk_keymap::text::is_blank;

fn info(key: &str, label: Option<&str>, aliases: &[&str]) -> KeycodeInfo {
    KeycodeInfo {
        key: key.to_string(),
        group: None,
        label: label.map(|l| l.to_string()),
        aliases: if aliases.is_empty() {
            None
        } else {
            Some(aliases.iter().map(|a| a.to_string()).collect())
        },
    }
}

fn file(entries: Vec<(&str, KeycodeInfo)>) -> KeycodeFile {
    KeycodeFile {
        keycodes: entries.into_iter().map(|(n, i)| (n.to_string(), i)).collect(),
    }
}

fn scenario_table() -> KeycodeTable {
    build_keycode_table(&vec![Some(file(vec![("k1", info("KC_A", Some("A"), &["A"]))]))])
}

#[test]
fn test_keycode_lookup() {
    let mut keycodes = KeycodeTable::new();

    keycodes.insert(
        "KC_A".to_string(),
        KeycodeInfo {
            key: "KC_A".to_string(),
            group: Some("basic".to_string()),
            label: Some("A".to_string()),
            aliases: Some(vec!["A".to_string()]),
        },
    );

    assert_eq!(get_keycode_label("KC_A", &keycodes), "A");
    assert_eq!(get_keycode_label("A", &keycodes), "A");
    assert_eq!(get_keycode_label("UNKNOWN", &keycodes), "UNKNOWN");
}

#[test]
fn one_document_table_resolves_key_alias_and_unknown() {
    let table = scenario_table();
    assert_eq!(get_keycode_label("KC_A", &table), "A");
    assert_eq!(get_keycode_label("A", &table), "A");
    assert_eq!(get_keycode_label("KC_ESC", &table), "KC_ESC");
    assert!(table.get("A").is_some());
    assert_eq!(table.get("A").unwrap().key, "KC_A");
}

#[test]
fn keymap_layer_resolves_against_table() {
    let table = scenario_table();
    let km = Keymap {
        keyboard: "ferris".to_string(),
        keymap: "default".to_string(),
        layout: "LAYOUT".to_string(),
        layers: vec![vec!["KC_A".to_string(), "KC_ESC".to_string()]],
    };
    assert_eq!(parse_keymap_layers(&km, &table), vec![vec!["A".to_string(), "KC_ESC".to_string()]]);
}

#[test]
fn empty_alias_is_not_a_key() {
    let table = build_keycode_table(&vec![Some(file(vec![("k", info("KC_B", Some("B"), &[""]))]))]);
    assert!(table.get("").is_none());
    assert_eq!(get_keycode_label("", &table), "");
    assert_eq!(get_keycode_label("KC_B", &table), "B");
}

#[test]
fn whitespace_alias_is_not_a_key() {
    let table = build_keycode_table(&vec![Some(file(vec![(
        "k",
        info("KC_B", Some("B"), &["  ", "\t\n", "\u{3000}", "BB"]),
    )]))]);
    assert!(table.get("  ").is_none());
    assert!(table.get("\t\n").is_none());
    assert!(table.get("\u{3000}").is_none());
    assert_eq!(get_keycode_label("BB", &table), "B");
}

#[test]
fn inserted_key_resolves_to_its_label() {
    let mut table = KeycodeTable::new();
    table.insert_entry(&info("KC_ENT", Some("Enter"), &[]));
    assert_eq!(get_keycode_label("KC_ENT", &table), "Enter");
}

#[test]
fn alias_resolves_as_key() {
    let mut table = KeycodeTable::new();
    table.insert_entry(&info("KC_ENTER", Some("Enter"), &["KC_ENT", " ", "ENT"]));
    let by_key = get_keycode_label("KC_ENTER", &table);
    assert_eq!(get_keycode_label("KC_ENT", &table), by_key);
    assert_eq!(get_keycode_label("ENT", &table), by_key);
    assert_eq!(by_key, "Enter");
}

#[test]
fn unknown_identifier_resolves_to_itself_twice() {
    let table = scenario_table();
    let once = get_keycode_label("KC_NO_SUCH", &table);
    assert_eq!(once, "KC_NO_SUCH");
    assert_eq!(get_keycode_label(&once, &table), once);
}

#[test]
fn blank_or_missing_label_falls_back_to_identifier() {
    let mut table = KeycodeTable::new();
    table.insert_entry(&info("KC_X", Some("   "), &["XX"]));
    table.insert_entry(&info("KC_Y", None, &[]));
    table.insert_entry(&info("KC_Z", Some(""), &[]));
    assert_eq!(get_keycode_label("KC_X", &table), "KC_X");
    assert_eq!(get_keycode_label("XX", &table), "XX");
    assert_eq!(get_keycode_label("KC_Y", &table), "KC_Y");
    assert_eq!(get_keycode_label("KC_Z", &table), "KC_Z");
}

#[test]
fn label_is_returned_untrimmed() {
    let mut table = KeycodeTable::new();
    table.insert_entry(&info("KC_SPC", Some(" Space "), &[]));
    assert_eq!(get_keycode_label("KC_SPC", &table), " Space ");
}

#[test]
fn later_document_wins_on_shared_key() {
    let a = file(vec![("a", info("KC_A", Some("first"), &[]))]);
    let b = file(vec![("b", info("KC_A", Some("second"), &[]))]);
    let table = build_keycode_table(&vec![Some(a), Some(b)]);
    assert_eq!(get_keycode_label("KC_A", &table), "second");
}

#[test]
fn alias_of_later_entry_overrides_earlier_key() {
    let a = file(vec![("a", info("KC_A", Some("first"), &[]))]);
    let b = file(vec![("b", info("KC_Q", Some("Q"), &["KC_A"]))]);
    let table = build_keycode_table(&vec![Some(a), Some(b)]);
    assert_eq!(get_keycode_label("KC_A", &table), "Q");
    assert_eq!(table.get("KC_A").unwrap().key, "KC_Q");
}

#[test]
fn unparsed_document_is_skipped() {
    let a = file(vec![("a", info("KC_A", Some("A"), &[]))]);
    let c = file(vec![("c", info("KC_C", Some("C"), &["CC"]))]);
    let table = build_keycode_table(&vec![Some(a), None, Some(c)]);
    assert_eq!(get_keycode_label("KC_A", &table), "A");
    assert_eq!(get_keycode_label("CC", &table), "C");
    assert!(table.get("KC_B").is_none());
}

#[test]
fn no_documents_give_empty_table() {
    let table = build_keycode_table(&vec![None, None]);
    assert!(table.get("KC_A").is_none());
    assert_eq!(get_keycode_label("KC_A", &table), "KC_A");
}

#[test]
fn merge_file_files_every_entry() {
    let mut table = KeycodeTable::new();
    table.merge_file(&file(vec![
        ("a", info("KC_A", Some("A"), &[])),
        ("b", info("KC_B", Some("B"), &["BEE"])),
    ]));
    assert_eq!(get_keycode_label("KC_A", &table), "A");
    assert_eq!(get_keycode_label("BEE", &table), "B");
}

#[test]
fn copy_keeps_every_field() {
    let mut original = info("KC_A", Some("A"), &["A", "AA"]);
    original.group = Some("basic".to_string());
    let c = original.copy();
    assert_eq!(c.key, "KC_A");
    assert_eq!(c.group, Some("basic".to_string()));
    assert_eq!(c.label, Some("A".to_string()));
    assert_eq!(c.aliases, Some(vec!["A".to_string(), "AA".to_string()]));
}

#[test]
fn shorter_layer_is_padded_and_longer_cut() {
    let table = scenario_table();
    let km = Keymap {
        keyboard: "kb".to_string(),
        keymap: "km".to_string(),
        layout: "L".to_string(),
        layers: vec![
            vec!["KC_A".to_string(), "KC_B".to_string()],
            vec!["KC_A".to_string()],
            vec!["A".to_string(), "KC_C".to_string(), "KC_D".to_string()],
        ],
    };
    assert_eq!(
        parse_keymap_layers(&km, &table),
        vec![
            vec!["A".to_string(), "KC_B".to_string()],
            vec!["A".to_string(), String::new()],
            vec!["A".to_string(), "KC_C".to_string()],
        ]
    );
}

#[test]
fn keymap_without_layers_gives_empty_grid() {
    let table = scenario_table();
    let km = Keymap {
        keyboard: "kb".to_string(),
        keymap: "km".to_string(),
        layout: "L".to_string(),
        layers: vec![],
    };
    assert!(parse_keymap_layers(&km, &table).is_empty());
}

#[test]
fn blank_strings() {
    assert!(is_blank(""));
    assert!(is_blank(" \t\r\n"));
    assert!(is_blank("\u{a0}\u{2003}"));
    assert!(!is_blank(" a "));
    assert!(!is_blank("x"));
}

#[test]
fn keycode_document_names() {
    assert!(is_keycode_document("keycodes_0.0.1.hjson"));
    assert!(is_keycode_document("a.hjson"));
    assert!(!is_keycode_document(".hjson"));
    assert!(!is_keycode_document("keycodes.json"));
    assert!(!is_keycode_document("keycodes.hjson.bak"));
    assert!(!is_keycode_document("hjson"));
    assert!(!is_keycode_document("readme.HJSON"));
}
