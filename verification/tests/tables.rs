use ragnarok_stack::tables::{add_header_clear, header_clears, header_type, merge_tables, section};

const TABLE_A: &str = "# a comment mentioning Body: in passing\nHeader:\n  Type: ITEM_DB\n  Version: 3\n\nBody:\n  - Id: 30000\n    AegisName: Mod_A_Potion\n";
const TABLE_B: &str = "Header:\n  Type: ITEM_DB\n  Version: 3\n\nBody:\n  - Id: 30001\n    AegisName: Mod_B_Potion\n";

#[test]
fn a_replacing_table_keeps_its_clear_through_a_merge_with_an_adding_one() {
    let adds = "Header:\n  Type: POPULATION_SPAWN_DB\n  Version: 1\n\nBody:\n  - Profile: combat_pve_low\n    FieldsAdd:\n      - ro_isle\n";
    let replaces = "Header:\n  Type: POPULATION_SPAWN_DB\n  Version: 1\n  Clear: true\n\nBody:\n  - Profile: novice_default\n    Towns:\n      - new_1-1\n";
    assert!(!header_clears(adds));
    assert!(header_clears(replaces));

    let merged = merge_tables(adds, replaces).expect("same Type merges");
    assert!(header_clears(&merged), "{merged}");
    assert!(merged.contains("ro_isle"), "{merged}");
    assert!(merged.contains("new_1-1"), "{merged}");
    assert_eq!(merged.matches("Clear: true").count(), 1, "{merged}");

    let merged = merge_tables(replaces, adds).expect("same Type merges");
    assert!(header_clears(&merged), "{merged}");
    assert!(merged.contains("ro_isle"), "{merged}");

    let merged = merge_tables(adds, adds).expect("same Type merges");
    assert!(!header_clears(&merged), "{merged}");
}

#[test]
fn two_mods_adding_items_keep_both() {
    let merged = merge_tables(TABLE_A, TABLE_B).expect("two ITEM_DB tables merge");
    assert!(merged.contains("Mod_A_Potion"), "{merged}");
    assert!(merged.contains("Mod_B_Potion"), "{merged}");
    assert_eq!(merged.matches("Type: ITEM_DB").count(), 1, "{merged}");
    assert_eq!(merged.matches("\nBody:").count(), 1, "{merged}");
    assert!(merged.find("Mod_A_Potion") < merged.find("Mod_B_Potion"), "{merged}");
}

#[test]
fn entries_land_above_a_footer_and_it_is_not_duplicated() {
    let with_footer = format!("{TABLE_A}\nFooter:\n  Imports:\n  - Path: db/re/item_db_etc.yml\n");
    let b_with_footer = format!("{TABLE_B}\nFooter:\n  Imports:\n  - Path: db/re/item_db_etc.yml\n");
    let merged = merge_tables(&with_footer, &b_with_footer).expect("merges");
    assert_eq!(merged.matches("Footer:").count(), 1, "{merged}");
    assert_eq!(merged.matches("item_db_etc.yml").count(), 1, "{merged}");
    assert!(merged.find("Mod_B_Potion") < merged.find("Footer:"), "{merged}");
    assert!(merged.trim_end().ends_with("item_db_etc.yml"), "{merged}");
}

#[test]
fn two_different_kinds_of_table_do_not_merge() {
    let other = TABLE_B.replace("ITEM_DB", "MOB_DB");
    assert!(merge_tables(TABLE_A, &other).is_none());
}

#[test]
fn a_file_with_no_entries_to_add_is_left_alone() {
    let stub = "Header:\n  Type: ITEM_DB\n  Version: 3\n";
    assert_eq!(merge_tables(TABLE_A, stub).as_deref(), None);
    assert!(merge_tables(stub, TABLE_B).is_none());
    assert!(merge_tables("map_index contents", TABLE_B).is_none());
}

#[test]
fn only_a_bare_body_line_starts_the_entries() {
    let tricky = "Header:\n  Type: ITEM_DB\n#   Body:                  the entry list\nBody:\n  - Id: 1\n";
    let (_, after) = section(tricky, "Body:").expect("the real one is found");
    assert_eq!(&tricky[after..], "  - Id: 1\n");
    assert_eq!(header_type(tricky).as_deref(), Some("ITEM_DB"));
}

#[test]
fn crlf_tables_merge_too() {
    let a = TABLE_A.replace('\n', "\r\n");
    let b = TABLE_B.replace('\n', "\r\n");
    let merged = merge_tables(&a, &b).expect("merges");
    assert!(merged.contains("Mod_A_Potion") && merged.contains("Mod_B_Potion"), "{merged}");
    assert_eq!(merged.matches("Type: ITEM_DB").count(), 1, "{merged}");
}

#[test]
fn a_merged_table_keeps_the_first_header_and_appends_the_second_body() {
    let merged = merge_tables(TABLE_A, TABLE_B).unwrap();
    assert_eq!(
        merged,
        format!("{TABLE_A}  - Id: 30001\n    AegisName: Mod_B_Potion\n")
    );
}

#[test]
fn a_clear_is_added_under_the_type_line_once() {
    let cleared = add_header_clear(TABLE_B).unwrap();
    assert!(header_clears(&cleared), "{cleared}");
    assert_eq!(cleared.matches("Clear: true").count(), 1, "{cleared}");
    assert_eq!(header_type(&cleared).as_deref(), Some("ITEM_DB"));
    assert!(add_header_clear("no header here").is_none());
}

#[test]
fn a_header_without_a_type_names_nothing() {
    assert_eq!(header_type("Header:\n  Version: 3\nBody:\n"), None);
    assert_eq!(header_type("Body:\n  - Id: 1\n"), None);
    assert!(!header_clears("Header:\n  Type: ITEM_DB\n  Clear: false\n"));
}

#[test]
fn a_table_without_a_body_line_takes_nothing_even_when_nothing_is_offered() {
    let stub = "Header:\n  Type: ITEM_DB\n  Version: 3\n";
    let blank = "Header:\n  Type: ITEM_DB\n  Version: 3\n\nBody:\n\n";
    assert_eq!(merge_tables(stub, blank), None);
    assert_eq!(merge_tables(blank, stub), None);
    assert_eq!(merge_tables(TABLE_A, blank).as_deref(), Some(TABLE_A));
}
