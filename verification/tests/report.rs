use ragnarok_stack::report::{
    describe, expand_type_name, group_problems, load_report, one_line, parse_table_results, plain_text,
    read_pairs, report_json, result_problems, write_pairs, TableResult,
};

const REAL_LOG: &str = "\x1b[1;32m[Status]\x1b[0m:\x1b[K Loading '\x1b[1;37mdb/import/skill_db.yml\x1b[0m'...\x1b[K\x1b[1;32m[Status]\x1b[0m:\x1b[K Loading '\x1b[1;37m1\x1b[0m' entries in '\x1b[1;37mdb/import/skill_db.yml\x1b[0m'\n\x1b[K\x1b[1;31m[Error]\x1b[0m:\x1b[K Node \"Id\" cannot be parsed as t.\n\x1b[1;31m[Error]\x1b[0m:\x1b[K Occurred in file '\x1b[1;37mdb/import/skill_db.yml\x1b[0m' on line 5 and column 4.\n\x1b[1;32m[Status]\x1b[0m:\x1b[K Done reading '\x1b[1;37m0\x1b[0m' entries in '\x1b[1;37mdb/import/skill_db.yml\x1b[0m'\x1b[K\n";

#[test]
fn a_rejected_table_is_read_out_of_the_server_log() {
    let results = parse_table_results(REAL_LOG);
    assert_eq!(results.len(), 1);
    let only = &results[0];
    assert_eq!(only.file, "skill_db.yml");
    assert_eq!(only.offered, 1);
    assert_eq!(only.accepted, 0);
    assert_eq!(
        only.errors,
        vec![
            "Node \"Id\" cannot be parsed as t.".to_string(),
            "Occurred in file 'db/import/skill_db.yml' on line 5 and column 4.".to_string(),
        ]
    );
    assert_eq!(
        describe(only),
        "db/skill_db.yml: 1 entry offered, 0 kept. Node \"Id\" cannot be parsed as t. \
         (t is a whole number) Occurred in file 'db/import/skill_db.yml' on line 5 and column 4."
    );
}

#[test]
fn a_mangled_type_name_is_expanded_and_anything_else_left_alone() {
    assert_eq!(
        expand_type_name("Node \"Id\" cannot be parsed as t."),
        Some("t is a whole number".to_string())
    );
    assert_eq!(
        expand_type_name("Node \"Flag\" cannot be parsed as b."),
        Some("b is true or false".to_string())
    );
    assert_eq!(expand_type_name("cannot be parsed as unsigned short."), None);
    assert_eq!(expand_type_name("Some other complaint entirely."), None);
}

#[test]
fn a_table_that_loaded_says_nothing() {
    let log = "[Status]: Loading '3' entries in 'db/import/mob_db.yml'\n\
               [Status]: Done reading '3' entries in 'db/import/mob_db.yml'\n";
    let results = parse_table_results(log);
    assert_eq!(results.len(), 1);
    assert_eq!(results[0].accepted, 3);
    assert!(results[0].errors.is_empty());
}

#[test]
fn one_bad_table_does_not_implicate_the_next() {
    let log = "[Status]: Loading '2' entries in 'db/import/item_db.yml'\n\
               [Error]: Node \"Id\" cannot be parsed as t.\n\
               [Status]: Done reading '1' entries in 'db/import/item_db.yml'\n\
               [Status]: Loading '5' entries in 'db/import/mob_db.yml'\n\
               [Status]: Done reading '5' entries in 'db/import/mob_db.yml'\n";
    let results = parse_table_results(log);
    assert_eq!(results.len(), 2);
    assert_eq!(results[0].file, "item_db.yml");
    assert_eq!(results[0].errors.len(), 1);
    assert_eq!(results[1].file, "mob_db.yml");
    assert!(results[1].errors.is_empty());
}

#[test]
fn missing_import_stubs_are_not_a_mods_problem() {
    let log = "[Status]: Loading 'db/import/instance_db.yml'...\
               [Error]: Failed to open INSTANCE_DB database file from 'db/import/instance_db.yml'.\n";
    assert!(parse_table_results(log).is_empty());
}

#[test]
fn the_servers_own_tables_are_ignored() {
    let log = "[Status]: Loading '1635' entries in 'db/re/skill_db.yml'\n\
               [Status]: Done reading '1635' entries in 'db/re/skill_db.yml'\n";
    assert!(parse_table_results(log).is_empty());
}

#[test]
fn escape_codes_are_taken_out_of_a_log_line() {
    assert_eq!(plain_text("\x1b[1;31m[Error]\x1b[0m:\x1b[K gone"), "[Error]: gone");
    assert_eq!(plain_text("nothing to remove"), "nothing to remove");
}

#[test]
fn a_message_is_put_on_one_line() {
    assert_eq!(one_line("a\nb\r\nc"), "a b  c");
}

#[test]
fn a_table_that_kept_everything_is_described_plainly() {
    let r = TableResult { file: "mob_db.yml".to_string(), offered: 2, accepted: 2, errors: vec![] };
    assert_eq!(describe(&r), "db/mob_db.yml: 2 entries offered, 2 kept.");
}

#[test]
fn key_value_pairs_round_trip_through_their_file() {
    let pairs = vec![
        ("mod-a".to_string(), "db/item_db.yml is also supplied by mod-b".to_string()),
        ("mod-b".to_string(), "second".to_string()),
    ];
    let body = write_pairs(&pairs);
    assert_eq!(body, "mod-a\tdb/item_db.yml is also supplied by mod-b\nmod-b\tsecond\n");
    assert_eq!(read_pairs(&body), pairs);
    let flattened = write_pairs(&[("m".to_string(), "a\tb".to_string())]);
    assert_eq!(read_pairs(&flattened), vec![("m".to_string(), "a b".to_string())]);
}

#[test]
fn a_problem_is_reported_against_the_mod_that_owns_the_table() {
    let owners = vec![("skill_db.yml".to_string(), "no-seed-cost".to_string())];
    let results = parse_table_results(REAL_LOG);
    let problems = result_problems(&owners, &results);
    assert_eq!(problems.len(), 1);
    assert_eq!(problems[0].0, "no-seed-cost");
    assert!(problems[0].1.starts_with("db/skill_db.yml: 1 entry offered, 0 kept."));
    let grouped = group_problems(&problems);
    assert_eq!(grouped.len(), 1);
    let json = report_json(&grouped);
    assert!(json.starts_with("{\"no-seed-cost\":[\"db/skill_db.yml: 1 entry offered"), "{json}");
}

#[test]
fn a_clean_start_writes_no_report() {
    let owners = vec![("mob_db.yml".to_string(), "harder-porings".to_string())];
    let log = "[Status]: Loading '3' entries in 'db/import/mob_db.yml'\n\
               [Status]: Done reading '3' entries in 'db/import/mob_db.yml'\n";
    let results = parse_table_results(log);
    assert_eq!(load_report(&[], &[], &results), None);
    assert_eq!(load_report(&owners, &[], &results).as_deref(), Some("{}"));
    let clashes = vec![("mod-a".to_string(), "db/item_db.yml is also supplied by mod-b".to_string())];
    assert_eq!(
        load_report(&owners, &clashes, &results).as_deref(),
        Some("{\"mod-a\":[\"db/item_db.yml is also supplied by mod-b\"]}")
    );
}
