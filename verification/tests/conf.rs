use ragnarok_stack::conf::{
    combine_whole_conf, conditional_setting, conf_settings, is_whole_file, map_index_body, stock_npc, Switch,
};

const GROUP_HEADER: &str = "Header:\n  Type: PLAYER_GROUP_DB\n  Version: 1\n\nBody:\n";

#[test]
fn two_mods_command_grants_are_combined_and_the_repeat_is_left_out() {
    let entries = vec![
        ("a".to_string(), format!("{GROUP_HEADER}  - Id: 0\n    Commands:\n      autoloot: true\n      showexp: true\n")),
        ("b".to_string(), format!("{GROUP_HEADER}  - Id: 0\n    Commands:\n      autoloot: true\n      go: true\n")),
        ("c".to_string(), "Header:\n  Type: ATCOMMAND_DB\n  Version: 1\nBody:\n  - Command: go\n".to_string()),
    ];
    let (body, notes) = combine_whole_conf("groups.yml", &entries, &[]);
    let body = body.unwrap();
    assert_eq!(body.matches("autoloot: true").count(), 1, "{body}");
    assert!(body.contains("showexp: true") && body.contains("go: true"), "{body}");
    assert_eq!(notes.len(), 2, "{notes:?}");
    assert!(notes[0].contains("b gives group 0 @autoloot, which a already gives it"), "{}", notes[0]);
    assert!(notes[1].contains("c's conf/groups.yml is not the same kind of table"), "{}", notes[1]);
}

#[test]
fn a_single_conf_file_is_written_as_it_shipped() {
    let body = format!("# mine\n{GROUP_HEADER}  - Id: 0\n    Commands:\n      autoloot: true\n");
    let (out, notes) = combine_whole_conf("groups.yml", &[("a".into(), body.clone())], &[]);
    assert_eq!(out.unwrap(), body);
    assert!(notes.is_empty());
}

#[test]
fn a_grant_spelled_with_an_alias_is_the_same_grant() {
    let atcommands = vec![(
        "m".to_string(),
        "Header:\n  Type: ATCOMMAND_DB\n  Version: 1\nBody:\n  - Command: mapmove\n    Aliases:\n      - warp\n".to_string(),
    )];
    let entries = vec![
        ("a".to_string(), format!("{GROUP_HEADER}  - Id: 0\n    Commands:\n      mapmove: true\n")),
        ("other".to_string(), format!("{GROUP_HEADER}  - Id: 0\n    Commands:\n      warp: true\n")),
    ];
    let (_, notes) = combine_whole_conf("groups.yml", &entries, &atcommands);
    assert_eq!(notes.len(), 1, "{notes:?}");
    assert!(notes[0].contains("@mapmove (as \"warp\")"), "{}", notes[0]);
}

#[test]
fn nothing_to_combine_is_no_file() {
    let (out, notes) = combine_whole_conf("groups.yml", &[], &[]);
    assert!(out.is_none());
    assert!(notes.is_empty());
}

#[test]
fn a_mod_cannot_set_the_addresses_the_client_is_sent_to() {
    let (got, refused) = conf_settings(
        "char_conf.txt",
        "// mine\nstart_point: my_town,50,50\nchar_ip: 10.0.0.1\nlogin_ip: 10.0.0.1\n",
    );
    assert_eq!(got, vec![("start_point".to_string(), "my_town,50,50".to_string())]);
    assert_eq!(refused, vec!["char_ip".to_string(), "login_ip".to_string()]);
}

#[test]
fn only_groups_and_atcommands_are_taken_whole() {
    assert!(is_whole_file("groups.yml"));
    assert!(is_whole_file("atcommands.yml"));
    assert!(!is_whole_file("char_conf.txt"));
}

#[test]
fn a_conditional_fragment_follows_only_a_yes_or_no_setting() {
    let settings = vec![
        ("enabled".to_string(), "true".to_string()),
        ("disabled".to_string(), "false".to_string()),
        ("number".to_string(), "3".to_string()),
    ];
    assert_eq!(conditional_setting(&settings, "enabled"), Switch::On);
    assert_eq!(conditional_setting(&settings, "disabled"), Switch::Off);
    assert_eq!(conditional_setting(&settings, "number"), Switch::NotBoolean);
    assert_eq!(conditional_setting(&settings, "undeclared"), Switch::Undeclared);
}

#[test]
fn a_generated_map_index_keeps_what_the_mod_already_named() {
    let maps = vec!["my_town".to_string(), "my_cave".to_string()];
    let body = map_index_body("// mine\nmy_town\t1250\n", &maps).unwrap();
    assert!(body.contains("my_town\t1250"), "{body}");
    assert_eq!(body.matches("my_town").count(), 1, "{body}");
    assert!(body.contains("\nmy_cave\n"), "{body}");
    assert!(map_index_body("my_town\nmy_cave\n", &maps).is_none());
}

#[test]
fn stock_scripts_are_named_once_and_anything_else_is_refused() {
    let mut out = vec!["npc/re/jobs/a.txt".to_string()];
    let refused = stock_npc("// comment\nnpc/re/jobs/a.txt\nnpc/custom/b.txt\n../escape.txt\n", &mut out);
    assert_eq!(out, vec!["npc/re/jobs/a.txt".to_string(), "npc/custom/b.txt".to_string()]);
    assert_eq!(refused, vec!["../escape.txt".to_string()]);
}

#[test]
fn groups_yml_is_taken_whole_rather_than_key_by_key() {
    let body = "Header:\n  Type: PLAYER_GROUP_DB\n  Version: 1\n\nBody:\n  - Id: 0\n    Commands:\n      autoloot: true\n";
    assert!(is_whole_file("groups.yml"));
    let (kept, _) = conf_settings("groups.yml", body);
    assert!(kept.is_empty(), "it must not also be parsed as settings");
    let (out, notes) = combine_whole_conf("groups.yml", &[("whole".to_string(), body.to_string())], &[]);
    assert_eq!(out.as_deref(), Some(body));
    assert!(notes.is_empty());
    let (kept, _) = conf_settings("char_conf.txt", "start_point: my_town,50,50\n");
    assert_eq!(kept, vec![("start_point".to_string(), "my_town,50,50".to_string())]);
}

#[test]
fn a_grant_rathena_already_makes_is_left_out() {
    let body = format!("{GROUP_HEADER}  - Id: 0\n    Commands:\n      resurrect: true\n      autoloot: true\n");
    let (out, notes) = combine_whole_conf("groups.yml", &[("a".into(), body)], &[]);
    let out = out.unwrap();
    assert!(!out.contains("resurrect"), "{out}");
    assert!(out.contains("autoloot: true"), "{out}");
    assert_eq!(notes.len(), 1, "{notes:?}");
    assert!(notes[0].contains("a gives group 0 @resurrect, which rAthena already gives it"), "{}", notes[0]);
}

#[test]
fn rathena_s_own_aliases_count_without_an_atcommands_file() {
    let entries = vec![
        ("a".to_string(), format!("{GROUP_HEADER}  - Id: 0\n    Commands:\n      mapmove: true\n      accinfo: true\n")),
        ("b".to_string(), format!("{GROUP_HEADER}  - Id: 0\n    Commands:\n      warp: true\n      accountinfo: true\n")),
    ];
    let (_, notes) = combine_whole_conf("groups.yml", &entries, &[]);
    assert_eq!(notes.len(), 2, "{notes:?}");
    assert!(notes[0].contains("@mapmove (as \"warp\")"), "{}", notes[0]);
    assert!(notes[1].contains("@accinfo (as \"accountinfo\")"), "{}", notes[1]);
}
