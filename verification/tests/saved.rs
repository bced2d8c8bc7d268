use ragnarok_stack::saved::{put_settings, setting_problem, settings_document, settings_refusal};

fn entry(name: &str, values: &[(&str, &str)]) -> (String, Vec<(String, String)>) {
    (name.to_string(), values.iter().map(|(k, v)| (k.to_string(), v.to_string())).collect())
}

#[test]
fn settings_for_a_mod_that_is_not_there_or_declares_none_are_refused() {
    assert_eq!(settings_refusal("ghost", None).as_deref(), Some("no mod named \"ghost\" is installed"));
    assert_eq!(settings_refusal("plain", Some(0)).as_deref(), Some("plain declares no settings"));
    assert_eq!(settings_refusal("rates", Some(2)), None);
}

#[test]
fn one_mod_s_values_replace_its_entry_or_join_in_name_order() {
    let mut all = vec![entry("alpha", &[("a", "1")]), entry("gamma", &[("g", "true")])];
    put_settings(&mut all, "beta".to_string(), vec![("b".to_string(), "\"x\"".to_string())]);
    let names: Vec<&str> = all.iter().map(|(n, _)| n.as_str()).collect();
    assert_eq!(names, vec!["alpha", "beta", "gamma"]);
    put_settings(&mut all, "alpha".to_string(), vec![]);
    assert_eq!(all[0], entry("alpha", &[]));
    assert_eq!(all.len(), 3);
    put_settings(&mut all, "zeta".to_string(), vec![]);
    assert_eq!(all[3].0, "zeta");
}

#[test]
fn the_document_holds_a_block_per_mod() {
    let all = vec![entry("rates", &[("base", "2"), ("job", "3")]), entry("quiet", &[])];
    assert_eq!(
        settings_document(&all),
        "{\n  \"rates\": {\n    \"base\": 2,\n    \"job\": 3\n  },\n  \"quiet\": {\n\n  }\n}\n"
    );
    assert_eq!(settings_document(&vec![]), "{\n\n}\n");
}

#[test]
fn a_declared_setting_is_checked_key_first() {
    let none: Vec<String> = vec![];
    assert_eq!(setting_problem("show_button", &none, "Show", "", "boolean"), None);
    for bad in ["", "9lives", "has-dash", "é", &"k".repeat(41)] {
        let p = setting_problem(bad, &none, "x", "", "boolean").unwrap();
        assert!(p.contains("must be 1-40 letters, digits or underscores"), "{bad}: {p}");
    }
    assert!(setting_problem(&"k".repeat(40), &none, "x", "", "number").is_none());
    let seen = vec!["speed".to_string()];
    assert_eq!(
        setting_problem("speed", &seen, "x", "", "number").as_deref(),
        Some("mod.json: setting \"speed\" is declared twice")
    );
    assert_eq!(
        setting_problem("speed", &none, &"l".repeat(121), "", "number").as_deref(),
        Some("mod.json: setting \"speed\" has an over-long label or description")
    );
    // Counted in bytes: 60 two-byte letters are 120 bytes, 61 are too many.
    assert!(setting_problem("speed", &none, &"é".repeat(60), "", "number").is_none());
    assert!(setting_problem("speed", &none, &"é".repeat(61), "", "number").is_some());
    assert!(setting_problem("speed", &none, "x", &"d".repeat(401), "number").is_some());
    assert_eq!(
        setting_problem("speed", &none, "x", "", "float").as_deref(),
        Some("mod.json: setting \"speed\" has type \"float\"; use \"boolean\", \"number\" or \"string\"")
    );
}
