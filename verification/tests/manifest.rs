use ragnarok_stack::json::Json;
use ragnarok_stack::manifest::{era_fits, era_requirement_met, manifest_from, name_list};
use ragnarok_stack::versions::{app_requirement_met, compare_versions};
use std::cmp::Ordering;

fn s(t: &str) -> Json {
    Json::Str(t.to_string())
}

fn obj(members: Vec<(&str, Json)>) -> Json {
    Json::Object(members.into_iter().map(|(k, v)| (k.to_string(), v)).collect())
}

#[test]
fn a_dependency_list_only_accepts_mod_names() {
    let good = obj(vec![("after", Json::Array(vec![s("a-mod"), s("b_mod2")]))]);
    assert_eq!(name_list(&good, "after", None).unwrap(), vec!["a-mod", "b_mod2"]);
    let twice = obj(vec![("after", Json::Array(vec![s("a"), s("a")]))]);
    assert_eq!(name_list(&twice, "after", None).unwrap(), vec!["a"]);
    let bad = [
        obj(vec![("after", s("a"))]),
        obj(vec![("after", Json::Array(vec![Json::Number("1".to_string())]))]),
        obj(vec![("after", Json::Array(vec![s("../escape")]))]),
        obj(vec![("after", Json::Array(vec![s("")]))]),
        obj(vec![("after", Json::Array(vec![s("has space")]))]),
    ];
    for value in &bad {
        assert!(name_list(value, "after", None).is_err(), "{value:?} must be refused");
    }
    let absent = obj(vec![]);
    assert!(name_list(&absent, "after", None).unwrap().is_empty());
}

#[test]
fn a_refused_name_is_quoted_in_the_message() {
    let value = obj(vec![("mods", Json::Array(vec![s("has space")]))]);
    let e = name_list(&value, "mods", Some("requires.")).unwrap_err();
    assert_eq!(
        e,
        "mod.json: \"has space\" in \"requires.mods\" is not a mod name -- letters, digits, - and _, up to 64"
    );
    let e = name_list(&obj(vec![("after", s("a"))]), "after", None).unwrap_err();
    assert_eq!(e, "mod.json: \"after\" must be an array of mod names");
}

#[test]
fn version_rules() {
    assert!(app_requirement_met(">=1.0.6", Some("1.0.6")).is_ok());
    assert!(app_requirement_met(">=1.0.6", Some("1.1.0")).is_ok());
    assert!(app_requirement_met("1.0.6", Some("1.0.5")).is_err());
    assert!(app_requirement_met(">1.0.6", Some("1.0.6")).is_err());
    assert!(app_requirement_met("=1.0.6", Some("1.0.6")).is_ok());
    assert!(app_requirement_met("=1.0.6", Some("1.0.7")).is_err());
    assert!(app_requirement_met(">=1.1", Some("1.1.0")).is_ok());
    assert!(app_requirement_met(">=1.10", Some("1.9.9")).is_err());
    assert!(app_requirement_met(">=1.0.6", Some("1.0.6-beta.2")).is_ok());
    assert!(app_requirement_met("latest", Some("1.0.6")).is_err());
    assert!(app_requirement_met(">=99.0.0", None).is_ok());
}

#[test]
fn a_refusal_says_what_it_wanted_and_what_it_got() {
    let e = app_requirement_met(">=1.0.6", Some("1.0.5")).unwrap_err();
    assert!(e.contains("1.0.6") && e.contains("1.0.5"), "{e}");
}

#[test]
fn versions_compare_part_by_part() {
    assert_eq!(compare_versions("1.10", "1.9.9"), Ordering::Greater);
    assert_eq!(compare_versions("1.1", "1.1.0"), Ordering::Equal);
    assert_eq!(compare_versions("1.0.5", "1.0.6"), Ordering::Less);
    assert_eq!(compare_versions("1.0.6-beta.2", "1.0.6"), Ordering::Equal);
}

#[test]
fn era_rules() {
    assert!(era_requirement_met("any", true).is_ok());
    assert!(era_requirement_met("renewal", false).is_ok());
    assert!(era_requirement_met("renewal", true).is_err());
    assert!(era_requirement_met("pre-renewal", true).is_ok());
    assert!(era_requirement_met("Pre_Renewal", true).is_ok());
    assert!(era_requirement_met("classic", true).is_err());
}

#[test]
fn an_era_refusal_names_both_eras() {
    let e = era_fits("pre-renewal", false).unwrap_err();
    assert!(e.contains("pre-renewal") && e.contains("renewal"), "{e}");
    assert!(era_fits("renewal", false).is_ok());
}

#[test]
fn a_manifest_with_a_quote_in_the_description_reads_back_whole() {
    let v = obj(vec![("description", s("adds a \"boss\" to prontera"))]);
    let m = manifest_from(&v, None).unwrap();
    assert_eq!(m.description, "adds a \"boss\" to prontera");
    assert!(m.default_on);
    assert!(m.after.is_empty() && m.requires_mods.is_empty());
}

#[test]
fn an_unknown_requires_key_is_refused() {
    let v = obj(vec![("requires", obj(vec![("apps", s(">=1.0.0"))]))]);
    let e = manifest_from(&v, None).unwrap_err();
    assert!(e.contains("apps"), "{e}");
}

#[test]
fn a_mod_can_require_another_mod() {
    let v = obj(vec![(
        "requires",
        obj(vec![("app", s(">=1.0.0")), ("mods", Json::Array(vec![s("base-mod")]))]),
    )]);
    let m = manifest_from(&v, None).unwrap();
    assert_eq!(m.requires_mods, vec!["base-mod"]);
    assert_eq!(m.requires_app.as_deref(), Some(">=1.0.0"));
}

#[test]
fn a_manifest_is_refused_for_what_it_gets_wrong() {
    assert!(manifest_from(&Json::Array(vec![]), None).is_err());
    let e = manifest_from(&obj(vec![("default", s("maybe"))]), None).unwrap_err();
    assert_eq!(e, "mod.json: \"default\" is \"on\" or \"off\", not \"maybe\"");
    let m = manifest_from(&obj(vec![("default", s("off"))]), None).unwrap();
    assert!(!m.default_on);
    let selfish = obj(vec![
        ("name", s("me")),
        ("requires", obj(vec![("mods", Json::Array(vec![s("me")]))])),
    ]);
    assert_eq!(manifest_from(&selfish, None).unwrap_err(), "mod.json: a mod cannot require itself");
    let e = manifest_from(&obj(vec![]), Some("mod.json: bad setting".to_string())).unwrap_err();
    assert_eq!(e, "mod.json: bad setting");
}

#[test]
fn comparing_versions_is_consistent_both_ways_round() {
    for (a, b) in [("1.0.6", "1.0.7"), ("1.10", "1.9.9"), ("2", "2.0.0"), ("1.0.6-beta", "1.0.6")] {
        assert_eq!(compare_versions(a, b), compare_versions(b, a).reverse());
        assert_eq!(compare_versions(a, a), Ordering::Equal);
    }
}

#[test]
fn a_repeated_dependency_is_listed_once() {
    let v = obj(vec![("after", Json::Array(vec![s("b"), s("a"), s("b"), s("a")]))]);
    assert_eq!(name_list(&v, "after", None).unwrap(), vec!["b", "a"]);
}
