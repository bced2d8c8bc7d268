use ragnarok_stack::manifest::Manifest;
use ragnarok_stack::mods::{arrival, Arrival};
use ragnarok_stack::tables::merge_in_order;
use ragnarok_stack::mods::{
    clash_message, directive_lines, enabled, fits_map_name, judge, list, list_row, mod_folders, plan, read_list, set_enabled,
    settle_requirements, write_list, Assembled, Installed, Listing, Status,
};

fn manifest() -> Manifest {
    Manifest::default()
}

fn on(name: &str, m: Manifest) -> Installed {
    judge(name.to_string(), format!("/mods/{name}"), false, Ok(Some(m)), Some("1.0.6"), false, &[], &[])
}

#[test]
fn a_mod_is_on_unless_it_says_otherwise_or_the_player_did() {
    let m = judge("a".to_string(), "/mods/a".to_string(), false, Ok(None), None, false, &[], &[]);
    assert_eq!(m.status, Status::On);
    let mut shy = manifest();
    shy.default_on = false;
    let m = judge("a".to_string(), "/mods/a".to_string(), true, Ok(Some(shy.clone())), None, false, &[], &[]);
    assert_eq!(m.status, Status::Off);
    let m = judge("a".to_string(), "/mods/a".to_string(), true, Ok(Some(shy)), None, false, &[], &["a".to_string()]);
    assert_eq!(m.status, Status::On);
    let m = judge("a".to_string(), "/mods/a".to_string(), false, Ok(None), None, false, &["a".to_string()], &["a".to_string()]);
    assert_eq!(m.status, Status::Off);
}

#[test]
fn a_broken_manifest_or_an_unmet_rule_refuses_the_mod() {
    let m = judge("a".to_string(), "/mods/a".to_string(), false, Err("mod.json is not valid JSON".to_string()), None, false, &[], &[]);
    assert_eq!(m.status, Status::Refused("mod.json is not valid JSON".to_string()));
    let mut newer = manifest();
    newer.requires_app = Some(">=2.0.0".to_string());
    let m = on("a", newer);
    assert!(matches!(m.status, Status::Refused(ref r) if r.contains("2.0.0") && r.contains("1.0.6")), "{:?}", m.status);
    let mut classic = manifest();
    classic.requires_era = Some("pre-renewal".to_string());
    assert!(matches!(on("a", classic).status, Status::Refused(_)));
}

#[test]
fn a_mod_missing_what_it_requires_is_refused() {
    let mut needs = manifest();
    needs.requires_mods = vec!["base-mod".to_string(), "off-mod".to_string()];
    let mut off = on("off-mod", manifest());
    off.status = Status::Off;
    let mut mods = vec![on("needy", needs), off, on("other", manifest())];
    settle_requirements(&mut mods);
    match &mods[0].status {
        Status::Refused(r) => {
            assert!(r.contains("base-mod is not installed"), "{r}");
            assert!(r.contains("off-mod is installed but switched off"), "{r}");
        }
        s => panic!("{s:?}"),
    }
    assert_eq!(mods[1].status, Status::Off);
    assert_eq!(mods[2].status, Status::On);
}

#[test]
fn a_requirement_that_is_on_is_met() {
    let mut needs = manifest();
    needs.requires_mods = vec!["base-mod".to_string()];
    let mut mods = vec![on("needy", needs), on("base-mod", manifest())];
    settle_requirements(&mut mods);
    assert_eq!(mods[0].status, Status::On);
}

#[test]
fn a_mod_whose_requirement_is_refused_is_refused_too() {
    let mut needs_b = manifest();
    needs_b.requires_mods = vec!["b".to_string()];
    let mut needs_c = manifest();
    needs_c.requires_mods = vec!["c".to_string()];
    let mut mods = vec![on("a", needs_b), on("b", needs_c), on("other", manifest())];
    settle_requirements(&mut mods);
    assert_eq!(mods[1].status, Status::Refused("needs c is not installed".to_string()));
    assert_eq!(mods[0].status, Status::Refused("needs b is installed but switched off".to_string()));
    assert_eq!(mods[2].status, Status::On);
}

#[test]
fn the_plan_orders_what_is_on_and_names_what_was_refused() {
    let mut after = manifest();
    after.after = vec!["zebra".to_string()];
    let mut off = on("middle", manifest());
    off.status = Status::Off;
    let refused = judge("bad".to_string(), "/mods/bad".to_string(), false, Err("broken".to_string()), None, false, &[], &[]);
    let mods = vec![on("alpha", after), on("zebra", manifest()), off, refused];
    let (names, refusals) = plan(&mods);
    assert_eq!(names, vec!["zebra", "alpha"]);
    assert_eq!(refusals, vec![("bad".to_string(), "broken".to_string())]);
}

#[test]
fn a_ring_of_mods_is_refused_and_the_rest_still_apply() {
    let mut a = manifest();
    a.after = vec!["b".to_string()];
    let mut b = manifest();
    b.after = vec!["a".to_string()];
    let mods = vec![on("a", a), on("b", b), on("c", manifest())];
    let (names, refusals) = plan(&mods);
    assert!(names.contains(&"c".to_string()), "{names:?}");
    assert!(!refusals.is_empty());
    for (name, _) in &refusals {
        assert!(name == "a" || name == "b", "{refusals:?}");
        assert!(!names.contains(name), "{names:?}");
    }
}

#[test]
fn the_list_shows_one_flattened_row_per_mod() {
    let mut m = manifest();
    m.description = "two\nlines".to_string();
    m.version = "1.2".to_string();
    let listing = Listing {
        installed: on("a", m),
        grants: true,
        settings: "[]".to_string(),
        reported: Some(vec!["db/x.yml: 1 entry offered, 0 kept.".to_string()]),
    };
    let row = list_row(&listing);
    assert_eq!(row[0], "on");
    assert_eq!(row[1], "a");
    assert_eq!(row[2], "two lines");
    assert_eq!(row[3], "");
    assert_eq!(row[4], "installed");
    assert_eq!(row[5], "1.2");
    assert_eq!(row[7], "grants-commands");
    assert_eq!(row[8], "[]");
    assert_eq!(row[9], "[\"db/x.yml: 1 entry offered, 0 kept.\"]");
    let rows = list(&vec![listing]);
    assert_eq!(rows.len(), 1);
    assert_eq!(rows[0], row);
}

#[test]
fn a_list_of_choices_skips_comments_and_blanks() {
    assert_eq!(read_list("# header\n\n  alpha  \nbeta\n# gamma\n"), vec!["alpha", "beta"]);
}

#[test]
fn a_list_is_rewritten_sorted_with_the_name_on_or_off_it() {
    let names = vec!["zebra".to_string(), "alpha".to_string()];
    assert_eq!(
        write_list(names.clone(), "middle", true, "# head"),
        "# head\n# Managed from Settings; one name per line.\nalpha\nmiddle\nzebra\n"
    );
    assert_eq!(
        write_list(names, "zebra", false, "# head"),
        "# head\n# Managed from Settings; one name per line.\nalpha\n"
    );
}

#[test]
fn switching_a_mod_on_takes_it_off_the_other_list() {
    let (off, onl) = set_enabled(vec!["a".to_string(), "b".to_string()], vec![], "a", true);
    assert_eq!(read_list(&off), vec!["b"]);
    assert_eq!(read_list(&onl), vec!["a"]);
    let (off, onl) = set_enabled(read_list(&off), read_list(&onl), "a", false);
    assert_eq!(read_list(&off), vec!["a", "b"]);
    assert!(read_list(&onl).is_empty());
}

#[test]
fn directives_name_one_item_per_line() {
    let items = vec!["npc/mods/a/x.txt".to_string(), "npc/mods/a/y.txt".to_string()];
    assert_eq!(directive_lines("npc", &items), "npc: npc/mods/a/x.txt\nnpc: npc/mods/a/y.txt\n");
    assert_eq!(directive_lines("map", &[]), "");
}

#[test]
fn an_unmergeable_collision_names_the_copy_in_effect() {
    assert_eq!(
        clash_message("item_db.yml", "mod-b"),
        "db/item_db.yml is also supplied by mod-b, and the two could not be combined, so only mod-b's copy is in effect."
    );
}

#[test]
fn a_map_name_fits_in_eleven_bytes() {
    assert!(fits_map_name("my_town"));
    assert!(fits_map_name("abcdefghijk"));
    assert!(!fits_map_name("abcdefghijkl"));
}

#[test]
fn nothing_assembled_is_empty() {
    let a = Assembled::empty();
    assert!(a.db.is_none() && a.npc.is_none());
    assert!(a.names.is_empty() && a.refused.is_empty() && a.maps.is_empty() && a.conf.is_empty());
    assert_eq!(a.npc_lines, "");
}

#[test]
fn a_player_s_folder_replaces_the_bundled_one_of_that_name() {
    let bundled = vec!["mobile-ui".to_string(), "player-commands".to_string(), ".hidden".to_string()];
    let user = vec!["zeta".to_string(), "mobile-ui".to_string(), ".git".to_string()];
    assert_eq!(
        mod_folders(&bundled, &user),
        vec![
            ("mobile-ui".to_string(), false),
            ("player-commands".to_string(), true),
            ("zeta".to_string(), false),
        ]
    );
    assert!(mod_folders(&[], &[]).is_empty());
}

#[test]
fn only_the_mods_that_are_on_are_applied() {
    let mut off = on("b", manifest());
    off.status = Status::Off;
    let mods = vec![on("a", manifest()), off, on("c", manifest())];
    let names: Vec<String> = enabled(mods).into_iter().map(|m| m.name).collect();
    assert_eq!(names, vec!["a", "c"]);
}

const ITEMS_A: &str = "Header:\n  Type: ITEM_DB\n  Version: 3\n\nBody:\n  - Id: 30000\n";
const ITEMS_B: &str = "Header:\n  Type: ITEM_DB\n  Version: 3\n\nBody:\n  - Id: 30001\n";

#[test]
fn a_file_nobody_else_supplied_is_copied() {
    assert_eq!(arrival(None, "a", "item_db.yml", None, Some(ITEMS_A)), Arrival::Copied);
    assert_eq!(arrival(Some("a"), "a", "item_db.yml", Some(ITEMS_A), Some(ITEMS_B)), Arrival::Copied);
}

#[test]
fn a_second_copy_of_a_table_is_combined() {
    assert_eq!(
        arrival(Some("a"), "b", "item_db.yml", Some(ITEMS_A), Some(ITEMS_B)),
        Arrival::Merged(format!("{ITEMS_A}  - Id: 30001\n"))
    );
}

#[test]
fn an_unmergeable_collision_is_recorded_against_the_loser() {
    let mob = ITEMS_B.replace("ITEM_DB", "MOB_DB");
    assert_eq!(
        arrival(Some("mod-a"), "mod-b", "item_db.yml", Some(ITEMS_A), Some(&mob)),
        Arrival::Clashed(
            "mod-a".to_string(),
            "db/item_db.yml is also supplied by mod-b, and the two could not be combined, so only mod-b's copy is in effect."
                .to_string()
        )
    );
    assert!(matches!(arrival(Some("mod-a"), "mod-b", "cache.dat", None, Some("x")), Arrival::Clashed(..)));
}

#[test]
fn a_footer_above_the_entries_cannot_be_combined() {
    let upside_down = "Header:\n  Type: ITEM_DB\nFooter:\n  Imports:\nBody:\n  - Id: 1\n";
    assert!(!merge_in_order(ITEMS_A, upside_down));
    assert!(merge_in_order(ITEMS_A, ITEMS_B));
    assert!(merge_in_order(ITEMS_A, &upside_down.replace("ITEM_DB", "MOB_DB")));
}

#[test]
fn no_manifest_is_fine_and_a_broken_one_is_not() {
    let none = judge("none".to_string(), "/mods/none".to_string(), false, Ok(None), None, false, &[], &[]);
    assert_eq!(none.status, Status::On);
    let broken = judge(
        "broken".to_string(),
        "/mods/broken".to_string(),
        false,
        Err("mod.json is not valid JSON -- key must be a string".to_string()),
        None,
        false,
        &[],
        &[],
    );
    assert!(matches!(broken.status, Status::Refused(ref r) if r.starts_with("mod.json is not valid JSON")));
}
