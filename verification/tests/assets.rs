use ragnarok_stack::assets::{
    apply_aliases, base_item_tables, client_config, client_path, client_roots, data_ini, era_tag, fnv, game_text,
    insert_before_close, is_item_table, item_table_file, plugin_pars, safe_mod_name, skips_client_table, GameText,
};
use ragnarok_stack::json::Json;

const TEMPLATE: &str = "window.ROConfigLocal = {\n\tskipIntro: true\n};\n";

#[test]
fn aliases_expand_to_the_client_s_own_names() {
    assert_eq!(
        apply_aliases("texture/ui/login/bg.bmp"),
        "texture/\u{c0}\u{af}\u{c0}\u{fa}\u{c0}\u{ce}\u{c5}\u{cd}\u{c6}\u{e4}\u{c0}\u{cc}\u{bd}\u{ba}/login/bg.bmp"
    );
    assert!(apply_aliases("sprite/human/body/x.spr").ends_with("/\u{b8}\u{f6}\u{c5}\u{eb}/x.spr"));
}

#[test]
fn aliases_match_on_segment_boundaries_only() {
    assert_eq!(apply_aliases("sprite/monsters/x.spr"), "sprite/monsters/x.spr");
    assert_eq!(apply_aliases("texture/uix/y.bmp"), "texture/uix/y.bmp");
    assert_eq!(apply_aliases("texture/effect/z.bmp"), "texture/effect/z.bmp");
}

#[test]
fn palettes_and_korean_names_land_on_the_client_s_path() {
    assert_eq!(client_path("palette/body/rogue.pal"), "palette/\u{b8}\u{f6}/rogue.pal");
    assert_eq!(
        client_path("palette/body/로그_여_4.pal"),
        "palette/\u{b8}\u{f6}/\u{b7}\u{ce}\u{b1}\u{d7}_\u{bf}\u{a9}_4.pal"
    );
    assert_eq!(
        client_path("palette/hair/머리1_여_9.pal"),
        "palette/\u{b8}\u{d3}\u{b8}\u{ae}/\u{b8}\u{d3}\u{b8}\u{ae}1_\u{bf}\u{a9}_9.pal"
    );
    assert_eq!(
        client_path("palette/doram/hair/x.pal"),
        "palette/\u{b5}\u{b5}\u{b6}\u{f7}\u{c1}\u{b7}/\u{b8}\u{d3}\u{b8}\u{ae}/x.pal"
    );
    assert_eq!(client_path("palette/몸/x.pal"), client_path("palette/body/x.pal"));
    assert_eq!(client_path("palette/\u{b8}\u{f6}/x.pal"), "palette/\u{b8}\u{f6}/x.pal");
}

#[test]
fn a_korean_syllable_becomes_its_two_cp949_bytes() {
    assert_eq!(client_path("몸"), "\u{b8}\u{f6}");
    assert_eq!(client_path("plain.txt"), "plain.txt");
}

#[test]
fn two_inserted_blocks_do_not_double_the_comma() {
    let base = TEMPLATE.to_string();
    let one = insert_before_close(base, "\tcustomItemInfo: ['a'],\n");
    let two = insert_before_close(one, "\tplugins: {\n\t\t'p': 'x'\n\t},\n");
    assert!(!two.contains(",,"), "{two}");
    assert!(two.contains("skipIntro: true,"), "{two}");
    assert!(two.contains("customItemInfo: ['a'],"), "{two}");
    assert!(two.contains("plugins: {"), "{two}");
    assert!(two.trim_end().ends_with("};"), "{two}");
}

#[test]
fn the_client_config_hands_each_plugin_its_own_settings() {
    let plugins = vec![
        ("wasd-movement".to_string(), "\"show_controls_button\": false".to_string()),
        ("plain".to_string(), String::new()),
    ];
    let body = client_config(TEMPLATE, false, GameText::English, &plugins, &[], &[]);
    assert!(
        body.contains("'wasd-movement': { path: 'plugins/wasd-movement/index', pars: { \"show_controls_button\": false } }"),
        "{body}"
    );
    assert!(body.contains("'plain': { path: 'plugins/plain/index', pars: {  } }"), "{body}");
    assert!(body.trim_end().ends_with("};"), "{body}");
}

#[test]
fn item_tables_are_listed_later_mod_first_and_base_last() {
    let base = base_item_tables(&["itemInfo_true.lub".to_string(), "itemInfo.lua".to_string()]);
    assert_eq!(base, vec!["System/itemInfo.lua", "System/itemInfo_true.lub"]);
    let tables = vec!["itemInfo-a.lua".to_string(), "itemInfo-b.lua".to_string()];
    let body = client_config(TEMPLATE, false, GameText::English, &[], &tables, &base);
    assert!(
        body.contains("customItemInfo: ['System/itemInfo-b.lua', 'System/itemInfo-a.lua', 'System/itemInfo.lua', 'System/itemInfo_true.lub'],"),
        "{body}"
    );
}

#[test]
fn with_no_base_table_the_client_s_defaults_are_named() {
    assert_eq!(base_item_tables(&[]), vec!["System/itemInfo.lub", "System/itemInfo.lua"]);
}

#[test]
fn the_era_and_the_codepage_follow_the_settings() {
    let template = "window.ROConfigLocal = {\nrenewal: true,\nlangtype: 0,\n};\n";
    assert_eq!(
        client_config(template, true, GameText::ClientWestern, &[], &[], &[]),
        "window.ROConfigLocal = {\nrenewal: false,\nlangtype: 12,\n};\n"
    );
    assert!(client_config(template, false, GameText::ClientTaiwan, &[], &[], &[]).contains("langtype: 4,"));
    assert!(client_config(template, false, GameText::ClientKorean, &[], &[], &[]).contains("langtype: 0,"));
    assert_eq!(client_config(template, false, GameText::English, &[], &[], &[]), template);
}

#[test]
fn the_game_text_setting_is_read_and_a_stray_value_refused() {
    let with = |v: &str| Json::Object(vec![("game_text".to_string(), Json::Str(v.to_string()))]);
    assert_eq!(game_text(Some(&Json::Object(vec![]))).unwrap(), GameText::English);
    assert_eq!(game_text(Some(&with("client_western"))).unwrap(), GameText::ClientWestern);
    assert_eq!(game_text(Some(&with("client_korean"))).unwrap(), GameText::ClientKorean);
    assert_eq!(game_text(Some(&with("client_taiwan"))).unwrap(), GameText::ClientTaiwan);
    assert!(game_text(Some(&with("portuguese"))).unwrap_err().contains("portuguese"));
    assert!(game_text(None).is_err());
    assert!(GameText::English.translated());
    assert!(!GameText::ClientKorean.translated());
    assert_eq!(GameText::ClientWestern.as_str(), "client_western");
}

#[test]
fn item_tables_are_recognised_in_any_case() {
    assert!(is_item_table("itemInfo.lua"));
    assert!(is_item_table("ITEMINFO_C.LUB"));
    assert!(is_item_table("iteminfo_true.lub"));
    assert!(!is_item_table("OngoingQuests.lub"));
    assert!(!is_item_table("itemInfo.txt"));
}

#[test]
fn the_item_table_filename_is_sanitised() {
    assert_eq!(safe_mod_name("../evil name"), "---evil-name");
    assert_eq!(item_table_file(&safe_mod_name("../evil name"), 0), "itemInfo----evil-name.lua");
}

#[test]
fn every_item_table_in_a_mod_is_kept() {
    assert_eq!(item_table_file("m", 0), "itemInfo-m.lua");
    assert_eq!(item_table_file("m", 1), "itemInfo-m.2.lua");
    assert_eq!(item_table_file("my-mod", 2), "itemInfo-my-mod.3.lua");
}

#[test]
fn only_the_roots_the_client_reads_count() {
    let dirs: Vec<String> = ["db", "data", "npc", "BGM", "System", "conf", "client"].iter().map(|s| s.to_string()).collect();
    assert_eq!(client_roots(&dirs), vec!["data", "BGM", "System", "client"]);
}

#[test]
fn the_translation_keeps_the_client_s_own_tables_out() {
    assert!(skips_client_table(true, "itemInfo.lub"));
    assert!(skips_client_table(true, "OngoingQuestInfoList_True.lub"));
    assert!(!skips_client_table(true, "font.ttf"));
    assert!(!skips_client_table(false, "itemInfo.lub"));
}

#[test]
fn the_archive_list_is_numbered_in_search_order() {
    let archives = vec!["rdata.grf".to_string(), "data.grf".to_string()];
    assert_eq!(data_ini(&archives), "[Data]\n0=rdata.grf\n1=data.grf\n");
}

#[test]
fn plugin_parameters_are_quoted_keys_and_raw_values() {
    let pars = vec![("a".to_string(), "1".to_string()), ("b\"c".to_string(), "true".to_string())];
    assert_eq!(plugin_pars(&pars), "\"a\": 1, \"b\\\"c\": true");
    assert_eq!(plugin_pars(&[]), "");
}

#[test]
fn the_era_is_tagged_for_the_server() {
    assert_eq!(era_tag(true), "pre-re");
    assert_eq!(era_tag(false), "re");
}

#[test]
fn the_fingerprint_is_fnv_1a() {
    let mut h: u64 = 0xcbf29ce484222325;
    fnv(&mut h, b"a");
    assert_eq!(h, 0xaf63dc4c8601ec8c);
    let mut same = 0xcbf29ce484222325u64;
    fnv(&mut same, b"a");
    assert_eq!(h, same);
    fnv(&mut h, b"b");
    assert_ne!(h, same);
}
