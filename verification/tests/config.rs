use ragnarok_stack::config::{default_state, join_path, report_path, settings_path, Config, Surroundings};

#[test]
fn an_installed_runtime_finds_the_app_s_own_state() {
    let data = "/data/Ragnarok Offline";
    assert_eq!(
        default_state(&join_path(data, "runtime"), data, None),
        join_path(data, "state"),
    );
    assert_eq!(default_state("/data/Ragnarok Offline/runtime", data, None), "/data/Ragnarok Offline/state");
}

#[test]
fn any_other_tree_keeps_its_own_state_directory() {
    let data = "/data/Ragnarok Offline";
    for root in ["/src/ragnarokmac", "/data/Ragnarok Offline/runtime/bin", "/data/Ragnarok Offline"] {
        assert_eq!(default_state(root, data, None), join_path(root, ".ragnarokmac"));
    }
}

#[test]
fn a_canonical_comparison_overrides_the_spelling() {
    let data = "/Users/me/Ragnarok";
    assert_eq!(default_state("/System/Volumes/Data/Users/me/Ragnarok/runtime", data, Some(true)), "/Users/me/Ragnarok/state");
    assert_eq!(default_state("/Users/me/Ragnarok/runtime", data, Some(false)), "/Users/me/Ragnarok/runtime/.ragnarokmac");
}

fn surroundings(docker: Option<&str>) -> Surroundings {
    Surroundings {
        state_override: None,
        data_root: "/data/Ragnarok Offline".to_string(),
        same_as_installed: None,
        nebula_home_override: None,
        nebula_bin: None,
        docker: docker.map(|d| d.to_string()),
        image_override: None,
        db_image_override: None,
        app_version: Some("1.0.6".to_string()),
        exe_suffix: String::new(),
    }
}

#[test]
fn a_configuration_needs_a_docker_client_and_assets_do_not() {
    assert!(Config::load("/src/ragnarokmac".to_string(), surroundings(None)).is_err());
    let assets = Config::load_for_assets("/src/ragnarokmac".to_string(), surroundings(None)).unwrap();
    assert_eq!(assets.state, "/src/ragnarokmac/.ragnarokmac");
    assert_eq!(assets.image, "ragnarokmac/rathena:20221005");
    assert_eq!(assets.db_image, "ragnarokmac/mariadb:11.4");
    assert_eq!(assets.nebula_home, "/data/Ragnarok Offline/nebula");
    let cfg = Config::load("/src/ragnarokmac".to_string(), surroundings(Some("/usr/bin/docker"))).unwrap();
    assert_eq!(cfg.docker, "/usr/bin/docker");
    assert_eq!(cfg.lock_dir(), "/src/ragnarokmac/.ragnarokmac/.stack.lock");
}

#[test]
fn the_state_files_sit_in_the_state_directory() {
    assert_eq!(settings_path("/s"), "/s/mod-settings.json");
    assert_eq!(report_path("/s/"), "/s/mod-load-report.json");
}

#[test]
fn the_installed_runtime_is_recognised_however_its_path_is_spelled() {
    let data = "/data/Ragnarok Offline";
    for root in [
        "/data/Ragnarok Offline/runtime/",
        "/data//Ragnarok Offline/runtime",
        "/data/./Ragnarok Offline/runtime/.",
    ] {
        assert_eq!(default_state(root, data, None), "/data/Ragnarok Offline/state", "{root}");
    }
    assert_eq!(
        default_state("data/Ragnarok Offline/runtime", data, None),
        "data/Ragnarok Offline/runtime/.ragnarokmac"
    );
}
