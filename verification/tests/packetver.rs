use ragnarok_stack::json::Json;
use ragnarok_stack::packetver;
use ragnarok_stack::packetver::{all, chosen, of_binary, suffix};

fn settings(members: Vec<(&str, Json)>) -> Json {
    Json::Object(members.into_iter().map(|(k, v)| (k.to_string(), v)).collect())
}

#[test]
fn the_list_is_well_formed_and_the_default_comes_first() {
    let list = all();
    assert!(!list.is_empty());
    assert_eq!(list[0], packetver::default());
    for v in &list {
        assert!(v.len() == 8 && v.bytes().all(|c| c.is_ascii_digit()), "{v}");
    }
    let mut unique = list.clone();
    unique.sort();
    unique.dedup();
    assert_eq!(unique.len(), list.len(), "a packet version is listed twice");
}

#[test]
fn no_listed_version_is_one_rathena_builds_as_ragexere() {
    for v in all() {
        let n: u32 = v.parse().unwrap();
        let re = (n > 20151104 && n < 20180704) || (20200902..=20211118).contains(&n);
        assert!(!re, "{v} is a RagexeRE date to rAthena");
        assert!(n > 20180307, "{v} needs packet keys roBrowser does not send");
    }
}

#[test]
fn a_binary_name_says_which_build_it_is() {
    assert_eq!(of_binary("/rathena/map-server"), packetver::default());
    assert_eq!(of_binary("/rathena/map-server-prere"), packetver::default());
    for v in all().into_iter().skip(1) {
        assert_eq!(of_binary(&format!("/rathena/map-server-prere{}", suffix(&v))), v);
        assert_eq!(of_binary(&format!("/rathena/login-server{}", suffix(&v))), v);
    }
}

#[test]
fn an_unset_setting_is_the_default_and_the_default_has_no_suffix() {
    assert_eq!(chosen(Some(&settings(vec![]))).unwrap(), packetver::default());
    assert_eq!(chosen(Some(&settings(vec![("packetver", Json::Null)]))).unwrap(), packetver::default());
    assert_eq!(suffix(&packetver::default()), "");
}

#[test]
fn a_listed_version_is_chosen_and_suffixed() {
    let Some(other) = all().get(1).cloned() else { return };
    let as_text = settings(vec![("packetver", Json::Str(other.clone()))]);
    assert_eq!(chosen(Some(&as_text)).unwrap(), other);
    assert_eq!(suffix(&other), format!("-{other}"));
    let as_number = settings(vec![("packetver", Json::Number(other.clone()))]);
    assert_eq!(chosen(Some(&as_number)).unwrap(), other);
}

#[test]
fn an_unlisted_version_is_refused_not_read_as_the_default() {
    let unlisted = settings(vec![("packetver", Json::Str("20110101".to_string()))]);
    assert!(chosen(Some(&unlisted)).unwrap_err().contains("20110101"));
    let wrong_type = settings(vec![("packetver", Json::Bool(true))]);
    assert!(chosen(Some(&wrong_type)).is_err());
    assert!(chosen(None).is_err());
}

#[test]
fn the_image_lists_its_two_builds() {
    assert_eq!(all(), vec!["20221005".to_string(), "20250402".to_string()]);
    assert_eq!(packetver::default(), "20221005");
    assert_eq!(suffix("20250402"), "-20250402");
}

fn chosen_from_number(n: &str) -> Result<String, String> {
    chosen(Some(&settings(vec![("packetver", Json::Number(n.to_string()))])))
}

#[test]
fn a_whole_number_is_read_by_its_value_however_it_is_written() {
    for n in ["20221005", "20221005.0", "2.0221005e7", "2.0221005E+7", "2022100500e-2", "0020221005.000"] {
        assert_eq!(chosen_from_number(n), Ok("20221005".to_string()), "{n}");
    }
    let err = chosen_from_number("1e20").unwrap_err();
    assert!(err.contains("client version 100000000000000000000."), "{err}");
}

#[test]
fn a_number_that_is_not_whole_and_positive_is_unreadable() {
    for n in ["20221005.5", "-20221005", "0", "0.0e5", "2.02210055e7", "1e400", "2e", "1.e3", "abc", ""] {
        let err = chosen_from_number(n).unwrap_err();
        assert!(err.starts_with("Cannot read the client version setting"), "{n}: {err}");
    }
}
