use ragnarok_stack::precedence::apply_order;

fn order(pairs: &[(&str, &[&str])]) -> Result<Vec<String>, Vec<String>> {
    let owned: Vec<(String, Vec<String>)> = pairs
        .iter()
        .map(|(n, a)| ((*n).to_string(), a.iter().map(|s| (*s).to_string()).collect()))
        .collect();
    apply_order(&owned)
}

#[test]
fn with_nothing_declared_the_order_is_alphabetical() {
    assert_eq!(
        order(&[("zebra", &[]), ("alpha", &[]), ("middle", &[])]).unwrap(),
        vec!["alpha", "middle", "zebra"]
    );
}

#[test]
fn after_lifts_a_mod_past_the_alphabet() {
    let placed = order(&[("alpha", &["zebra"]), ("zebra", &[])]).unwrap();
    assert_eq!(placed, vec!["zebra", "alpha"]);
}

#[test]
fn after_ignores_a_mod_that_is_not_here() {
    assert_eq!(order(&[("alpha", &["absent"])]).unwrap(), vec!["alpha"]);
}

#[test]
fn a_chain_and_a_join_both_come_out_in_order() {
    let placed = order(&[("c", &["b"]), ("b", &["a"]), ("a", &[])]).unwrap();
    assert_eq!(placed, vec!["a", "b", "c"]);
    let placed = order(&[("last", &["one", "two"]), ("one", &[]), ("two", &[])]).unwrap();
    assert_eq!(placed.last().unwrap(), "last");
    assert!(placed.contains(&"one".to_string()) && placed.contains(&"two".to_string()));
}

#[test]
fn a_loop_is_refused_rather_than_resolved() {
    let cycle = order(&[("a", &["b"]), ("b", &["a"])]).unwrap_err();
    assert!(cycle.contains(&"a".to_string()) || cycle.contains(&"b".to_string()), "{cycle:?}");
    assert!(order(&[("a", &["a"])]).is_err(), "a mod after itself is a loop");
}

#[test]
fn a_very_long_chain_does_not_overflow() {
    let names: Vec<String> = (0..5000).map(|i| format!("mod-{i:05}")).collect();
    let pairs: Vec<(String, Vec<String>)> = names
        .iter()
        .enumerate()
        .map(|(i, n)| (n.clone(), if i == 0 { vec![] } else { vec![names[i - 1].clone()] }))
        .collect();
    assert_eq!(apply_order(&pairs).unwrap(), names);
}

#[test]
fn a_chain_declared_against_the_alphabet_is_reversed() {
    let placed = order(&[("a", &["b"]), ("b", &["c"]), ("c", &[])]).unwrap();
    assert_eq!(placed, vec!["c", "b", "a"]);
}

#[test]
fn a_three_mod_loop_names_its_members() {
    let cycle = order(&[("a", &["b"]), ("b", &["c"]), ("c", &["a"]), ("d", &[])]).unwrap_err();
    assert!(!cycle.is_empty(), "{cycle:?}");
    for name in &cycle {
        assert!(["a", "b", "c"].contains(&name.as_str()), "{cycle:?}");
    }
}

#[test]
fn nothing_to_order_is_an_empty_order() {
    assert_eq!(order(&[]).unwrap(), Vec::<String>::new());
}

#[test]
fn a_refusal_names_the_ring_and_not_a_mod_that_only_follows_it() {
    let err = order(&[("a", &["b"]), ("b", &["c"]), ("c", &["b"])]).unwrap_err();
    let mut named = err.clone();
    named.sort();
    assert_eq!(named, vec!["b".to_string(), "c".to_string()], "{err:?}");
}

#[test]
fn listing_the_mods_or_their_after_names_in_another_order_changes_nothing() {
    let one = order(&[("c", &["a", "b"]), ("a", &[]), ("b", &["a"])]).unwrap();
    let two = order(&[("b", &["a"]), ("a", &[]), ("c", &["b", "a"])]).unwrap();
    assert_eq!(one, two);
    assert_eq!(one, vec!["a".to_string(), "b".to_string(), "c".to_string()]);
}
