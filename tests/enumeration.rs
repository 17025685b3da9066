use winch::combinations::{advance_indices, generate_combinations, name_less, Assignment, CandidateList};

fn list(package: &str, versions: &[&str]) -> CandidateList {
    CandidateList {
        package: package.to_string(),
        versions: versions.iter().map(|v| v.to_string()).collect(),
    }
}

fn pairs(combo: &Vec<Assignment>) -> Vec<(String, String)> {
    combo.iter().map(|a| (a.package.clone(), a.version.clone())).collect()
}

fn p(a: &str, b: &str) -> (String, String) {
    (a.to_string(), b.to_string())
}

#[test]
fn advance_increments_first_digit() {
    let mut idx = vec![0, 0];
    let wrapped = advance_indices(&mut idx, &vec![2, 3]);
    assert!(!wrapped);
    assert_eq!(idx, vec![1, 0]);
}

#[test]
fn advance_carries_into_next_digit() {
    let mut idx = vec![1, 0];
    let wrapped = advance_indices(&mut idx, &vec![2, 3]);
    assert!(!wrapped);
    assert_eq!(idx, vec![0, 1]);
}

#[test]
fn advance_wraps_after_last_value() {
    let mut idx = vec![1, 2];
    let wrapped = advance_indices(&mut idx, &vec![2, 3]);
    assert!(wrapped);
    assert_eq!(idx, vec![0, 0]);
}

#[test]
fn advance_on_empty_counter_wraps() {
    let mut idx: Vec<usize> = vec![];
    assert!(advance_indices(&mut idx, &vec![]));
}

#[test]
fn combinations_count_is_product_of_lengths() {
    let c = vec![list("a", &["a1", "a2"]), list("b", &["b1", "b2", "b3"])];
    let combos = generate_combinations(&c);
    assert_eq!(combos.len(), 6);
}

#[test]
fn combinations_vary_first_package_fastest() {
    let c = vec![list("a", &["a1", "a2"]), list("b", &["b1", "b2"])];
    let combos: Vec<Vec<(String, String)>> = generate_combinations(&c).iter().map(pairs).collect();
    assert_eq!(
        combos,
        vec![
            vec![p("a", "a1"), p("b", "b1")],
            vec![p("a", "a2"), p("b", "b1")],
            vec![p("a", "a1"), p("b", "b2")],
            vec![p("a", "a2"), p("b", "b2")],
        ]
    );
}

#[test]
fn combinations_are_distinct_and_cover_every_candidate() {
    let c = vec![
        list("a", &["1", "2", "3"]),
        list("b", &["x"]),
        list("c", &["u", "v"]),
    ];
    let combos: Vec<Vec<(String, String)>> = generate_combinations(&c).iter().map(pairs).collect();
    assert_eq!(combos.len(), 6);
    for i in 0..combos.len() {
        for j in (i + 1)..combos.len() {
            assert_ne!(combos[i], combos[j]);
        }
    }
    for (k, l) in c.iter().enumerate() {
        for v in &l.versions {
            assert!(combos.iter().any(|combo| &combo[k].1 == v));
        }
        for combo in &combos {
            assert!(l.versions.contains(&combo[k].1));
        }
    }
}

#[test]
fn single_package_keeps_its_order() {
    let c = vec![list("foo", &["1.2.0", "1.1.0", "1.0.0"])];
    let combos: Vec<Vec<(String, String)>> = generate_combinations(&c).iter().map(pairs).collect();
    assert_eq!(
        combos,
        vec![vec![p("foo", "1.2.0")], vec![p("foo", "1.1.0")], vec![p("foo", "1.0.0")]]
    );
}

#[test]
fn no_packages_gives_one_empty_combination() {
    let combos = generate_combinations(&vec![]);
    assert_eq!(combos.len(), 1);
    assert!(combos[0].is_empty());
}

#[test]
fn lists_are_enumerated_in_name_order() {
    let c = vec![list("b", &["1", "2"]), list("a", &["3", "4"])];
    let combos: Vec<Vec<(String, String)>> = generate_combinations(&c).iter().map(pairs).collect();
    assert_eq!(combos[0], vec![p("a", "3"), p("b", "1")]);
    assert_eq!(combos[1], vec![p("a", "4"), p("b", "1")]);
}

#[test]
fn input_order_does_not_change_the_enumeration() {
    let ab = vec![list("a", &["1", "2"]), list("b", &["x", "y"])];
    let ba = vec![list("b", &["x", "y"]), list("a", &["1", "2"])];
    let first: Vec<Vec<(String, String)>> = generate_combinations(&ab).iter().map(pairs).collect();
    let second: Vec<Vec<(String, String)>> = generate_combinations(&ba).iter().map(pairs).collect();
    assert_eq!(first, second);
}

#[test]
fn carry_passes_through_a_single_candidate_list() {
    let c = vec![list("z", &["p", "q"]), list("x", &["1", "2", "3"]), list("y", &["a"])];
    let combos: Vec<Vec<(String, String)>> = generate_combinations(&c).iter().map(pairs).collect();
    let row = |x: &str, z: &str| vec![p("x", x), p("y", "a"), p("z", z)];
    assert_eq!(
        combos,
        vec![row("1", "p"), row("2", "p"), row("3", "p"), row("1", "q"), row("2", "q"), row("3", "q")]
    );
}

#[test]
fn name_order_compares_characters_then_length() {
    let s = |x: &str| x.to_string();
    assert!(name_less(&s("abc"), &s("abd")));
    assert!(name_less(&s("ab"), &s("abc")));
    assert!(!name_less(&s("abc"), &s("ab")));
    assert!(!name_less(&s("serde"), &s("serde")));
    assert!(name_less(&s("Zed"), &s("alpha")));
}
