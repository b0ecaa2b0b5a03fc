use xcover::solve;
use xcover::CoverOption;
use xcover::Problem;

fn s(lit: &str) -> String {
    lit.to_string()
}

fn option(label: &str, primary: &[&str], secondary: &[(&str, &str)]) -> CoverOption {
    CoverOption::new(
        s(label),
        primary.iter().map(|p| s(p)).collect(),
        secondary.iter().map(|p| (s(p.0), s(p.1))).collect(),
    )
    .unwrap()
}

#[test]
fn solve_finds_both_covers() {
    let p = Problem::new(
        vec![s("A"), s("B")],
        vec![],
        vec![option("1", &["A"], &[]), option("2", &["B"], &[]), option("3", &["A", "B"], &[])],
    )
    .unwrap();
    let covers = solve(&p, true).unwrap();
    assert_eq!(covers.len(), 2);
    let mut normalized: Vec<Vec<String>> = covers
        .iter()
        .map(|c| {
            let mut c = c.clone();
            c.sort();
            c
        })
        .collect();
    normalized.sort();
    assert_eq!(normalized, vec![vec![s("1"), s("2")], vec![s("3")]]);
}

#[test]
fn solve_single_mode_returns_one_cover() {
    let p = Problem::new(
        vec![s("A"), s("B")],
        vec![],
        vec![option("1", &["A"], &[]), option("2", &["B"], &[]), option("3", &["A", "B"], &[])],
    )
    .unwrap();
    let covers = solve(&p, false).unwrap();
    assert_eq!(covers.len(), 1);
    let mut c = covers[0].clone();
    c.sort();
    assert!(c == vec![s("1"), s("2")] || c == vec![s("3")]);
}

#[test]
fn solve_single_cover_appears_among_all_covers() {
    let p = Problem::new(
        vec![s("A"), s("B")],
        vec![],
        vec![option("1", &["A"], &[]), option("2", &["B"], &[]), option("3", &["A", "B"], &[])],
    )
    .unwrap();
    let first = solve(&p, false).unwrap();
    assert_eq!(first.len(), 1);
    let mut f = first[0].clone();
    f.sort();
    let all = solve(&p, true).unwrap();
    assert!(all.iter().any(|c| {
        let mut c = c.clone();
        c.sort();
        c == f
    }));
}

#[test]
fn solve_uncovered_primary_gives_empty_not_error() {
    let p = Problem::new(
        vec![s("A"), s("B")],
        vec![],
        vec![option("1", &["A"], &[])],
    )
    .unwrap();
    let first = solve(&p, false);
    assert!(first.is_ok());
    assert!(first.unwrap().is_empty());
    let all = solve(&p, true);
    assert!(all.is_ok());
    assert!(all.unwrap().is_empty());
}

#[test]
fn solve_revalidates_raw_fields() {
    // Fields mutated past the guards (as a host boundary could do) are
    // caught by the dispatcher's re-validation.
    let p = Problem {
        primary_items: vec![s("A"), s("A")],
        secondary_items: vec![],
        options: vec![],
    };
    let r = solve(&p, true);
    assert!(r.is_err());
    assert_eq!(r.unwrap_err().message, "duplicate primary item");
}

#[test]
fn solve_rejects_empty_primary_universe() {
    let p = Problem::new(vec![], vec![], vec![]).unwrap();
    let r = solve(&p, true);
    assert!(r.is_err());
    assert!(!r.unwrap_err().message.is_empty());
}

#[test]
fn solve_with_colors() {
    let p = Problem::new(
        vec![s("p"), s("q"), s("r")],
        vec![s("x"), s("y")],
        vec![
            option("p q x y:A", &["p", "q"], &[("x", ""), ("y", "A")]),
            option("p r x:A y", &["p", "r"], &[("x", "A"), ("y", "")]),
            option("p x:B", &["p"], &[("x", "B")]),
            option("q x:A", &["q"], &[("x", "A")]),
            option("r y:B", &["r"], &[("y", "B")]),
        ],
    )
    .unwrap();
    let covers = solve(&p, true).unwrap();
    assert_eq!(covers.len(), 1);
    let cover = &covers[0];
    assert_eq!(cover.len(), 2);
    assert!(cover.contains(&s("q x:A")));
    assert!(cover.contains(&s("p r x:A y")));
}

#[test]
fn solve_ignores_unassigned_secondary_items() {
    let p = Problem::new(
        vec![s("A")],
        vec![s("y")],
        vec![option("1", &["A"], &[])],
    )
    .unwrap();
    let covers = solve(&p, true).unwrap();
    assert_eq!(covers, vec![vec![s("1")]]);
}

#[test]
fn solve_after_incremental_growth() {
    let mut p = Problem::new(vec![s("A")], vec![], vec![option("1", &["A"], &[])]).unwrap();
    p.add_primary_item(s("B")).unwrap();
    p.add_secondary_item(s("x")).unwrap();
    p.add_option(option("2", &["B"], &[("x", "c")])).unwrap();
    let covers = solve(&p, true).unwrap();
    assert_eq!(covers.len(), 1);
    let mut c = covers[0].clone();
    c.sort();
    assert_eq!(c, vec![s("1"), s("2")]);
}
