use xcover::CoverOption;
use xcover::Problem;

fn s(lit: &str) -> String {
    lit.to_string()
}

fn option(label: &str, primary: &[&str], secondary: &[(&str, &str)]) -> CoverOption {
    CoverOption::new(
        s(label),
        primary.iter().map(|p| s(p)).collect(),
        secondary.iter().map(|p| (s(p.0), s(p.1))).collect(),
    )
    .unwrap()
}

#[test]
fn option_new_valid() {
    let o = option("o1", &["p1", "p2"], &[("s1", ""), ("s2", "c1")]);
    assert_eq!(o.get_label(), "o1");
    assert_eq!(o.primary_items(), vec![s("p1"), s("p2")]);
    assert_eq!(o.secondary_items(), vec![(s("s1"), s("")), (s("s2"), s("c1"))]);
}

#[test]
fn option_new_duplicate_primary() {
    let r = CoverOption::new(s("o1"), vec![s("p1"), s("p1")], vec![]);
    assert!(r.is_err());
    assert_eq!(r.unwrap_err().message, "duplicate primary item in option");
}

#[test]
fn option_new_duplicate_secondary_item_despite_colors() {
    let r = CoverOption::new(s("o1"), vec![s("p1")], vec![(s("s1"), s("c1")), (s("s1"), s("c2"))]);
    assert!(r.is_err());
    assert_eq!(r.unwrap_err().message, "duplicate secondary item in option");
}

#[test]
fn option_rebuild_from_valid_fields_succeeds() {
    let o = option("o1", &["p1", "p2"], &[("s1", "c")]);
    let rebuilt = CoverOption::new(o.get_label().to_string(), o.primary_items(), o.secondary_items());
    assert!(rebuilt.is_ok());
    let r = rebuilt.unwrap();
    assert_eq!(r.get_label(), "o1");
    assert_eq!(r.primary_items(), o.primary_items());
    assert_eq!(r.secondary_items(), o.secondary_items());
}

#[test]
fn option_add_primary_item_appends() {
    let mut o = option("o1", &["p1", "p2"], &[]);
    assert!(o.add_primary_item(s("p3")).is_ok());
    assert_eq!(o.primary_items(), vec![s("p1"), s("p2"), s("p3")]);
}

#[test]
fn option_add_primary_item_rejects_duplicate() {
    let mut o = option("o1", &["p1", "p2"], &[("s1", "")]);
    let r = o.add_primary_item(s("p1"));
    assert!(r.is_err());
    assert_eq!(o.primary_items(), vec![s("p1"), s("p2")]);
    assert_eq!(o.secondary_items(), vec![(s("s1"), s(""))]);
}

#[test]
fn option_add_secondary_item_appends() {
    let mut o = option("o1", &["p1"], &[("s1", "")]);
    assert!(o.add_secondary_item((s("s2"), s("c1"))).is_ok());
    assert_eq!(o.secondary_items(), vec![(s("s1"), s("")), (s("s2"), s("c1"))]);
}

#[test]
fn option_add_secondary_item_rejects_duplicate_despite_color() {
    let mut o = option("o1", &["p1"], &[("s1", "c1")]);
    let r = o.add_secondary_item((s("s1"), s("c2")));
    assert!(r.is_err());
    assert_eq!(o.secondary_items(), vec![(s("s1"), s("c1"))]);
}

#[test]
fn option_set_label_is_unconditional() {
    let mut o = option("o1", &["p1"], &[]);
    o.set_label(s("o1"));
    assert_eq!(o.get_label(), "o1");
    o.set_label(s("renamed"));
    assert_eq!(o.get_label(), "renamed");
    assert_eq!(o.primary_items(), vec![s("p1")]);
}

#[test]
fn problem_new_valid() {
    let p = Problem::new(
        vec![s("p1"), s("p2")],
        vec![s("s1"), s("s2")],
        vec![option("o1", &["p1"], &[]), option("o2", &["p2"], &[("s1", "")])],
    );
    assert!(p.is_ok());
    let p = p.unwrap();
    assert_eq!(p.primary_items, vec![s("p1"), s("p2")]);
    assert_eq!(p.secondary_items, vec![s("s1"), s("s2")]);
    assert_eq!(p.options.len(), 2);
}

#[test]
fn problem_new_duplicate_primary() {
    let r = Problem::new(vec![s("p1"), s("p1")], vec![], vec![]);
    assert!(r.is_err());
    assert_eq!(r.unwrap_err().message, "duplicate primary item");
}

#[test]
fn problem_new_duplicate_secondary() {
    let r = Problem::new(vec![s("p1")], vec![s("s1"), s("s1")], vec![]);
    assert!(r.is_err());
    assert_eq!(r.unwrap_err().message, "duplicate secondary item");
}

#[test]
fn problem_new_universes_must_be_disjoint() {
    let r = Problem::new(vec![s("p1"), s("x")], vec![s("x")], vec![]);
    assert!(r.is_err());
    assert_eq!(r.unwrap_err().message, "item is both primary and secondary");
}

#[test]
fn problem_new_rejects_dangling_reference() {
    let r = Problem::new(vec![s("p1")], vec![], vec![option("o1", &["p1", "p9"], &[])]);
    assert!(r.is_err());
    assert_eq!(r.unwrap_err().message, "option references an undeclared item");
}

#[test]
fn problem_new_rejects_dangling_secondary_reference() {
    let r = Problem::new(vec![s("p1")], vec![s("s1")], vec![option("o1", &["p1"], &[("s9", "")])]);
    assert!(r.is_err());
}

#[test]
fn problem_new_rechecks_option_fields() {
    // A problem constructed with raw fields that bypass the option guard
    // still fails as a whole.
    let bad_option = CoverOption {
        label: s("o1"),
        primary_items: vec![s("p1"), s("p1")],
        secondary_items: vec![],
    };
    let bad = Problem {
        primary_items: vec![s("p1")],
        secondary_items: vec![],
        options: vec![bad_option],
    };
    let r = bad.validate();
    assert!(r.is_err());
}

#[test]
fn problem_add_primary_item_appends() {
    let mut p = Problem::new(vec![s("p1")], vec![s("s1")], vec![]).unwrap();
    assert!(p.add_primary_item(s("p2")).is_ok());
    assert_eq!(p.primary_items, vec![s("p1"), s("p2")]);
}

#[test]
fn problem_add_primary_item_rejects_any_existing_item() {
    let mut p = Problem::new(vec![s("p1")], vec![s("s1")], vec![]).unwrap();
    assert!(p.add_primary_item(s("p1")).is_err());
    assert!(p.add_primary_item(s("s1")).is_err());
    assert_eq!(p.primary_items, vec![s("p1")]);
    assert_eq!(p.secondary_items, vec![s("s1")]);
}

#[test]
fn problem_add_secondary_item_rejects_any_existing_item() {
    let mut p = Problem::new(vec![s("p1")], vec![s("s1")], vec![]).unwrap();
    assert!(p.add_secondary_item(s("s1")).is_err());
    assert!(p.add_secondary_item(s("p1")).is_err());
    assert!(p.add_secondary_item(s("s2")).is_ok());
    assert_eq!(p.secondary_items, vec![s("s1"), s("s2")]);
}

#[test]
fn problem_add_option_appends() {
    let mut p = Problem::new(vec![s("p1"), s("p2")], vec![], vec![]).unwrap();
    assert!(p.add_option(option("o1", &["p1"], &[])).is_ok());
    assert_eq!(p.options.len(), 1);
    assert_eq!(p.options[0].get_label(), "o1");
}

#[test]
fn problem_add_option_rejects_malformed_option() {
    let mut p = Problem::new(vec![s("A"), s("B")], vec![], vec![]).unwrap();
    let mut dup = option("dup", &["A"], &[]);
    // Grow the raw fields past the guard to model a host-side mutation.
    dup = CoverOption { label: dup.label, primary_items: vec![s("A"), s("A")], secondary_items: vec![] };
    let r = p.add_option(dup);
    assert!(r.is_err());
    assert_eq!(p.options.len(), 0);
}

#[test]
fn problem_add_option_rejects_undeclared_item() {
    let mut p = Problem::new(vec![s("A"), s("B")], vec![], vec![]).unwrap();
    let r = p.add_option(option("o1", &["Z"], &[]));
    assert!(r.is_err());
    assert_eq!(r.unwrap_err().message, "option references an undeclared item");
    assert_eq!(p.options.len(), 0);
}

#[test]
fn problem_revalidation_is_idempotent() {
    let p = Problem::new(
        vec![s("p1"), s("p2")],
        vec![s("s1")],
        vec![option("o1", &["p1"], &[("s1", "c")])],
    )
    .unwrap();
    assert!(p.validate().is_ok());
    assert!(p.validate().is_ok());
}
