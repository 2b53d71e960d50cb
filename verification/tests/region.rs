use fantoch::order::{compare_text, Precedence};
use fantoch::region::{
    compare_configs, compare_regions, distinct_names, is_superset, sort_regions, Region,
};
use fantoch::text::push_decimal;

fn regions(names: &[&str]) -> Vec<Region> {
    names.iter().map(|n| Region::new(n)).collect()
}

#[test]
fn region_keeps_its_name() {
    let r = Region::new("europe-west1");
    assert_eq!(r.name(), "europe-west1");
    assert_eq!(r.clone(), r);
}

#[test]
fn text_comparison_is_lexicographic() {
    assert_eq!(compare_text("a", "b"), Precedence::Before);
    assert_eq!(compare_text("b", "a"), Precedence::After);
    assert_eq!(compare_text("abc", "abc"), Precedence::Same);
    assert_eq!(compare_text("ab", "abc"), Precedence::Before);
    assert_eq!(compare_text("", "a"), Precedence::Before);
    assert_eq!(compare_text("us-east1", "us-east4"), Precedence::Before);
    assert_eq!(compare_text("é", "z"), Precedence::After);
}

#[test]
fn region_comparison_follows_ord() {
    let pairs = [
        ("asia-east1", "asia-northeast1"),
        ("us-west2", "us-west1"),
        ("europe-west1", "europe-west1"),
        ("us-east1", "us-east"),
    ];
    for (a, b) in pairs {
        let (ra, rb) = (Region::new(a), Region::new(b));
        let expected = match ra.cmp(&rb) {
            std::cmp::Ordering::Less => Precedence::Before,
            std::cmp::Ordering::Equal => Precedence::Same,
            std::cmp::Ordering::Greater => Precedence::After,
        };
        assert_eq!(compare_regions(&ra, &rb), expected);
    }
}

#[test]
fn config_comparison_is_set_order() {
    let a = regions(&["a", "b", "c"]);
    let b = regions(&["a", "b", "d"]);
    let c = regions(&["a", "b"]);
    assert_eq!(compare_configs(&a, &b), Precedence::Before);
    assert_eq!(compare_configs(&b, &a), Precedence::After);
    assert_eq!(compare_configs(&a, &a.clone()), Precedence::Same);
    assert_eq!(compare_configs(&c, &a), Precedence::Before);
    assert_eq!(compare_configs(&regions(&["b"]), &a), Precedence::After);
}

#[test]
fn superset_checks() {
    let big = regions(&["a", "b", "c", "d"]);
    assert!(is_superset(&big, &regions(&["b", "d"])));
    assert!(is_superset(&big, &regions(&[])));
    assert!(is_superset(&big, &big.clone()));
    assert!(!is_superset(&big, &regions(&["a", "e"])));
    assert!(!is_superset(&regions(&["a"]), &big));
}

#[test]
fn sorting_regions_by_name() {
    let sorted = sort_regions(regions(&["us-west1", "asia-east1", "europe-west2", "europe-north1"]));
    assert_eq!(
        sorted,
        regions(&["asia-east1", "europe-north1", "europe-west2", "us-west1"])
    );
    assert_eq!(sort_regions(Vec::new()), Vec::<Region>::new());
}

#[test]
fn distinct_region_names() {
    assert!(distinct_names(&regions(&["a", "b", "c"])));
    assert!(distinct_names(&regions(&[])));
    assert!(!distinct_names(&regions(&["a", "b", "a"])));
}

#[test]
fn decimal_text() {
    for n in [0u64, 7, 10, 42, 1000, 987654321, u64::MAX] {
        let mut s = String::from("x=");
        push_decimal(&mut s, n);
        assert_eq!(s, format!("x={}", n));
    }
}
