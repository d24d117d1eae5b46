use name_resolver::normalize::{bytes_eq, dedup_adjacent, normalize_line};

fn bv(s: &str) -> Vec<u8> {
    s.as_bytes().to_vec()
}

#[test]
fn normalization_filters_folds_and_bounds() {
    assert_eq!(normalize_line(&bv("Steve")), Some(bv("steve")));
    assert_eq!(normalize_line(&bv("St3-ve!")), Some(bv("st3ve")));
    assert_eq!(normalize_line(&bv("A_B")), Some(bv("a_b")));
    assert_eq!(normalize_line(&bv("ab")), None);
    assert_eq!(normalize_line(&bv("--ab--")), None);
    assert_eq!(normalize_line(&bv("abcdefghijklmnop")), None);
    assert_eq!(normalize_line(&bv("abcdefghijklmno")), Some(bv("abcdefghijklmno")));
    assert_eq!(normalize_line(&bv("abc")), Some(bv("abc")));
}

#[test]
fn dedup_removes_consecutive_runs_only() {
    let v = vec![bv("a_a"), bv("a_a"), bv("bbb"), bv("a_a")];
    assert_eq!(dedup_adjacent(&v), vec![bv("a_a"), bv("bbb"), bv("a_a")]);
    let empty: Vec<Vec<u8>> = Vec::new();
    assert!(dedup_adjacent(&empty).is_empty());
}

#[test]
fn byte_equality_is_exact() {
    assert!(bytes_eq(&bv("steve"), &bv("steve")));
    assert!(!bytes_eq(&bv("steve"), &bv("stevE")));
    assert!(!bytes_eq(&bv("steve"), &bv("stev")));
}
