use meshbool::cross_section::number_points;

fn keys(ks: &[&str]) -> Vec<String> {
    ks.iter().map(|k| k.to_string()).collect()
}

#[test]
fn repeated_keys_share_an_index() {
    let (ids, firsts) = number_points(&keys(&["a", "b", "b", "c", "a"]));
    assert_eq!(ids, vec![0, 1, 1, 2, 0]);
    assert_eq!(firsts, vec![0, 1, 3]);
}

#[test]
fn segment_keys_of_a_square_section() {
    // four segments of a square cross section, each given by its two end keys
    let ks = keys(&[
        "0.000000_1.000000", "1.000000_1.000000",
        "1.000000_1.000000", "1.000000_0.000000",
        "1.000000_0.000000", "0.000000_0.000000",
        "0.000000_0.000000", "0.000000_1.000000",
    ]);
    let (ids, firsts) = number_points(&ks);
    assert_eq!(ids, vec![0, 1, 1, 2, 2, 3, 3, 0]);
    assert_eq!(firsts, vec![0, 1, 3, 5]);
}

#[test]
fn no_keys_no_points() {
    let (ids, firsts) = number_points(&Vec::new());
    assert!(ids.is_empty() && firsts.is_empty());
}

#[test]
fn negative_zero_is_a_different_key() {
    let (ids, _) = number_points(&keys(&["-0.000000_0.000000", "0.000000_0.000000"]));
    assert_eq!(ids, vec![0, 1]);
}

#[test]
fn equal_ids_exactly_for_equal_keys() {
    let ks = keys(&["x", "y", "x", "z", "y", "y", "w", "z"]);
    let (ids, firsts) = number_points(&ks);
    for i in 0..ks.len() {
        for j in 0..ks.len() {
            assert_eq!(ids[i] == ids[j], ks[i] == ks[j]);
        }
        assert_eq!(ks[firsts[ids[i]]], ks[i]);
    }
}
