use ordo::{tally, Score};

fn strings(v: &[&str]) -> Vec<String> {
    v.iter().map(|s| s.to_string()).collect()
}

fn ballots(v: &[&[&str]]) -> Vec<Vec<String>> {
    v.iter().map(|b| strings(b)).collect()
}

fn pairs(r: &[Score]) -> Vec<(String, usize)> {
    r.iter().map(|s| (s.option.clone(), s.score)).collect()
}

fn expect(v: &[(&str, usize)]) -> Vec<(String, usize)> {
    v.iter().map(|(o, s)| (o.to_string(), *s)).collect()
}

#[test]
fn tie_keeps_canonical_order() {
    let r = tally(&strings(&["A", "B", "C"]), &ballots(&[&["A", "B", "C"], &["B", "A", "C"]]));
    assert_eq!(pairs(&r), expect(&[("A", 5), ("B", 5), ("C", 2)]));
}

#[test]
fn ballot_order_does_not_matter() {
    let opts = strings(&["A", "B", "C"]);
    let a = tally(&opts, &ballots(&[&["A", "B", "C"], &["C", "B", "A"], &["B", "C", "A"]]));
    let b = tally(&opts, &ballots(&[&["B", "C", "A"], &["A", "B", "C"], &["C", "B", "A"]]));
    assert_eq!(pairs(&a), pairs(&b));
    assert_eq!(pairs(&a), expect(&[("B", 7), ("C", 6), ("A", 5)]));
}

#[test]
fn rank_order_within_a_ballot_matters() {
    let opts = strings(&["A", "B"]);
    let a = tally(&opts, &ballots(&[&["A", "B"]]));
    let b = tally(&opts, &ballots(&[&["B", "A"]]));
    assert_eq!(pairs(&a), expect(&[("A", 2), ("B", 1)]));
    assert_eq!(pairs(&b), expect(&[("B", 2), ("A", 1)]));
}

#[test]
fn no_ballots_scores_zero_in_canonical_order() {
    let r = tally(&strings(&["Pizza", "Sushi", "Tacos"]), &vec![]);
    assert_eq!(pairs(&r), expect(&[("Pizza", 0), ("Sushi", 0), ("Tacos", 0)]));
}

#[test]
fn one_ballot_gives_the_rank_weights() {
    let r = tally(&strings(&["a", "b", "c", "d"]), &ballots(&[&["c", "a", "d", "b"]]));
    assert_eq!(pairs(&r), expect(&[("c", 4), ("a", 3), ("d", 2), ("b", 1)]));
}

#[test]
fn repeated_option_is_listed_once_with_all_its_points() {
    let r = tally(&strings(&["x", "x", "y"]), &ballots(&[&["x", "y", "x"]]));
    assert_eq!(pairs(&r), expect(&[("x", 4), ("y", 2)]));
}

#[test]
fn higher_score_comes_first_whatever_the_canonical_order() {
    let r = tally(
        &strings(&["a", "b", "c"]),
        &ballots(&[&["c", "b", "a"], &["c", "a", "b"], &["b", "c", "a"]]),
    );
    assert_eq!(pairs(&r), expect(&[("c", 8), ("b", 6), ("a", 4)]));
}

#[test]
fn swapping_two_adjacent_ranks_moves_one_point() {
    let opts = strings(&["a", "b", "c", "d"]);
    let before = tally(&opts, &ballots(&[&["a", "b", "c", "d"], &["d", "c", "b", "a"]]));
    let after = tally(&opts, &ballots(&[&["a", "c", "b", "d"], &["d", "c", "b", "a"]]));
    assert_eq!(pairs(&before), expect(&[("a", 5), ("b", 5), ("c", 5), ("d", 5)]));
    assert_eq!(pairs(&after), expect(&[("c", 6), ("a", 5), ("d", 5), ("b", 4)]));
}
