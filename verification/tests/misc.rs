use tenten::extra::Coord;
use tenten::game::Lines;
use tenten::random::Random;
use tenten::score::ScoreTable;

#[test]
fn coord_floor_frac_rounds_down() {
    let q = Coord { x: 7, y: -7 }.floor_frac(Coord { x: 2, y: 2 });
    assert_eq!(q, Coord { x: 3, y: -4 });
    let q = Coord { x: 68, y: 135 }.floor_frac(Coord { x: 68, y: 68 });
    assert_eq!(q, Coord { x: 1, y: 1 });
    let q = Coord { x: -1, y: 0 }.floor_frac(Coord { x: 68, y: 68 });
    assert_eq!(q, Coord { x: -1, y: 0 });
}

#[test]
fn coord_normalize_clamps() {
    let lower = Coord { x: 0, y: 0 };
    let upper = Coord { x: 9, y: 9 };
    assert_eq!(Coord { x: -3, y: 12 }.normalize(lower, upper), Coord { x: 0, y: 9 });
    assert_eq!(Coord { x: 4, y: 5 }.normalize(lower, upper), Coord { x: 4, y: 5 });
}

#[test]
fn coord_is_zero() {
    assert!(Coord { x: 0, y: 0 }.is_zero());
    assert!(!Coord { x: 1, y: 0 }.is_zero());
    assert!(!Coord { x: 0, y: -1 }.is_zero());
}

#[test]
fn lines_emptiness() {
    assert!(!Lines::empty().not_empty());
    assert!(Lines { x: 1, y: 0 }.not_empty());
    assert!(Lines { x: 0, y: 2 }.not_empty());
}

#[test]
fn random_follows_xorshift() {
    let mut rnd = Random::new(1);
    assert_eq!(rnd.rand(), 270369);
    assert_eq!(rnd.rand(), 67634689);
}

#[test]
fn score_table_sorts_and_ranks() {
    let table = ScoreTable::from_parts(
        vec!["ann".to_owned(), "bob".to_owned(), "cid".to_owned()],
        vec![10, 500, 60],
        vec!["t1".to_owned(), "t2".to_owned(), "t3".to_owned()],
    );
    assert_eq!(table.get_highscore(), 500);
    let names: Vec<&str> = table.iter().iter().map(|s| s.name.as_str()).collect();
    assert_eq!(names, vec!["bob", "cid", "ann"]);
    assert!(table.iter().iter().all(|s| !s.last));
}

#[test]
fn score_table_push_marks_newest() {
    let mut table = ScoreTable::from_parts(
        vec!["ann".to_owned(), "bob".to_owned()],
        vec![10, 500],
        vec!["t1".to_owned(), "t2".to_owned()],
    );
    table.push("cid".to_owned(), 60, "t3".to_owned());
    let rows = table.iter();
    let names: Vec<&str> = rows.iter().map(|s| s.name.as_str()).collect();
    assert_eq!(names, vec!["bob", "cid", "ann"]);
    let marks: Vec<bool> = rows.iter().map(|s| s.last).collect();
    assert_eq!(marks, vec![false, true, false]);
    assert_eq!(table.get_highscore(), 500);
}

#[test]
fn score_table_zips_to_shortest_column() {
    let table = ScoreTable::from_parts(
        vec!["ann".to_owned(), "bob".to_owned(), "cid".to_owned()],
        vec![10, 500],
        vec!["t1".to_owned(), "t2".to_owned(), "t3".to_owned()],
    );
    assert_eq!(table.iter().len(), 2);
    let empty = ScoreTable::from_parts(vec![], vec![1, 2, 3], vec![]);
    assert_eq!(empty.get_highscore(), 0);
}

#[test]
fn score_table_keeps_equal_scores_in_arrival_order() {
    let mut table = ScoreTable::from_parts(
        vec!["ann".to_owned()],
        vec![100],
        vec!["t1".to_owned()],
    );
    table.push("bob".to_owned(), 100, "t2".to_owned());
    let names: Vec<&str> = table.iter().iter().map(|s| s.name.as_str()).collect();
    assert_eq!(names, vec!["ann", "bob"]);
}
