use std::time::{Duration, SystemTime};

use tenten::save::{deserialize, serialize, ColorOverride, DecodeError, FormatVersion, Snapshot};

fn sample_snapshot() -> Snapshot {
    let mut cells = vec![false; 100];
    cells[0] = true;
    cells[11] = true;
    cells[99] = true;
    Snapshot {
        width: 10,
        height: 10,
        cells,
        baskets: vec![3, 0, 17],
        score: 4200,
        elapsed: 12345,
        colors: vec![
            ColorOverride { x: 0, y: 0, color: 2 },
            ColorOverride { x: 1, y: 1, color: 7 },
            ColorOverride { x: 9, y: 9, color: 0 },
        ],
    }
}

fn assert_same_fixed_fields(a: &Snapshot, b: &Snapshot) {
    assert_eq!(a.width, b.width);
    assert_eq!(a.height, b.height);
    assert_eq!(a.cells, b.cells);
    assert_eq!(a.baskets, b.baskets);
    assert_eq!(a.score, b.score);
    assert_eq!(a.elapsed, b.elapsed);
}

#[test]
fn extended_round_trip_reproduces_overrides() {
    let snap = sample_snapshot();
    let encoded = serialize(&snap, FormatVersion::Extended);
    let decoded = deserialize(&encoded, 10, 10, 3, 19).unwrap();
    assert_same_fixed_fields(&snap, &decoded);
    assert_eq!(snap.colors, decoded.colors);
}

#[test]
fn legacy_round_trip_yields_no_overrides() {
    let snap = sample_snapshot();
    let encoded = serialize(&snap, FormatVersion::Legacy);
    let decoded = deserialize(&encoded, 10, 10, 3, 19).unwrap();
    assert_same_fixed_fields(&snap, &decoded);
    assert_eq!(decoded.colors, vec![]);
}

#[test]
fn truncated_input_fails_without_panic() {
    let snap = sample_snapshot();
    let encoded = serialize(&snap, FormatVersion::Extended);
    // every proper prefix misses bits somewhere in the layout
    for cut in 0..encoded.len() {
        let shorter: String = encoded.chars().take(cut).collect();
        assert_eq!(deserialize(&shorter, 10, 10, 3, 19), Err(DecodeError::Truncated));
    }
}

#[test]
fn foreign_character_fails_decode() {
    assert_eq!(deserialize("abc def", 10, 10, 3, 19), Err(DecodeError::BadCharacter));
}

#[test]
fn unknown_figure_identifier_fails_decode() {
    let snap = Snapshot {
        width: 2,
        height: 2,
        cells: vec![false; 4],
        baskets: vec![7],
        score: 0,
        elapsed: 0,
        colors: vec![],
    };
    let encoded = serialize(&snap, FormatVersion::Legacy);
    // a catalog of six figures cannot resolve identifier seven
    assert_eq!(deserialize(&encoded, 2, 2, 1, 6), Err(DecodeError::UnknownFigure));
    // a large enough catalog can
    let decoded = deserialize(&encoded, 2, 2, 1, 7).unwrap();
    assert_eq!(decoded.baskets, vec![7]);
}

#[test]
fn empty_grid_and_baskets_round_trip() {
    let snap = Snapshot {
        width: 10,
        height: 10,
        cells: vec![false; 100],
        baskets: vec![0, 0, 0],
        score: 0,
        elapsed: 0,
        colors: vec![],
    };
    let encoded = serialize(&snap, FormatVersion::Extended);
    let decoded = deserialize(&encoded, 10, 10, 3, 19).unwrap();
    assert_same_fixed_fields(&snap, &decoded);
    assert_eq!(decoded.colors, vec![]);
}

#[test]
fn golden_snapshot_encodings() {
    // worked out by hand from the field table: cells 1,0,0,1; one basket
    // slot holding figure 2; score 7; 9 elapsed seconds
    let snap = Snapshot {
        width: 2,
        height: 2,
        cells: vec![true, false, false, true],
        baskets: vec![2],
        score: 7,
        elapsed: 9,
        colors: vec![ColorOverride { x: 3, y: 1, color: 200 }],
    };
    assert_eq!(serialize(&snap, FormatVersion::Legacy), "Kqaaaaoaaaaaaaaabia");
    assert_eq!(serialize(&snap, FormatVersion::Extended), "KqaaaaoaaaaaaaaabnqeXYa");
}

#[test]
fn score_time_example() {
    let snap = Snapshot {
        width: 10,
        height: 10,
        cells: vec![false; 100],
        baskets: vec![0, 0, 0],
        score: 12345,
        elapsed: 3661,
        colors: vec![],
    };
    let encoded = serialize(&snap, FormatVersion::Extended);
    let decoded = deserialize(&encoded, 10, 10, 3, 19).unwrap();
    assert_eq!(decoded.score, 12345);
    // the resumed time origin lands within a few seconds of "now - 3661 s"
    let now = SystemTime::now();
    let origin = now.checked_sub(Duration::from_secs(decoded.elapsed)).unwrap();
    let expected = now.checked_sub(Duration::from_secs(3661)).unwrap();
    let drift = match origin.duration_since(expected) {
        Ok(d) => d,
        Err(e) => e.duration(),
    };
    assert!(drift <= Duration::from_secs(5));
}
