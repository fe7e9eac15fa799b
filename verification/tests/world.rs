use mwi_planner::world::SeriesCursor;
use rand::rngs::StdRng;
use rand::SeedableRng;

#[test]
fn replay_starts_inside_the_series_and_wraps_around() {
    let mut rng = StdRng::seed_from_u64(7);
    for len in [1usize, 2, 5, 31] {
        let mut cursor = SeriesCursor::start(len, 30, &mut rng);
        let start = cursor.position();
        assert!(start < len);
        for _ in 0..len {
            cursor.advance();
            assert!(cursor.position() < len);
        }
        assert_eq!(cursor.position(), start);
    }
}

#[test]
fn the_stride_spreads_the_series_over_the_days() {
    let mut rng = StdRng::seed_from_u64(1);
    let mut cursor = SeriesCursor::start(60, 30, &mut rng);
    let start = cursor.position();
    cursor.advance();
    assert_eq!(cursor.position(), (start + 2) % 60);

    let mut cursor = SeriesCursor::start(2, 0, &mut rng);
    let start = cursor.position();
    cursor.advance();
    assert_eq!(cursor.position(), (start + 2) % 2);

    let mut cursor = SeriesCursor::start(3, 10, &mut rng);
    let start = cursor.position();
    cursor.advance();
    assert_eq!(cursor.position(), (start + 1) % 3);
}

#[test]
fn the_same_seed_starts_the_replay_at_the_same_point() {
    let mut left = StdRng::seed_from_u64(99);
    let mut right = StdRng::seed_from_u64(99);
    for len in [3usize, 10, 1000] {
        assert_eq!(
            SeriesCursor::start(len, 5, &mut left).position(),
            SeriesCursor::start(len, 5, &mut right).position()
        );
    }
}
