use geoguess::distance::Coordinate;
use geoguess::loader::LocationRecord;
use geoguess::session::{GameSession, GuessOutcome};

fn record(name: &str, lat_udeg: i64, lon_udeg: i64) -> LocationRecord {
    LocationRecord { name: name.to_string(), coord: Coordinate { lat_udeg, lon_udeg } }
}

fn three_cities() -> Vec<LocationRecord> {
    vec![
        record("London", 51_507_400, -127_800),
        record("Paris", 48_856_600, 2_352_200),
        record("New York", 40_712_800, -74_006_000),
    ]
}

#[test]
fn first_guess_win_reports_zero_attempts() {
    let mut session = GameSession::new(three_cities(), 1);
    match session.guess(1) {
        GuessOutcome::Win { attempts } => assert_eq!(attempts, 0),
        GuessOutcome::Miss { .. } => panic!("hitting the target index must win"),
    }
    assert!(session.won);
    assert_eq!(session.attempts, 0);
}

#[test]
fn misses_count_attempts_and_report_distance() {
    let mut session = GameSession::new(three_cities(), 0);
    match session.guess(1) {
        GuessOutcome::Miss { km_off } => assert!((343..=344).contains(&km_off)),
        GuessOutcome::Win { .. } => panic!("a wrong index must not win"),
    }
    match session.guess(2) {
        GuessOutcome::Miss { km_off } => assert!((5570..=5580).contains(&km_off)),
        GuessOutcome::Win { .. } => panic!("a wrong index must not win"),
    }
    assert_eq!(session.attempts, 2);
    match session.guess(0) {
        GuessOutcome::Win { attempts } => assert_eq!(attempts, 2),
        GuessOutcome::Miss { .. } => panic!("the target index must win"),
    }
    assert_eq!(session.attempts, 2);
}

#[test]
fn guessing_every_index_terminates_within_record_count() {
    // guessing each index once must reach the target within N iterations
    let records = three_cities();
    let n = records.len();
    let mut session = GameSession::new(records, 2);
    let mut iterations = 0;
    for guess in 0..n {
        iterations += 1;
        match session.guess(guess) {
            GuessOutcome::Win { .. } => break,
            GuessOutcome::Miss { .. } => {},
        }
    }
    assert!(iterations <= n);
    assert!(session.won);
}

#[test]
fn repeated_wrong_guesses_keep_counting() {
    let mut session = GameSession::new(three_cities(), 0);
    for _ in 0..5 {
        match session.guess(1) {
            GuessOutcome::Miss { .. } => {},
            GuessOutcome::Win { .. } => panic!("a wrong index must not win"),
        }
    }
    assert_eq!(session.attempts, 5);
}

#[test]
fn duplicate_names_are_told_apart_by_index() {
    // two records share a name; guessing the other record with the same name
    // must not count as a win
    let records = vec![
        record("Springfield", 39_801_700, -89_643_700),
        record("Springfield", 42_101_500, -72_589_800),
    ];
    let mut session = GameSession::new(records, 1);
    match session.guess(0) {
        GuessOutcome::Miss { .. } => {},
        GuessOutcome::Win { .. } => panic!("same name, other index, must not win"),
    }
    match session.guess(1) {
        GuessOutcome::Win { attempts } => assert_eq!(attempts, 1),
        GuessOutcome::Miss { .. } => panic!("the target index must win"),
    }
}

#[test]
fn random_target_is_a_valid_index() {
    for _ in 0..50 {
        let session = GameSession::with_random_target(three_cities());
        assert!(session.target_index < 3);
        assert_eq!(session.attempts, 0);
        assert!(!session.won);
    }
}

#[test]
fn full_game_over_loaded_records() {
    let data = "id,lat,lon,name\n1,51.5074,-0.1278,London\n2,48.8566,2.3522,Paris\n";
    let records = geoguess::loader::load_locations(data.as_bytes()).unwrap();
    let mut session = GameSession::with_random_target(records);
    let target = session.target_index;
    let other = 1 - target;
    match session.guess(other) {
        GuessOutcome::Miss { km_off } => assert!((343..=344).contains(&km_off)),
        GuessOutcome::Win { .. } => panic!("a wrong index must not win"),
    }
    match session.guess(target) {
        GuessOutcome::Win { attempts } => assert_eq!(attempts, 1),
        GuessOutcome::Miss { .. } => panic!("the target index must win"),
    }
}
