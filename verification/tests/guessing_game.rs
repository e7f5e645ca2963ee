use learn_rust::guessing_game::{answer, judge, pick_secret, respond, Reply, HIGHEST, LOWEST};

#[test]
fn guess_is_compared_with_the_secret() {
    assert_eq!(judge(10, 50), Reply::TooSmall(10));
    assert_eq!(judge(90, 50), Reply::TooBig(90));
    assert_eq!(judge(50, 50), Reply::Win(50));
    assert_eq!(judge(-3, 1), Reply::TooSmall(-3));
    assert_eq!(judge(i32::MAX, 100), Reply::TooBig(i32::MAX));
    assert_eq!(judge(i32::MIN, 1), Reply::TooSmall(i32::MIN));
}

#[test]
fn line_without_a_number_is_no_guess() {
    assert_eq!(answer(None, 7), Reply::NotANumber);
    assert_eq!(answer(Some(7), 7), Reply::Win(7));
    assert_eq!(answer(Some(8), 7), Reply::TooBig(8));
}

#[test]
fn line_is_trimmed_and_read() {
    assert_eq!(respond("42\n", 42), Reply::Win(42));
    assert_eq!(respond("  41 \r\n", 42), Reply::TooSmall(41));
    assert_eq!(respond("\t+43", 42), Reply::TooBig(43));
    assert_eq!(respond("-5", 42), Reply::TooSmall(-5));
    assert_eq!(respond("007", 7), Reply::Win(7));
    assert_eq!(respond("-0", 0), Reply::Win(0));
    assert_eq!(respond("2147483647", 1), Reply::TooBig(2147483647));
    assert_eq!(respond("-2147483648", 1), Reply::TooSmall(-2147483648));
}

#[test]
fn line_that_is_no_number() {
    for line in ["", "\n", "abc", "4 2", "4.2", "1_000", "+", "-", "--1", "2147483648", "-2147483649", "12a"] {
        assert_eq!(respond(line, 42), Reply::NotANumber);
    }
}

#[test]
fn secret_is_within_its_range() {
    assert_eq!(LOWEST, 1);
    assert_eq!(HIGHEST, 100);
    let first = pick_secret();
    let mut varied = false;
    for _ in 0..1000 {
        let secret = pick_secret();
        assert!(LOWEST <= secret && secret <= HIGHEST);
        varied = varied || secret != first;
    }
    // A thousand equal draws from a hundred numbers do not happen by chance.
    assert!(varied);
}
