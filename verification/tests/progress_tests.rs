use ril::progress::{draw, duration_of_ms, finish, Msg, ProgressState};

const HEAD: &str = "\r\x1b[2K  \x1b[1;36mril\x1b[0m  ";

#[test]
fn bar_when_total_known() {
    let expected = format!(
        "{HEAD}\x1b[2m▕\x1b[0m\x1b[32m{}\x1b[0m\x1b[2m{}▏\x1b[0m  \x1b[1m 50%\x1b[0m  \x1b[2m5/10\x1b[0m  \x1b[33m~1s\x1b[0m",
        "█".repeat(11),
        "░".repeat(11)
    );
    assert_eq!(draw(5, Some(10), 1000), expected);
}

#[test]
fn bar_without_estimate_at_start() {
    let expected = format!(
        "{HEAD}\x1b[2m▕\x1b[0m\x1b[32m\x1b[0m\x1b[2m{}▏\x1b[0m  \x1b[1m  0%\x1b[0m  \x1b[2m0/4\x1b[0m  \x1b[33m~--\x1b[0m",
        "░".repeat(22)
    );
    assert_eq!(draw(0, Some(4), 5000), expected);
    let full = format!(
        "{HEAD}\x1b[2m▕\x1b[0m\x1b[32m{}\x1b[0m\x1b[2m▏\x1b[0m  \x1b[1m100%\x1b[0m  \x1b[2m4/4\x1b[0m  \x1b[33m~0s\x1b[0m",
        "█".repeat(22)
    );
    assert_eq!(draw(4, Some(4), 5000), full);
}

#[test]
fn spinner_when_total_unknown() {
    assert_eq!(
        draw(3, None, 1300),
        format!("{HEAD}\x1b[36m⠋\x1b[0m  \x1b[2m3 batches  1s\x1b[0m")
    );
    assert_eq!(
        draw(3, Some(0), 250),
        format!("{HEAD}\x1b[36m⠹\x1b[0m  \x1b[2m3 batches  0s\x1b[0m")
    );
}

#[test]
fn durations() {
    assert_eq!(duration_of_ms(0), "0s");
    assert_eq!(duration_of_ms(2500), "2s");
    assert_eq!(duration_of_ms(3500), "4s");
    assert_eq!(duration_of_ms(59_700), "60s");
    assert_eq!(duration_of_ms(60_000), "1m0s");
    assert_eq!(duration_of_ms(125_000), "2m5s");
}

#[test]
fn finish_line_counts_all_batches() {
    assert_eq!(
        finish(7, Some(10), 90_000),
        format!("{HEAD}\x1b[32m✓\x1b[0m  \x1b[2m10 batches  done in 1m30s\x1b[0m")
    );
    assert_eq!(
        finish(7, None, 400),
        format!("{HEAD}\x1b[32m✓\x1b[0m  \x1b[2m7 batches  done in 0s\x1b[0m")
    );
}

#[test]
fn progress_state_keeps_latest() {
    let mut s = ProgressState::new();
    assert_eq!(s, ProgressState { total: None, current: 0 });
    s.apply(Msg::Batch(3));
    s.apply(Msg::Total(9));
    s.apply(Msg::Batch(4));
    assert_eq!(s, ProgressState { total: Some(9), current: 4 });
}

#[test]
fn count_past_the_total_shows_a_full_bar() {
    let bar = format!("{HEAD}\x1b[2m▕\x1b[0m\x1b[32m{}\x1b[0m\x1b[2m▏\x1b[0m  \x1b[1m100%\x1b[0m  \x1b[2m7/4\x1b[0m  ", "█".repeat(22));
    assert_eq!(draw(7, Some(4), 200), format!("{bar}\x1b[33m~--\x1b[0m"));
}
