use pi::render::short;
use pi::tui::status::{self, Counts};

#[test]
fn counts_are_rounded_once_they_stop_being_readable() {
    assert_eq!(short(999), "999");
    assert_eq!(short(1_240), "1.2k");
    assert_eq!(short(2_500_000), "2.5m");
}

#[test]
fn a_fresh_run_shows_dashes_for_what_the_provider_has_not_said() {
    let s = status::line(0, 3, &Counts::default(), 0, false);
    assert_eq!(s, "⠋ 3s · - in / - out · esc to stop");
}

#[test]
fn an_unstated_half_reads_as_a_dash_until_it_arrives() {
    // The Anthropic wire states the input count up front and the output
    // count only at the end; the half that is known shows its number and
    // the one that has not said anything shows a dash.
    let c = Counts {
        input: 8_400,
        ..Default::default()
    };
    let s = status::line(0, 4, &c, 0, false);
    assert_eq!(s, "⠋ 4s · 8.4k in / - out · esc to stop");
}

#[test]
fn both_stated_halves_read_as_a_pair() {
    let c = Counts {
        input: 8_400,
        output: 390,
    };
    let s = status::line(0, 4, &c, 0, false);
    assert_eq!(s, "⠋ 4s · 8.4k in / 390 out · esc to stop");
}

#[test]
fn a_host_that_has_said_nothing_shows_dashes_everywhere() {
    // An OpenAI host reports no usage until the stream ends; the status
    // line must not fill the gap with a count of ours.
    let s = status::line(0, 9, &Counts::default(), 0, false);
    assert_eq!(s, "⠋ 9s · - in / - out · esc to stop");
}

#[test]
fn a_long_run_reads_in_minutes() {
    let c = Counts {
        input: 12_000,
        output: 340,
    };
    let s = status::line(1, 125, &c, 2, false);
    assert_eq!(s, "⠙ 2m05s · 12.0k in / 340 out · 2 queued · esc to stop");
}

#[test]
fn a_stopping_run_says_so_and_stops_spinning() {
    // The request it is inside of has to return first, and a line that went
    // on spinning would read as the key press having been missed.
    let s = status::line(4, 1, &Counts::default(), 0, true);
    assert_eq!(s, "· 1s · - in / - out · stopping…");
}
