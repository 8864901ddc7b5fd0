use pi::tui::lane::{End, Lane, Lanes, Work};
use pi::tui::line::{Line, Role, Style};
use pi::tui::looping::Loops;
use pi::tui::pane::{Event, Pane};
use pi::tui::row::Row;
use pi::tui::scroll::ScrollbackRows;
use pi::tui::surface::Outcome;
use pi::tui::ui::Ui;

fn said(text: &str) -> Line {
    Line::of(text, Style::of(Role::Plain))
}

fn texts(pane: &Pane) -> Vec<String> {
    let mut walk = ScrollbackRows::new(&pane.scrollback, 80);
    let mut out = Vec::new();
    while let Some((line, _)) = walk.next() {
        out.push(line.spans.iter().map(|s| s.content.as_str()).collect());
    }
    out
}

fn lane(worktree: Option<&str>, work: Work) -> Lane {
    Lane {
        worktree: worktree.map(String::from),
        work,
        pending: Vec::new(),
        loops: Loops::new(),
        pane: Pane::opening("0.1", &[]),
    }
}

fn surface() -> Lanes {
    Lanes {
        lanes: vec![lane(None, Work::Running { unsend: false }), lane(Some("f1"), Work::Idle)],
        current: 0,
    }
}

fn ui() -> Ui {
    Ui::new(80, 24, "›", ":")
}

/// A lane left running queues every later prompt into a queue that only drains
/// once it is not running, so every kind has to come back idle.
#[test]
fn every_kind_of_job_leaves_its_lane_idle() {
    let ends = || vec![End::Back(Outcome::Done), End::Recovered, End::Lost("no such file".into())];
    for lines in [vec![], vec![said("out")]] {
        for end in ends() {
            let mut tui = surface();
            let unsend = tui.finish(0);
            assert!(!tui.land_run(0, &end, None, lines.clone(), unsend, None, "-"));
            assert!(!tui.lanes[0].is_running(), "{end:?} left its lane running");
        }
    }
    for report in [false, true] {
        for end in ends() {
            let mut tui = surface();
            tui.finish(0);
            tui.land_compact(0, &end, report, None, 10, 20);
            assert!(!tui.lanes[0].is_running(), "{end:?} left its lane running");
        }
    }
}

/// A rebuilt lane has already been drawn, whatever its row counts say, so a
/// switch back lays no fresh opening block over the transcript.
#[test]
fn switching_back_to_a_rebuilt_lane_keeps_its_transcript() {
    let mut tui = surface();
    let mut ui = ui();
    tui.lanes[1].pane = Pane::opening("0.1", &[]);
    tui.lanes[1].pane.scrollback = vec![Row::notice(said("what was said before"))];
    tui.lanes[1].pane.opened = 0;

    tui.current = 1;
    tui.reconcile(&mut ui, 0, "0.1", &[], "-");

    let rows = texts(&tui.lanes[1].pane);
    assert!(
        rows.iter().any(|r| r.contains("what was said before")),
        "the transcript survives the switch: {rows:?}"
    );
}

#[test]
fn a_lane_never_drawn_opens_on_its_banner() {
    let mut tui = surface();
    let mut ui = ui();
    tui.lanes[1].pane = Pane::new();
    tui.current = 1;
    assert!(!tui.reconcile(&mut ui, 0, "0.1", &["AGENTS.md".to_string()], "-"));
    assert!(texts(&tui.lanes[1].pane)[0].contains("π 0.1"));
    // Nothing has moved: nothing is drawn again.
    let before = texts(&tui.lanes[1].pane);
    assert!(!tui.reconcile(&mut ui, 1, "0.1", &[], "-"));
    assert_eq!(texts(&tui.lanes[1].pane), before);
}

#[test]
fn only_a_running_lane_can_be_stopped() {
    let mut ui = ui();
    let mut tui = surface();
    tui.current = 1;
    assert!(!tui.stop_current(&mut ui, true, 3));
    assert_eq!(ui.flash, Some(("nothing running to stop".into(), 3)));
    assert!(!tui.lanes[1].pane.stopping);
    tui.current = 0;
    assert!(tui.stop_current(&mut ui, true, 4));
    assert!(tui.lanes[0].pane.stopping);
    assert!(tui.finish(0));
    assert_eq!(tui.lanes[0].work, Work::Idle);
}

#[test]
fn a_job_starts_only_with_a_transcript() {
    let mut ui = ui();
    let mut tui = surface();
    tui.current = 1;
    assert!(!tui.start(&mut ui, false, false, Some("m"), 7));
    assert_eq!(
        ui.flash,
        Some(("this checkout has no transcript — /new or /resume first".into(), 7))
    );
    assert!(!tui.lanes[1].is_running());
    assert!(tui.start(&mut ui, true, true, Some("m"), 8));
    assert!(tui.lanes[1].is_running());
    assert_eq!(tui.lanes[1].pane.started, Some(8));
    assert!(tui.lanes[1].pane.committed);
    assert_eq!(tui.lanes[1].pane.model, "m");
}

#[test]
fn a_lane_out_of_sight_keeps_what_it_posts() {
    let mut ui = ui();
    let mut tui = surface();
    tui.lanes[1].work = Work::Running { unsend: true };
    assert!(tui.serve(0, Event::TextDelta("here\n".into())));
    assert!(!tui.serve(1, Event::TextDelta("the".into())));
    assert!(!tui.serve(1, Event::TextDelta("re\n".into())));
    assert_eq!(tui.lanes[1].pending.len(), 1);
    assert!(!texts(&tui.lanes[1].pane).iter().any(|r| r.contains("there")));

    // Its run ends out of sight, and the end waits with it.
    let unsend = tui.finish(1);
    assert!(unsend);
    assert!(!tui.land_run(1, &End::Back(Outcome::Cancelled), None, vec![], unsend, None, "-"));
    assert_eq!(tui.lanes[1].work, Work::Ended { out: Outcome::Cancelled, unsend: true });

    tui.current = 1;
    assert!(tui.reconcile(&mut ui, 0, "0.1", &[], "-"), "the prompt is still to be taken back");
    let rows = texts(&tui.lanes[1].pane);
    assert!(rows.iter().any(|r| r == "there"), "{rows:?}");
    assert_eq!(rows.last().map(String::as_str), Some("stopped"));
    assert_eq!(tui.lanes[1].work, Work::Idle);
    assert!(tui.lanes[1].pending.is_empty());
}

#[test]
fn news_of_a_job_lands_on_the_screen_being_watched() {
    let mut tui = surface();
    tui.lanes[1].work = Work::Running { unsend: false };
    tui.finish(1);
    tui.land_run(1, &End::Recovered, Some("disk full"), vec![said("out")], false, None, "-");
    assert_eq!(
        texts(&tui.lanes[0].pane)[1..],
        [
            "f1: the run did not finish — back to the transcript as last saved",
            "f1: warning: the transcript was not saved: disk full"
        ]
    );
    // A command's output is the lane's own.
    assert!(texts(&tui.lanes[1].pane).iter().any(|r| r == "out"));

    // What could not be read back is never written over.
    let mut tui = surface();
    tui.finish(0);
    tui.land_run(0, &End::Lost("gone".into()), Some("disk full"), vec![], false, None, "-");
    assert!(!texts(&tui.lanes[0].pane).iter().any(|r| r.contains("disk full")));
}

#[test]
fn a_compaction_says_how_it_ended() {
    let ended = |end: End, report: bool| {
        let mut tui = surface();
        tui.lanes[0].pane.started = Some(3);
        tui.finish(0);
        tui.land_compact(0, &end, report, Some("disk full"), 10, 20);
        assert_eq!(tui.lanes[0].pane.started, None);
        texts(&tui.lanes[0].pane)[1..].to_vec()
    };
    assert_eq!(
        ended(End::Back(Outcome::Done), true),
        ["warning: the transcript was not saved: disk full"]
    );
    assert_eq!(ended(End::Back(Outcome::Cancelled), false), ["stopped"]);
    assert_eq!(
        ended(End::Back(Outcome::Done), false),
        ["nothing to compact — 10 tokens, all inside the 20 kept as working context"]
    );
    assert_eq!(ended(End::Lost("gone".into()), true).len(), 1);
}

#[test]
fn a_round_that_ends_out_of_sight_still_arms_the_next() {
    let mut tui = surface();
    tui.lanes[1].work = Work::Running { unsend: false };
    tui.lanes[1].loops.loop_start("tidy up".into());
    tui.lanes[1].loops.loop_running();
    tui.lanes[1].loops.note_write();
    tui.finish(1);
    tui.land_run(1, &End::Back(Outcome::Done), None, vec![], false, None, "-");
    assert_eq!(tui.lanes[1].pane.queued.len(), 1);
    assert!(texts(&tui.lanes[0].pane).last().unwrap().starts_with("f1: "));
}

#[test]
fn the_renderer_styles_what_an_answer_left() {
    let mut tui = surface();
    tui.serve(0, Event::TextDelta("# title\nbody\n".into()));
    let pane = &mut tui.lanes[0].pane;
    let left = pane.take_unstyled();
    assert_eq!(left.iter().map(|u| u.text.as_str()).collect::<Vec<_>>(), ["# title", "body"]);
    assert!(pane.take_unstyled().is_empty());
    pane.restyle(left[0].row, Line::of("title", Style::of(Role::Prompt)));
    assert_eq!(texts(pane)[1..], ["title", "body"]);
    // A row that is not there is left alone.
    pane.restyle(99, said("x"));
    assert_eq!(texts(pane).len(), 3);
}
