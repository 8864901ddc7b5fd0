use pi::tui::drive::{phone, Act, Asked, Commit, Next, Step};
use pi::tui::intent::Intent;
use pi::tui::lane::{Lane, Lanes, Work};
use pi::tui::line::{Line, Role, Style};
use pi::tui::looping::Loops;
use pi::tui::pane::Pane;
use pi::tui::scroll::ScrollbackRows;
use pi::tui::settings::Panel;
use pi::tui::surface::{Fate, Outcome, Route};
use pi::tui::ui::Ui;
use pi::wechat::Inbound;

fn said(text: &str) -> Line {
    Line::of(text, Style::of(Role::Plain))
}

fn texts(pane: &Pane) -> Vec<String> {
    let mut walk = ScrollbackRows::new(&pane.scrollback, 80);
    let mut out = Vec::new();
    while let Some((line, _)) = walk.next() {
        out.push(line.plain());
    }
    out
}

fn lane(worktree: Option<&str>) -> Lane {
    Lane {
        worktree: worktree.map(String::from),
        work: Work::Idle,
        pending: Vec::new(),
        loops: Loops::new(),
        pane: Pane::opening("0.1", &[]),
    }
}

fn lanes() -> Lanes {
    Lanes { lanes: vec![lane(None), lane(Some("f1"))], current: 0 }
}

fn ui() -> Ui {
    Ui::new(80, 24, "›", ":")
}

#[test]
fn a_queued_intent_waits_for_its_lane() {
    let mut tui = lanes();
    assert_eq!(tui.next(false), Next::Wait { tick: false });
    assert_eq!(tui.next(true), Next::Wait { tick: true });
    tui.lanes[0].pane.queued = vec![Intent::Submit("a".into()), Intent::New];
    tui.lanes[0].work = Work::Running { unsend: false };
    assert_eq!(tui.next(false), Next::Wait { tick: true });
    tui.lanes[0].work = Work::Idle;
    // One at a time, each still the intent it was read as.
    assert_eq!(tui.next(false), Next::Take(Intent::Submit("a".into())));
    assert_eq!(tui.next(false), Next::Take(Intent::New));
    // A lane out of sight keeps the clock going too.
    tui.lanes[1].work = Work::Running { unsend: false };
    assert_eq!(tui.next(false), Next::Wait { tick: true });
}

#[test]
fn the_phone_types_like_a_hand() {
    assert_eq!(
        phone(Inbound::Text { text: "hi".into() }),
        Asked::Admit(Intent::Submit("hi".into()))
    );
    assert_eq!(phone(Inbound::Stop), Asked::Admit(Intent::Interrupt));
    assert_eq!(phone(Inbound::Notice("n".into())), Asked::Say("n".into()));
}

#[test]
fn the_front_lane_says_what_comes_in() {
    let mut tui = lanes();
    let mut ui = ui();
    assert_eq!(
        tui.let_in(&mut ui, Intent::New, Fate::Refused("not now".into()), 1),
        Some(Intent::New)
    );
    tui.lanes[0].work = Work::Running { unsend: false };
    assert_eq!(tui.let_in(&mut ui, Intent::New, Fate::Refused("not now".into()), 1), None);
    assert_eq!(ui.flash, Some(("not now".into(), 1)));
    assert_eq!(tui.let_in(&mut ui, Intent::Submit("x".into()), Fate::Queued, 2), None);
    assert_eq!(tui.lanes[0].pane.queued, [Intent::Submit("x".into())]);
    assert_eq!(tui.route_front(&mut ui, Intent::Unsend, 3), Route::Stop { unsend: true });
}

#[test]
fn a_step_lands_on_the_lane_it_moved_to() {
    let mut tui = lanes();
    let mut ui = ui();
    ui.editor.set_line("half a thought");
    tui.lanes[1].work = Work::Ended { out: Outcome::Done, unsend: true };
    // The step moved the surface to the other checkout.
    tui.current = 1;
    let (act, rewind) =
        tui.land_step(&mut ui, 0, false, Step::Handled(vec![said("moved")]), "0.1", &[], "-", 5);
    assert_eq!(act, Act::Nothing);
    assert!(rewind);
    assert!(ui.editor.is_empty(), "the draft stays behind");
    assert_eq!(texts(&tui.lanes[1].pane).last().map(String::as_str), Some("moved"));
    assert_eq!(tui.lanes[1].work, Work::Idle);
}

#[test]
fn every_step_says_what_is_left() {
    let go = |step: Step| {
        let mut ui = ui();
        let (act, rewind) = lanes().land_step(&mut ui, 0, false, step, "0.1", &[], "-", 5);
        assert!(!rewind);
        (act, ui.flash)
    };
    assert_eq!(go(Step::Quit), (Act::Leave, None));
    assert_eq!(go(Step::Flash("no".into())), (Act::Nothing, Some(("no".into(), 5))));
    assert_eq!(go(Step::Bash("ls".into())).0, Act::Bash("ls".into()));
    assert_eq!(go(Step::Compact(None)).0, Act::Compact(None));
    assert_eq!(go(Step::Swap(vec![])).0, Act::Swap(vec![]));
    assert_eq!(
        go(Step::Prompt { send: "a".into(), typed: None }).0,
        Act::Prompt { send: "a".into(), typed: None }
    );
}

#[test]
fn a_round_is_counted_where_it_was_queued() {
    let mut tui = lanes();
    let mut ui = ui();
    tui.lanes[0].loops.loop_start("tidy".into());
    tui.current = 1;
    let step = Step::Prompt { send: "tidy".into(), typed: None };
    tui.land_step(&mut ui, 0, true, step, "0.1", &[], "-", 5);
    assert_eq!(tui.lanes[0].loops.looping.as_ref().map(|l| (l.round, l.running)), Some((1, true)));

    // One that starts no turn leaves nothing to measure.
    let mut tui = lanes();
    tui.lanes[0].loops.loop_start("tidy".into());
    tui.current = 1;
    tui.land_step(&mut ui, 0, true, Step::Handled(vec![]), "0.1", &[], "-", 5);
    assert!(tui.lanes[0].loops.looping.is_none());
    assert_eq!(
        texts(&tui.lanes[1].pane).last().map(String::as_str),
        Some("the main checkout: loop ended — `tidy` starts no turn to measure")
    );
}

#[test]
fn a_written_setting_keeps_the_panel_on_its_path() {
    let mut tui = lanes();
    let mut ui = ui();
    let row = |p: &str, v: &str| (p.to_string(), v.to_string());
    let mut panel = Panel::new(vec![row("a", "1"), row("b", "2")]);
    panel.next();
    panel.begin_edit();
    ui.settings = Some(panel);
    tui.commit_setting(&mut ui, Commit::Refused("not a number".into()));
    let panel = ui.settings.as_ref().unwrap();
    assert!(panel.editing());
    assert_eq!(panel.view(80).last().map(String::as_str), Some("  ✗ not a number"));

    let rows = vec![row("a", "1"), row("aa", "0"), row("b", "3")];
    tui.commit_setting(&mut ui, Commit::Written { said: vec![said("b = 3")], rows });
    let panel = ui.settings.as_ref().unwrap();
    assert!(!panel.editing());
    assert_eq!(panel.path().as_deref(), Some("b"));
    assert_eq!(panel.view(80), ["  a = 1", "  aa = 0", "› b = 3"]);
    assert_eq!(texts(&tui.lanes[0].pane).last().map(String::as_str), Some("b = 3"));
}

#[test]
fn leaving_waits_for_every_run() {
    let mut tui = lanes();
    assert_eq!(tui.leaving(), 0);
    assert_eq!(texts(&tui.lanes[0].pane).len(), 1);
    tui.lanes[1].work = Work::Running { unsend: false };
    assert_eq!(tui.leaving(), 1);
    assert_eq!(
        texts(&tui.lanes[0].pane).last().map(String::as_str),
        Some("stopping — saving what the runs have written")
    );
}
