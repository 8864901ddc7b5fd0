//! What the loop decides: which inputs pass while a run is on, what the surface
//! answers for itself, and what becomes of a job that has come home.

use crate::text::{
    append_number, blank, chars_of, decimal, is_blank, string_of, texts, trim, trimmed,
};
use crate::tui::bar::cropped_text;
use crate::tui::editor::{encode, encoded, Editor};
use crate::tui::intent::{line_intent, read, Intent, IntentView};
use crate::tui::line::{one_span, plain_style, Line, Role, Span, SpanView, Style};
use crate::tui::looping::{loop_view, round_form, round_news, LoopingView, Loops, Round, RoundView};
use crate::tui::menu::{menu_view, MenuEntry, MenuView};
use crate::tui::pane::{
    abandoned_rows, after_event, closed, events_view, replayed, told, Event, EventView, Pane,
    PaneView,
};
use crate::tui::row::{banner_rows, notice_row, prompt_rows, rows_view, Row, RowView};
use crate::tui::thinking::retired;
use crate::tui::transcript::{all_thoughts, entries_view, restored, Entry, EntryView};
use crate::tui::ui::{flashed, with_line_of, Ui, UiView};
use crate::width::{columns_of, row_columns};
use vstd::prelude::*;
use vstd::string::*;

verus! {

// ---------------------------------------------------------------------------
// The door
// ---------------------------------------------------------------------------

/// What an intent may do while a run is on.
#[derive(Debug, Clone, PartialEq, Eq)]
pub enum Fate {
    Now,
    Queued,
    /// Not now, and why.
    Refused(String),
}

/// What an intent may do, with its texts as sequences.
#[verifier::ext_equal]
pub enum FateView {
    Now,
    Queued,
    Refused(Seq<char>),
}

impl View for Fate {
    type V = FateView;

    open spec fn view(&self) -> FateView {
        match self {
            Fate::Now => FateView::Now,
            Fate::Queued => FateView::Queued,
            Fate::Refused(why) => FateView::Refused(why@),
        }
    }
}

/// What comes through, and what it leaves: an idle lane admits everything, and
/// a working one what the intent's fate says.
pub open spec fn admitted(
    ui: UiView,
    pane: PaneView,
    intent: IntentView,
    running: bool,
    fate: FateView,
    now: u64,
) -> (UiView, PaneView, Option<IntentView>) {
    if !running {
        (ui, pane, Some(intent))
    } else {
        match fate {
            FateView::Now => (ui, pane, Some(intent)),
            FateView::Queued => (
                ui,
                PaneView { queued: pane.queued.push(intent), ..pane },
                None,
            ),
            FateView::Refused(why) => (flashed(ui, why, now), pane, None),
        }
    }
}

/// An optional intent, with its texts as sequences.
pub open spec fn opt_intent(i: Option<Intent>) -> Option<IntentView> {
    match i {
        Some(i) => Some(i@),
        None => None,
    }
}

/// The one door every input comes through: a key, the phone, or an intent coming back
/// off the queue, so two ways of asking the same thing cannot get two different
/// answers.
pub fn let_through(
    ui: &mut Ui,
    pane: &mut Pane,
    intent: Intent,
    running: bool,
    fate: Fate,
    now: u64,
) -> (r: Option<Intent>)
    requires
        old(ui).valid(),
        old(pane).valid(),
    ensures
        final(ui).valid(),
        final(pane).valid(),
        (final(ui)@, final(pane)@, opt_intent(r)) == admitted(
            old(ui)@,
            old(pane)@,
            intent@,
            running,
            fate@,
            now,
        ),
{
    if !running {
        return Some(intent);
    }
    match fate {
        Fate::Now => Some(intent),
        Fate::Queued => {
            let ghost before = pane@;
            let ghost i = intent@;
            pane.queued.push(intent);
            assert(pane@.queued =~= before.queued.push(i));
            None
        },
        Fate::Refused(why) => {
            ui.say_flash(why.as_str(), now);
            None
        },
    }
}

impl Pane {
    /// The next queued intent, once the lane it was aimed at is free. One at a
    /// time, each still the intent it was read as.
    pub fn take_queued(&mut self, running: bool) -> (r: Option<Intent>)
        requires
            old(self).valid(),
        ensures
            final(self).valid(),
            match r {
                Some(i) => !running && old(self)@.queued.len() > 0 && i@ == old(self)@.queued[0]
                    && final(self)@ == (PaneView {
                    queued: old(self)@.queued.skip(1),
                    ..old(self)@
                }),
                None => (running || old(self)@.queued.len() == 0) && final(self)@ == old(self)@,
            },
    {
        if running || self.queued.len() == 0 {
            return None;
        }
        let ghost before = self@;
        assert(before.queued[0] == self.queued@[0]@);
        let i = self.queued.remove(0);
        assert(self@.queued =~= before.queued.skip(1));
        Some(i)
    }

    /// Drop the rounds that a loop queued: run after it was stopped, one is a
    /// turn nobody asked for.
    fn drop_rounds(&mut self)
        requires
            old(self).valid(),
        ensures
            final(self).valid(),
            final(self)@ == (PaneView {
                queued: without_rounds(old(self)@.queued),
                ..old(self)@
            }),
    {
        let ghost before = self@;
        let ghost all = before.queued;
        let mut i: usize = 0;
        assert(all.skip(0) =~= all);
        assert(all.take(0) + without_rounds(all) =~= without_rounds(all));
        while i < self.queued.len()
            invariant
                i <= self.queued@.len(),
                self.valid(),
                all == before.queued,
                self@ == (PaneView { queued: self@.queued, ..before }),
                self@.queued.take(i as int) + without_rounds(self@.queued.skip(i as int))
                    == without_rounds(all),
            decreases self.queued@.len() - i,
        {
            let ghost now = self@.queued;
            assert(now.skip(i as int)[0] == self.queued@[i as int]@);
            assert(now.skip(i as int).skip(1) =~= now.skip(i + 1));
            let round = match &self.queued[i] {
                Intent::LoopRound(_) => true,
                _ => false,
            };
            if round {
                let _ = self.queued.remove(i);
                assert(self@.queued =~= now.remove(i as int));
                assert(self@.queued.skip(i as int) =~= now.skip(i + 1));
                assert(self@.queued.take(i as int) =~= now.take(i as int));
            } else {
                assert(now.take(i + 1) + without_rounds(now.skip(i + 1)) =~= now.take(i as int)
                    + (seq![now[i as int]] + without_rounds(now.skip(i + 1))));
                i += 1;
            }
        }
        assert(self@.queued.skip(i as int) =~= Seq::empty());
        assert(self@.queued.take(i as int) + without_rounds(self@.queued.skip(i as int))
            =~= self@.queued);
    }

    /// A theme change replaces exactly the opening block and leaves the
    /// conversation under it alone.
    pub fn reopen(&mut self, version: &str, context: &[String])
        requires
            old(self).valid(),
            old(self)@.opened <= old(self)@.rows.len(),
        ensures
            final(self).valid(),
            final(self)@ == (PaneView {
                rows: banner_rows(version@, texts(context@)) + old(self)@.rows.skip(
                    old(self)@.opened,
                ),
                opened: banner_rows(version@, texts(context@)).len() as int,
                ..old(self)@
            }),
    {
        let ghost before = self@;
        let ghost had = self.scrollback@;
        let opening = Row::banner(version, context);
        assert(rows_view(opening@).len() == opening@.len());
        let n = opening.len();
        let mut rest = self.scrollback.split_off(self.opened);
        assert(rest@ =~= had.skip(self.opened as int));
        self.scrollback = opening;
        assert(crate::tui::row::all_valid(rest@)) by {
            assert forall|i: int| 0 <= i < rest@.len() implies (#[trigger] rest@[i]).valid() by {
                assert(rest@[i] == had[self.opened + i]);
            }
        }
        self.opened = n;
        let ghost head = rows_view(self.scrollback@);
        self.push_rows(rest);
        assert(self@.rows =~= head + before.rows.skip(before.opened));
    }
}

/// The queue without the rounds that a loop put there.
pub open spec fn without_rounds(queued: Seq<IntentView>) -> Seq<IntentView>
    decreases queued.len(),
{
    if queued.len() == 0 {
        Seq::empty()
    } else if queued[0] is LoopRound {
        without_rounds(queued.skip(1))
    } else {
        seq![queued[0]] + without_rounds(queued.skip(1))
    }
}

// ---------------------------------------------------------------------------
// What the surface answers for itself
// ---------------------------------------------------------------------------

/// What is left to do for an intent.
#[derive(Debug, PartialEq, Eq)]
pub enum Route {
    /// Nothing: it has been answered.
    Done,
    /// Stop the run, and take its prompt back where that was asked.
    Stop { unsend: bool },
    OpenRewind,
    Rewind(u64),
    CommitSetting(String, String),
    EditExternally,
    /// Open the settings panel.
    OpenSettings,
    /// Carry the intent out, and whether it is a loop's own round.
    Run { intent: Intent, from_loop: bool, remember: bool },
}

/// What is left to do, with its texts as sequences.
#[verifier::ext_equal]
pub enum RouteView {
    Done,
    Stop { unsend: bool },
    OpenRewind,
    Rewind(u64),
    CommitSetting(Seq<char>, Seq<char>),
    EditExternally,
    OpenSettings,
    Run { intent: IntentView, from_loop: bool, remember: bool },
}

impl View for Route {
    type V = RouteView;

    open spec fn view(&self) -> RouteView {
        match self {
            Route::Done => RouteView::Done,
            Route::Stop { unsend } => RouteView::Stop { unsend: *unsend },
            Route::OpenRewind => RouteView::OpenRewind,
            Route::Rewind(id) => RouteView::Rewind(*id),
            Route::CommitSetting(p, v) => RouteView::CommitSetting(p@, v@),
            Route::EditExternally => RouteView::EditExternally,
            Route::OpenSettings => RouteView::OpenSettings,
            Route::Run { intent, from_loop, remember } => RouteView::Run {
                intent: intent@,
                from_loop: *from_loop,
                remember: *remember,
            },
        }
    }
}

/// The surface after an intent was routed.
#[verifier::ext_equal]
pub struct Routed {
    pub ui: UiView,
    pub pane: PaneView,
    pub looping: Option<LoopingView>,
    pub route: RouteView,
}

/// A submitted line echoed, and the view at its newest row: a view scrolled up
/// to read would otherwise stream output out of sight.
pub open spec fn echoed(p: PaneView, line: Seq<char>) -> PaneView {
    PaneView { rows: retired(p.thinking, p.rows + prompt_rows(line)), scroll: 0, ..p }
}

/// What is said of a loop that was stopped.
pub open spec fn stopped_form(l: LoopingView) -> Seq<char> {
    "loop stopped after "@ + decimal(l.round as nat) + " round(s) of `"@ + l.goal + "`"@
}

/// What an empty line or a goal does to the loop of a lane.
pub open spec fn looped(
    ui: UiView,
    pane: PaneView,
    l: Option<LoopingView>,
    goal: Seq<char>,
    now: u64,
) -> Routed {
    let goal = trim(goal);
    if goal.len() == 0 {
        let q = PaneView { queued: without_rounds(pane.queued), ..pane };
        match l {
            // A loop really ended: that belongs in the transcript.
            Some(l) => Routed {
                ui,
                pane: told(q, one_span(stopped_form(l), plain_style(Role::Plain))),
                looping: None,
                route: RouteView::Done,
            },
            // Nothing ended: a note about the line, not the lane.
            None => Routed {
                ui: flashed(
                    ui,
                    "no loop here — /loop <line> runs one again while it keeps changing files"@,
                    now,
                ),
                pane: q,
                looping: None,
                route: RouteView::Done,
            },
        }
    } else {
        match l {
            // Refused rather than replacing: the round already queued would
            // still run, and be counted against the new loop.
            Some(l) => Routed {
                ui: flashed(
                    ui,
                    "`"@ + l.goal + "` is already looping here — /loop to stop it first"@,
                    now,
                ),
                pane,
                looping: Some(l),
                route: RouteView::Done,
            },
            None => if line_intent(goal) is Loop {
                Routed {
                    ui: flashed(ui, "a loop cannot be its own goal"@, now),
                    pane,
                    looping: None,
                    route: RouteView::Done,
                }
            } else {
                Routed {
                    ui,
                    pane: PaneView {
                        queued: pane.queued.push(IntentView::LoopRound(goal)),
                        ..pane
                    },
                    looping: Some(
                        LoopingView { goal, round: 0, running: false, changed: false },
                    ),
                    route: RouteView::Done,
                }
            },
        }
    }
}

/// What is left of an intent once the surface has read it.
pub open spec fn read_on(
    ui: UiView,
    pane: PaneView,
    l: Option<LoopingView>,
    intent: IntentView,
    from_loop: bool,
    remember: bool,
    now: u64,
) -> Routed {
    match intent {
        IntentView::Loop(goal) => looped(ui, pane, l, goal, now),
        // Bare `/settings` opens the panel instead of a read-only list.
        IntentView::Settings(rest) => if blank(rest) {
            Routed { ui, pane, looping: l, route: RouteView::OpenSettings }
        } else {
            Routed { ui, pane, looping: l, route: RouteView::Run { intent, from_loop, remember } }
        },
        _ => Routed { ui, pane, looping: l, route: RouteView::Run { intent, from_loop, remember } },
    }
}

/// What the surface answers for itself: the screen, the keyboard and the process
/// are not the core's to move.
pub open spec fn routed(
    ui: UiView,
    pane: PaneView,
    l: Option<LoopingView>,
    intent: IntentView,
    now: u64,
) -> Routed {
    let with = |route: RouteView| Routed { ui, pane, looping: l, route };
    match intent {
        IntentView::Nothing => with(RouteView::Done),
        IntentView::Interrupt => with(RouteView::Stop { unsend: false }),
        IntentView::Unsend => with(RouteView::Stop { unsend: true }),
        IntentView::OpenRewind => with(RouteView::OpenRewind),
        IntentView::Rewind(id) => with(RouteView::Rewind(id)),
        IntentView::CommitSetting(p, v) => with(RouteView::CommitSetting(p, v)),
        IntentView::EditExternally => with(RouteView::EditExternally),
        // The loop that queued this may have been stopped since. Running it then
        // would be a turn nobody asked for.
        IntentView::LoopRound(line) => if l is None {
            with(RouteView::Done)
        } else {
            read_on(ui, echoed(pane, line), l, line_intent(line), true, false, now)
        },
        // A submitted line is echoed and remembered, and only then read.
        IntentView::Submit(line) => read_on(
            ui,
            echoed(pane, line),
            l,
            line_intent(line),
            false,
            true,
            now,
        ),
        _ => read_on(ui, pane, l, intent, false, false, now),
    }
}

fn echo(pane: &mut Pane, line: &str)
    requires
        old(pane).valid(),
    ensures
        final(pane).valid(),
        final(pane)@ == echoed(old(pane)@, line@),
{
    pane.submit(line);
    pane.scroll = 0;
}

/// Start a loop, stop it, or say why neither: a loop arms the lane and puts its
/// goal back through the door as a typed line, so what runs each round is read
/// exactly as it would be if it had been typed.
fn drive_loop(ui: &mut Ui, pane: &mut Pane, loops: &mut Loops, goal: &str, now: u64)
    requires
        old(ui).valid(),
        old(pane).valid(),
    ensures
        final(ui).valid(),
        final(pane).valid(),
        ({
            let r = looped(
                old(ui)@,
                old(pane)@,
                loop_view(old(loops).looping),
                goal@,
                now,
            );
            &&& final(ui)@ == r.ui
            &&& final(pane)@ == r.pane
            &&& loop_view(final(loops).looping) == r.looping
            &&& r.route == RouteView::Done
        }),
{
    let v = chars_of(goal);
    let kept = trimmed(v.as_slice());
    let goal = string_of(kept.as_slice());
    if kept.len() == 0 {
        pane.drop_rounds();
        match loops.looping.take() {
            Some(l) => {
                let mut said = "loop stopped after ".to_owned();
                append_number(&mut said, l.round);
                said.append(" round(s) of `");
                said.append(l.goal.as_str());
                said.append("`");
                pane.say(Line::of(said.as_str(), Style::of(Role::Plain)));
            },
            None => {
                ui.say_flash(
                    "no loop here — /loop <line> runs one again while it keeps changing files",
                    now,
                );
            },
        }
        return;
    }
    if let Some(l) = &loops.looping {
        let mut said = "`".to_owned();
        said.append(l.goal.as_str());
        said.append("` is already looping here — /loop to stop it first");
        ui.say_flash(said.as_str(), now);
        return;
    }
    if let Intent::Loop(_) = read(goal.as_str()) {
        ui.say_flash("a loop cannot be its own goal", now);
        return;
    }
    let ghost before = pane@;
    loops.loop_start(goal.clone());
    let ghost g = goal@;
    pane.queued.push(Intent::LoopRound(goal));
    assert(pane@.queued =~= before.queued.push(IntentView::LoopRound(g)));
}

fn read_further(
    ui: &mut Ui,
    pane: &mut Pane,
    loops: &mut Loops,
    intent: Intent,
    from_loop: bool,
    remember: bool,
    now: u64,
) -> (r: Route)
    requires
        old(ui).valid(),
        old(pane).valid(),
    ensures
        final(ui).valid(),
        final(pane).valid(),
        read_on(
            old(ui)@,
            old(pane)@,
            loop_view(old(loops).looping),
            intent@,
            from_loop,
            remember,
            now,
        ) == (Routed {
            ui: final(ui)@,
            pane: final(pane)@,
            looping: loop_view(final(loops).looping),
            route: r@,
        }),
{
    match intent {
        Intent::Loop(goal) => {
            drive_loop(ui, pane, loops, goal.as_str(), now);
            Route::Done
        },
        Intent::Settings(rest) => {
            let v = chars_of(rest.as_str());
            if is_blank(v.as_slice()) {
                Route::OpenSettings
            } else {
                Route::Run { intent: Intent::Settings(rest), from_loop, remember }
            }
        },
        other => Route::Run { intent: other, from_loop, remember },
    }
}

/// What the surface answers for itself, and what is left to do.
pub fn route(ui: &mut Ui, pane: &mut Pane, loops: &mut Loops, intent: Intent, now: u64) -> (r: Route)
    requires
        old(ui).valid(),
        old(pane).valid(),
    ensures
        final(ui).valid(),
        final(pane).valid(),
        routed(old(ui)@, old(pane)@, loop_view(old(loops).looping), intent@, now) == (Routed {
            ui: final(ui)@,
            pane: final(pane)@,
            looping: loop_view(final(loops).looping),
            route: r@,
        }),
{
    match intent {
        Intent::Nothing => Route::Done,
        Intent::Interrupt => Route::Stop { unsend: false },
        Intent::Unsend => Route::Stop { unsend: true },
        Intent::OpenRewind => Route::OpenRewind,
        Intent::Rewind(id) => Route::Rewind(id),
        Intent::CommitSetting(p, v) => Route::CommitSetting(p, v),
        Intent::EditExternally => Route::EditExternally,
        Intent::LoopRound(line) => {
            if loops.looping.is_none() {
                return Route::Done;
            }
            echo(pane, line.as_str());
            let meant = read(line.as_str());
            read_further(ui, pane, loops, meant, true, false, now)
        },
        Intent::Submit(line) => {
            echo(pane, line.as_str());
            let meant = read(line.as_str());
            read_further(ui, pane, loops, meant, false, true, now)
        },
        other => read_further(ui, pane, loops, other, false, false, now),
    }
}

// ---------------------------------------------------------------------------
// Lanes
// ---------------------------------------------------------------------------

/// Whose news it is, where the lane is not in front.
pub open spec fn whose(worktree: Option<Seq<char>>) -> Seq<char> {
    (match worktree {
        Some(name) => name,
        None => "the main checkout"@,
    }) + ": "@
}

/// News from a lane, as the screen being watched says it: a lane that is not in
/// front names itself first, plainly.
pub open spec fn news_of(
    front: bool,
    worktree: Option<Seq<char>>,
    what: Seq<char>,
    role: Role,
) -> Seq<SpanView> {
    if front {
        one_span(what, plain_style(role))
    } else if role is Plain {
        one_span(whose(worktree) + what, plain_style(role))
    } else {
        one_span(whose(worktree), plain_style(Role::Plain)) + one_span(what, plain_style(role))
    }
}

/// Say something about a lane on the screen actually being watched.
pub fn say_of(pane: &mut Pane, front: bool, worktree: Option<&str>, what: &str, role: Role)
    requires
        old(pane).valid(),
    ensures
        final(pane).valid(),
        final(pane)@ == told(
            old(pane)@,
            news_of(front, crate::tui::bar::opt_view(worktree), what@, role),
        ),
{
    if front {
        pane.say(Line::of(what, Style::of(role)));
        return;
    }
    let mut text = String::new();
    match worktree {
        Some(name) => text.append(name),
        None => text.append("the main checkout"),
    }
    text.append(": ");
    assert(text@ =~= whose(crate::tui::bar::opt_view(worktree)));
    if role == Role::Plain {
        text.append(what);
        pane.say(Line::of(text.as_str(), Style::of(role)));
        return;
    }
    let mut line = Line::of(text.as_str(), Style::of(Role::Plain));
    line.push(Span::styled(what.to_owned(), Style::of(role)));
    assert(line@ =~= news_of(front, crate::tui::bar::opt_view(worktree), what@, role));
    pane.say(line);
}

/// Carry the lane's loop past a round that has just ended: queue the next one,
/// or not, and what to say of it.
pub fn step_loop(pane: &mut Pane, loops: &mut Loops, finished: bool, cap: Option<usize>) -> (r: Option<
    String,
>)
    requires
        old(pane).valid(),
        loop_view(old(loops).looping) matches Some(l) ==> l.round < usize::MAX,
    ensures
        final(pane).valid(),
        ({
            let (l, round) = crate::tui::looping::stepped(
                loop_view(old(loops).looping),
                finished,
                cap,
            );
            &&& loop_view(final(loops).looping) == l
            &&& match round {
                Some(r0) => r matches Some(s) && s@ == round_form(r0),
                None => r is None,
            }
            &&& final(pane)@ == match round {
                Some(RoundView::Again { goal, .. }) => PaneView {
                    queued: old(pane)@.queued.push(IntentView::LoopRound(goal)),
                    ..old(pane)@
                },
                _ => old(pane)@,
            }
        }),
{
    let round = match loops.loop_step(finished, cap) {
        Some(r) => r,
        None => {
            return None;
        },
    };
    let said = round_news(&round);
    if let Round::Again { goal, .. } = round {
        let ghost before = pane@;
        let ghost g = goal@;
        pane.queued.push(Intent::LoopRound(goal));
        assert(pane@.queued =~= before.queued.push(IntentView::LoopRound(g)));
    }
    Some(said)
}

/// What a loop's own round becomes once its line was carried out: a round is a
/// turn, and only a step that starts one leaves anything to measure. Where it
/// started none, the loop is over, and this says so.
pub fn mark_round(loops: &mut Loops, starts_turn: bool) -> (r: Option<String>)
    requires
        loop_view(old(loops).looping) matches Some(l) ==> l.round + 1 < usize::MAX,
    ensures
        loop_view(final(loops).looping) == if starts_turn {
            crate::tui::looping::round_started(loop_view(old(loops).looping))
        } else {
            None
        },
        match loop_view(old(loops).looping) {
            Some(l) if !starts_turn => r matches Some(s) && s@ == "loop ended — `"@ + l.goal
                + "` starts no turn to measure"@,
            _ => r is None,
        },
{
    if starts_turn {
        loops.loop_running();
        return None;
    }
    match loops.looping.take() {
        Some(stale) => {
            let mut said = "loop ended — `".to_owned();
            said.append(stale.goal.as_str());
            said.append("` starts no turn to measure");
            Some(said)
        },
        None => None,
    }
}

/// Hand the view over to a job about to start: the clock runs. `committed` says
/// whether the prompt behind it can still be taken back.
pub fn arm_view(pane: &mut Pane, committed: bool, now: u64)
    requires
        old(pane).valid(),
    ensures
        final(pane).valid(),
        final(pane)@ == (PaneView {
            started: Some(now),
            committed,
            stopping: false,
            ..old(pane)@
        }),
{
    pane.started = Some(now);
    pane.committed = committed;
    pane.stopping = false;
}

/// Draw what a lane's run posted while nobody was looking, in the order it
/// arrived.
pub fn replay(pane: &mut Pane, held: Vec<Event>)
    requires
        old(pane).valid(),
        old(pane).thinking.next + held@.len() <= u64::MAX,
    ensures
        final(pane).valid(),
        final(pane)@ == replayed(old(pane)@, events_view(held@)),
{
    let ghost start = pane@;
    let ghost all = events_view(held@);
    let mut rev: Vec<Event> = Vec::new();
    let mut held = held;
    let n = held.len();
    while held.len() > 0
        invariant
            all.len() == n,
            held@.len() + rev@.len() == n,
            events_view(held@) == all.take(held@.len() as int),
            forall|k: int|
                0 <= k < rev@.len() ==> (#[trigger] rev@[k])@ == all[n - 1 - k],
        decreases held@.len(),
    {
        let ghost before = held@;
        assert(all.take(before.len() as int)[before.len() - 1] == before[before.len() - 1]@);
        if let Some(e) = held.pop() {
            assert(events_view(held@) =~= all.take(held@.len() as int));
            rev.push(e);
        }
    }
    let mut i: usize = 0;
    assert(all.take(0) =~= Seq::empty());
    while rev.len() > 0
        invariant
            pane.valid(),
            all.len() == n,
            i + rev@.len() == n,
            start.thinking.next + n <= u64::MAX,
            pane.thinking.next <= start.thinking.next + i,
            forall|k: int|
                0 <= k < rev@.len() ==> (#[trigger] rev@[k])@ == all[n - 1 - k],
            pane@ == replayed(start, all.take(i as int)),
        decreases rev@.len(),
    {
        assert(all.take(i + 1).drop_last() =~= all.take(i as int));
        assert(all.take(i + 1).last() == all[i as int]);
        let ghost now = pane@;
        if let Some(e) = rev.pop() {
            proof {
                lemma_event_ids(now, e@);
            }
            pane.on_event(e);
        }
        i += 1;
    }
    assert(all.take(i as int) =~= all);
}

/// An event takes at most one block id.
proof fn lemma_event_ids(p: PaneView, e: EventView)
    requires
        p.thinking.next < u64::MAX,
    ensures
        after_event(p, e).thinking.next <= p.thinking.next + 1,
{
    match e {
        EventView::TextDelta(d) => {
            lemma_written_ids(PaneView { committed: true, ..p }, d, false);
        },
        EventView::ReasoningDelta(d) => {
            lemma_written_ids(PaneView { committed: true, ..p }, d, true);
        },
        _ => {},
    }
}

proof fn lemma_written_ids(p: PaneView, delta: Seq<char>, reasoning: bool)
    requires
        p.thinking.next < u64::MAX,
    ensures
        crate::tui::pane::written(p, delta, reasoning).thinking.next <= p.thinking.next + 1,
{
    let q = crate::tui::pane::turned(p, reasoning);
    lemma_drained_ids(PaneView { partial: q.partial + delta, ..q });
}

proof fn lemma_drained_ids(p: PaneView)
    ensures
        crate::tui::pane::drained(p).thinking == p.thinking,
    decreases p.partial.len(),
{
    let n = crate::text::index_of(p.partial, '\n');
    crate::text::lemma_index_of(p.partial, '\n');
    if n < p.partial.len() {
        lemma_drained_ids(
            crate::tui::pane::landed(
                PaneView { partial: p.partial.skip(n + 1), ..p },
                p.partial.take(n),
            ),
        );
    }
}

// ---------------------------------------------------------------------------
// Settling
// ---------------------------------------------------------------------------

/// How a run ended.
#[derive(Debug, Clone, PartialEq, Eq)]
pub enum Outcome {
    Done,
    Cancelled,
    Failed(String),
}

/// How a run ended, with its texts as sequences.
#[verifier::ext_equal]
pub enum OutcomeView {
    Done,
    Cancelled,
    Failed(Seq<char>),
}

impl View for Outcome {
    type V = OutcomeView;

    open spec fn view(&self) -> OutcomeView {
        match self {
            Outcome::Done => OutcomeView::Done,
            Outcome::Cancelled => OutcomeView::Cancelled,
            Outcome::Failed(e) => OutcomeView::Failed(e@),
        }
    }
}

/// The end of a run drawn: the open paragraph closed, the calls without an
/// answer given their start line, the clock stopped, and why it ended where it
/// did not go well.
pub open spec fn run_closed(p: PaneView, mark: Seq<char>, out: OutcomeView) -> PaneView {
    let q = closed(p);
    let r = PaneView {
        rows: q.rows + abandoned_rows(q.tools, mark),
        tools: Seq::empty(),
        started: None,
        ..q
    };
    match out {
        OutcomeView::Done => r,
        OutcomeView::Cancelled => told(r, one_span("stopped"@, plain_style(Role::Muted))),
        OutcomeView::Failed(e) => told(
            r,
            seq![
                SpanView { content: "error"@, style: plain_style(Role::Failed) },
                SpanView { content: " "@ + e, style: plain_style(Role::Plain) },
            ],
        ),
    }
}

/// Draw the end of a run into the view that is on screen.
pub fn close_run(pane: &mut Pane, mark: &str, out: &Outcome)
    requires
        old(pane).valid(),
    ensures
        final(pane).valid(),
        final(pane)@ == run_closed(old(pane)@, mark@, out@),
{
    pane.close();
    pane.abandon_tools(mark);
    pane.started = None;
    match out {
        Outcome::Done => {},
        Outcome::Cancelled => {
            pane.say(Line::of("stopped", Style::of(Role::Muted)));
        },
        Outcome::Failed(e) => {
            let mut line = Line::empty();
            line.push(Span::styled("error".to_owned(), Style::of(Role::Failed)));
            let mut why = " ".to_owned();
            why.append(e.as_str());
            line.push(Span::styled(why, Style::of(Role::Plain)));
            assert(line@ =~= seq![
                SpanView { content: "error"@, style: plain_style(Role::Failed) },
                SpanView { content: " "@ + e@, style: plain_style(Role::Plain) },
            ]);
            pane.say(line);
        },
    }
}

/// A turn or a `!` that has come home.
#[derive(Debug, Clone, Copy, PartialEq, Eq, Structural)]
pub struct Job {
    /// A turn, rather than a `!` command.
    pub turn: bool,
    /// Whether the job brought the transcript back. One that panicked did not.
    pub came_back: bool,
    /// Whether the lane holds something safe to write over its save.
    pub recovered: bool,
    /// Whether it went well.
    pub ok: bool,
    /// Whether the prompt is to be taken back.
    pub unsend: bool,
    /// Whether its lane is the one on screen.
    pub front: bool,
}

/// What settling a job does beside the screen.
#[derive(Debug, Clone, Copy, PartialEq, Eq, Structural)]
pub struct Settled {
    /// Tell the model how the run ended.
    pub note_outcome: bool,
    /// Save the transcript.
    pub save: bool,
    /// Finish the phone's turn.
    pub finish_turn: bool,
    /// Count what the run spent.
    pub count: bool,
}

/// What settling a job does beside the screen.
///
/// Only a run that came back says why it ended; Esc that took the prompt back
/// produced nothing to misread as a task; and a `!` the user stopped was
/// theirs, not a request the model owes. The transcript is saved either way,
/// but not when it never came back: an empty one standing in for it would land
/// on top of what is on disk.
pub open spec fn settling(j: Job) -> Settled {
    Settled {
        note_outcome: j.came_back && !j.unsend && j.turn,
        save: j.recovered,
        finish_turn: j.turn && j.front,
        count: j.ok,
    }
}

/// What settling a turn or a `!` does beside the screen.
pub fn settle_run(j: &Job) -> (r: Settled)
    ensures
        r == settling(*j),
{
    Settled {
        note_outcome: j.came_back && !j.unsend && j.turn,
        save: j.recovered,
        finish_turn: j.turn && j.front,
        count: j.ok,
    }
}

/// What is said when the job that borrowed the transcript never returned it.
pub open spec fn recovery_form(verb: Seq<char>, why: Option<Seq<char>>) -> Seq<char> {
    match why {
        None => "the "@ + verb + " did not finish — back to the transcript as last saved"@,
        Some(why) => "the "@ + verb
            + " did not finish and its transcript could not be read back ("@ + why
            + ") — /new or /resume to use this checkout again"@,
    }
}

/// What is said when the job that borrowed the transcript never returned it:
/// the archive is back, or why it is not.
pub fn recovery(verb: &str, why: Option<&str>) -> (r: String)
    ensures
        r@ == recovery_form(verb@, crate::tui::bar::opt_view(why)),
{
    let mut r = "the ".to_owned();
    r.append(verb);
    match why {
        None => r.append(" did not finish — back to the transcript as last saved"),
        Some(why) => {
            r.append(" did not finish and its transcript could not be read back (");
            r.append(why);
            r.append(") — /new or /resume to use this checkout again");
        },
    }
    r
}

/// How a `/compact` ended.
#[derive(Debug, Clone, Copy, PartialEq, Eq, Structural)]
pub enum Compacted {
    /// There is a report of what it shrank: count it, show it, and save the
    /// transcript where it is safe to.
    Report { save: bool },
    /// It was stopped before it wrote anything.
    Stopped,
    /// There was nothing to shrink.
    Fits,
    /// The transcript is gone; that has been said.
    Lost,
}

/// What settling a `/compact` comes to.
pub open spec fn compaction(report: bool, stopped: bool, back: bool) -> Compacted {
    if report {
        Compacted::Report { save: back }
    } else if stopped {
        Compacted::Stopped
    } else if back {
        Compacted::Fits
    } else {
        Compacted::Lost
    }
}

/// What settling a `/compact` comes to: whether there is a report, whether it
/// was stopped, and whether the transcript is back.
pub fn settle_compact(report: bool, stopped: bool, back: bool) -> (r: Compacted)
    ensures
        r == compaction(report, stopped, back),
{
    if report {
        Compacted::Report { save: back }
    } else if stopped {
        Compacted::Stopped
    } else if back {
        Compacted::Fits
    } else {
        Compacted::Lost
    }
}

/// What is said of a transcript that already fits.
pub open spec fn fits_form(now: nat, held: nat) -> Seq<char> {
    "nothing to compact — "@ + decimal(now) + " tokens, all inside the "@ + decimal(held)
        + " kept as working context"@
}

/// What is said of a transcript that already fits.
pub fn fits_note(now: u64, held: u64) -> (r: String)
    ensures
        r@ == fits_form(now as nat, held as nat),
{
    let mut r = "nothing to compact — ".to_owned();
    crate::text::append_count(&mut r, now);
    r.append(" tokens, all inside the ");
    crate::text::append_count(&mut r, held);
    r.append(" kept as working context");
    r
}

// ---------------------------------------------------------------------------
// Rewinding
// ---------------------------------------------------------------------------

/// What a rewind left.
#[derive(Debug, Clone, PartialEq, Eq)]
pub enum Rewound {
    Nothing,
    /// A prompt was taken back, and this is its text.
    Unsent(String),
    /// The transcript ends at an entry, and this is what the entry shows.
    Kept(Option<String>),
    /// The transcript was cut but not saved.
    Failed(String),
}

/// What a rewind left, with its texts as sequences.
#[verifier::ext_equal]
pub enum RewoundView {
    Nothing,
    Unsent(Seq<char>),
    Kept(Option<Seq<char>>),
    Failed(Seq<char>),
}

impl View for Rewound {
    type V = RewoundView;

    open spec fn view(&self) -> RewoundView {
        match self {
            Rewound::Nothing => RewoundView::Nothing,
            Rewound::Unsent(s) => RewoundView::Unsent(s@),
            Rewound::Kept(s) => RewoundView::Kept(
                match s {
                    Some(s) => Some(s@),
                    None => None,
                },
            ),
            Rewound::Failed(e) => RewoundView::Failed(e@),
        }
    }
}

/// What is said of a transcript that was cut.
pub open spec fn kept_form(at: Option<Seq<char>>) -> Seq<char> {
    match at {
        Some(t) if cropped_text(t, 60).len() > 0 => "rewound"@ + " — the transcript now ends at "@
            + cropped_text(t, 60),
        _ => "rewound"@,
    }
}

/// What is said of a transcript that was cut, or of a prompt taken back.
pub open spec fn left_form(ui: UiView, out: RewoundView) -> Seq<char> {
    match out {
        RewoundView::Unsent(_) => if ui.editor.text.len() > 0 {
            "unsent — the line you were typing stands; Up recalls it"@
        } else {
            "unsent — the message is back in the editor"@
        },
        RewoundView::Kept(at) => kept_form(at),
        _ => Seq::empty(),
    }
}

/// What a rewind leaves on the screen and in the line. Unsent is half-typed, not
/// gone; but a line started meanwhile is the newer intent.
pub open spec fn rewound(ui: UiView, pane: PaneView, out: RewoundView, now: u64) -> (
    UiView,
    PaneView,
) {
    let muted = |s: Seq<char>| told(pane, one_span(s, plain_style(Role::Muted)));
    match out {
        RewoundView::Nothing => (flashed(ui, "nothing to rewind to"@, now), pane),
        RewoundView::Unsent(text) => if ui.editor.text.len() > 0 {
            (ui, muted("unsent — the line you were typing stands; Up recalls it"@))
        } else {
            (
                with_line_of(ui, ui.editor.showing(text)),
                muted("unsent — the message is back in the editor"@),
            )
        },
        RewoundView::Kept(at) => (ui, muted(kept_form(at))),
        RewoundView::Failed(e) => (
            ui,
            told(
                pane,
                one_span(
                    "warning: the transcript was not saved: "@ + e,
                    plain_style(Role::Plain),
                ),
            ),
        ),
    }
}

/// What a rewind leaves, with the conversation it went back to on the screen.
/// Rebuilding clears anything said before it: hence the notice after. Where
/// nothing was cut, or the cut was not saved, the screen stands as it was.
pub open spec fn turn_rewound(
    ui: UiView,
    pane: PaneView,
    out: RewoundView,
    session: Option<(Seq<EntryView>, Seq<u64>)>,
    mark: Seq<char>,
    now: u64,
) -> (UiView, PaneView) {
    let shown = match (out, session) {
        (RewoundView::Unsent(_), Some((history, unseen)))
        | (RewoundView::Kept(_), Some((history, unseen))) => restored(
            pane,
            history,
            unseen,
            mark,
        ),
        _ => pane,
    };
    rewound(ui, shown, out, now)
}

/// A text cut to `width` columns, with an ellipsis where something went.
pub fn clip_text(s: &str, width: usize) -> (r: String)
    ensures
        r@ == cropped_text(s@, width as int),
{
    let v = chars_of(s);
    let mut used: usize = 0;
    let mut i: usize = 0;
    let mut keep: usize = 0;
    assert(v@.take(0) =~= Seq::empty());
    while i < v.len()
        invariant_except_break
            keep < i ==> row_columns(v@.take(keep + 1)) > width - 1,
        invariant
            i <= v@.len(),
            keep <= i,
            used == row_columns(v@.take(i as int)),
            used <= width,
            keep > 0 ==> row_columns(v@.take(keep as int)) <= width - 1,
        ensures
            i == v@.len() || row_columns(v@.take(i + 1)) > width,
            i < v@.len() ==> row_columns(v@.take(keep + 1)) > width - 1,
        decreases v@.len() - i,
    {
        let w = columns_of(v[i]);
        assert(v@.take(i + 1).drop_last() =~= v@.take(i as int));
        assert(v@.take(i + 1).last() == v@[i as int]);
        if w > width - used {
            break;
        }
        used += w;
        if used < width && keep == i {
            keep = i + 1;
        }
        i += 1;
    }
    if i == v.len() {
        assert(v@.take(i as int) =~= v@);
        return s.to_owned();
    }
    proof {
        crate::tui::row::lemma_row_columns(v@, i + 1, v@.len() as int);
        assert(v@.take(v@.len() as int) =~= v@);
        crate::tui::row::lemma_widest(v@, width - 1, keep as int);
    }
    let mut kept = crate::text::copy_range(v.as_slice(), 0, keep);
    assert(kept@ =~= v@.take(keep as int));
    kept.push('…');
    string_of(kept.as_slice())
}

/// Say what a rewind left, and put a prompt it took back into the line.
pub fn land_rewind(ui: &mut Ui, pane: &mut Pane, out: &Rewound, now: u64)
    requires
        old(ui).valid(),
        old(pane).valid(),
    ensures
        final(ui).valid(),
        final(pane).valid(),
        (final(ui)@, final(pane)@) == rewound(old(ui)@, old(pane)@, out@, now),
{
    match out {
        Rewound::Nothing => {
            ui.say_flash("nothing to rewind to", now);
        },
        Rewound::Unsent(text) => {
            if !ui.editor.is_empty() {
                pane.say(
                    Line::of(
                        "unsent — the line you were typing stands; Up recalls it",
                        Style::of(Role::Muted),
                    ),
                );
            } else {
                ui.editor.set_line(text.as_str());
                pane.say(
                    Line::of(
                        "unsent — the message is back in the editor",
                        Style::of(Role::Muted),
                    ),
                );
            }
        },
        Rewound::Kept(at) => {
            let mut said = "rewound".to_owned();
            if let Some(t) = at {
                let shown = clip_text(t.as_str(), 60);
                if !shown.as_str().is_empty() {
                    said.append(" — the transcript now ends at ");
                    said.append(shown.as_str());
                }
            }
            assert(said@ == kept_form(
                match at {
                    Some(s) => Some(s@),
                    None => None,
                },
            ));
            pane.say(Line::of(said.as_str(), Style::of(Role::Muted)));
        },
        Rewound::Failed(e) => {
            let mut said = "warning: the transcript was not saved: ".to_owned();
            said.append(e.as_str());
            pane.say(Line::of(said.as_str(), Style::of(Role::Plain)));
        },
    }
}

/// Cut the transcript at an entry: rebuild the whole view from what is left of
/// it, so that the screen returns to the point the conversation did instead of
/// keeping the forgotten turns, and say what is left. `session` is what is left
/// of the transcript and what of it is out of the model's view, where the lane
/// has a session.
pub fn rewind_turn(
    ui: &mut Ui,
    pane: &mut Pane,
    out: &Rewound,
    session: Option<(&[Entry], &[u64])>,
    mark: &str,
    now: u64,
)
    requires
        old(ui).valid(),
        old(pane).valid(),
        session matches Some((history, _)) ==> old(pane).thinking.next + all_thoughts(
            entries_view(history@),
            history@.len() as int,
        ) <= u64::MAX,
    ensures
        final(ui).valid(),
        final(pane).valid(),
        (final(ui)@, final(pane)@) == turn_rewound(
            old(ui)@,
            old(pane)@,
            out@,
            match session {
                Some((history, unseen)) => Some((entries_view(history@), unseen@)),
                None => None,
            },
            mark@,
            now,
        ),
{
    let cut = match out {
        Rewound::Unsent(_) | Rewound::Kept(_) => true,
        Rewound::Nothing | Rewound::Failed(_) => false,
    };
    if cut {
        if let Some((history, unseen)) = session {
            pane.rebuild(history, unseen, mark);
        }
    }
    land_rewind(ui, pane, out, now);
}

/// A rewind that cut the transcript shows the conversation it went back to, row
/// by row, and behind it the one notice of what it left; a notice that reads the
/// same as the last row is counted on that row.
pub proof fn law_a_rewind_shows_the_conversation_and_one_notice(
    ui: UiView,
    pane: PaneView,
    out: RewoundView,
    history: Seq<EntryView>,
    unseen: Seq<u64>,
    mark: Seq<char>,
    now: u64,
)
    requires
        out is Unsent || out is Kept,
    ensures
        ({
            let all = restored(pane, history, unseen, mark).rows;
            let rows = turn_rewound(ui, pane, out, Some((history, unseen)), mark, now).1.rows;
            let line = one_span(left_form(ui, out), plain_style(Role::Muted));
            if all.len() > 0 && (all.last() matches RowView::Notice { text, times } && text == line
                && times < usize::MAX) {
                rows == all.update(
                    all.len() - 1,
                    RowView::Notice { text: line, times: all.last()->times + 1 },
                )
            } else {
                rows == all.push(notice_row(line))
            }
        }),
{
}

/// A point the conversation can go back to.
#[derive(Debug, Clone, PartialEq, Eq)]
pub struct Node {
    pub id: u64,
    pub show: String,
    /// What the user asked, rather than what the model answered.
    pub ask: bool,
}

/// The row the rewind selector shows for a point.
pub open spec fn node_row(id: u64, show: Seq<char>, ask: bool) -> MenuView {
    MenuView::Message {
        id,
        show: cropped_text(show, 60),
        help: if ask {
            "you — unsends it"@
        } else {
            "model — carries on from here"@
        },
    }
}

/// The rows of the rewind selector.
pub open spec fn node_rows(nodes: Seq<Node>) -> Seq<MenuView> {
    Seq::new(nodes.len(), |i: int| node_row(nodes[i].id, nodes[i].show@, nodes[i].ask))
}

/// Open the rewind selector on every point the conversation can go back to:
/// what the user asked, and what the model answered.
pub fn open_rewind(ui: &mut Ui, nodes: &[Node], now: u64)
    requires
        old(ui).valid(),
    ensures
        final(ui).valid(),
        final(ui)@ == if nodes@.len() == 0 {
            flashed(old(ui)@, "nothing to rewind to"@, now)
        } else {
            UiView {
                picked: Some((nodes@.len() - 1) as usize),
                rewind: node_rows(nodes@),
                ..old(ui)@
            }
        },
{
    if nodes.len() == 0 {
        ui.say_flash("nothing to rewind to", now);
        return;
    }
    let mut rows: Vec<MenuEntry> = Vec::new();
    let mut i: usize = 0;
    while i < nodes.len()
        invariant
            i <= nodes@.len(),
            rows@.len() == i,
            forall|k: int|
                0 <= k < i ==> (#[trigger] rows@[k])@ == node_row(
                    nodes@[k].id,
                    nodes@[k].show@,
                    nodes@[k].ask,
                ),
        decreases nodes@.len() - i,
    {
        let show = clip_text(nodes[i].show.as_str(), 60);
        let help = if nodes[i].ask {
            "you — unsends it".to_owned()
        } else {
            "model — carries on from here".to_owned()
        };
        rows.push(MenuEntry::Message { id: nodes[i].id, show, help });
        i += 1;
    }
    assert(menu_view(rows@) =~= node_rows(nodes@));
    ui.open_rewind(rows);
}

// ---------------------------------------------------------------------------
// The user's own editor
// ---------------------------------------------------------------------------

/// What came of handing the line to an editor.
#[derive(Debug, Clone, PartialEq, Eq)]
pub enum Ran {
    /// It never ran, and why.
    Lost(String),
    /// It could not be started, and why.
    NotStarted(String),
    /// It exited badly, and how.
    Exited(String),
    /// It saved, and the file reads so.
    Saved(String),
    /// It saved, and the file could not be read back, and why.
    Unread(String),
}

/// What came of it, with its texts as sequences.
#[verifier::ext_equal]
pub enum RanView {
    Lost(Seq<char>),
    NotStarted(Seq<char>),
    Exited(Seq<char>),
    Saved(Seq<char>),
    Unread(Seq<char>),
}

impl View for Ran {
    type V = RanView;

    open spec fn view(&self) -> RanView {
        match self {
            Ran::Lost(s) => RanView::Lost(s@),
            Ran::NotStarted(s) => RanView::NotStarted(s@),
            Ran::Exited(s) => RanView::Exited(s@),
            Ran::Saved(s) => RanView::Saved(s@),
            Ran::Unread(s) => RanView::Unread(s@),
        }
    }
}

/// What is said of the editor, if anything.
pub open spec fn ran_form(ran: RanView, path: Seq<char>) -> Option<Seq<char>> {
    match ran {
        RanView::Lost(e) => Some("the editor did not run: "@ + e),
        RanView::NotStarted(e) => Some("could not run the editor: "@ + e),
        RanView::Exited(s) => Some("editor exited "@ + s + " — the line is unchanged"@),
        RanView::Saved(_) => None,
        RanView::Unread(e) => Some(
            "saved at "@ + path + " — could not read it back: "@ + e,
        ),
    }
}

/// What the editor leaves: the line, a note, and whether the file is kept. A
/// save that succeeded is still a save when the screen comes back badly. A
/// surface that did not come back cannot show anything, so the file stays as the
/// way out; and what could not be read back is the only copy of what was
/// written.
pub open spec fn edited_outside(
    ui: UiView,
    ran: RanView,
    screen: Option<Seq<char>>,
    path: Seq<char>,
    now: u64,
) -> (UiView, bool) {
    let line = match ran {
        RanView::Saved(text) => with_line_of(ui, ui.editor.showing(crate::text::trim_end(text))),
        _ => ui,
    };
    let said = match screen {
        Some(e) => Some("the screen did not come back: "@ + e + " — line at "@ + path),
        None => ran_form(ran, path),
    };
    (
        match said {
            Some(s) => flashed(line, s, now),
            None => line,
        },
        screen is Some || ran is Unread,
    )
}

/// Take back what the user's editor left of the line: whether the file it was
/// given is to be kept. `screen` says why the screen did not come back, if it
/// did not.
pub fn land_edit(
    ui: &mut Ui,
    pane: &mut Pane,
    ran: &Ran,
    screen: Option<&str>,
    path: &str,
    now: u64,
) -> (keep: bool)
    requires
        old(ui).valid(),
        old(pane).valid(),
    ensures
        final(ui).valid(),
        final(pane).valid(),
        (final(ui)@, keep) == edited_outside(
            old(ui)@,
            ran@,
            crate::tui::bar::opt_view(screen),
            path@,
            now,
        ),
        // A resize while the child held the terminal raised no event.
        final(pane)@ == (PaneView { counted: None, ..old(pane)@ }),
{
    pane.counted = None;
    let mut keep = false;
    let mut said: Option<String> = None;
    match ran {
        Ran::Lost(e) => {
            let mut s = "the editor did not run: ".to_owned();
            s.append(e.as_str());
            said = Some(s);
        },
        Ran::NotStarted(e) => {
            let mut s = "could not run the editor: ".to_owned();
            s.append(e.as_str());
            said = Some(s);
        },
        Ran::Exited(how) => {
            let mut s = "editor exited ".to_owned();
            s.append(how.as_str());
            s.append(" — the line is unchanged");
            said = Some(s);
        },
        Ran::Saved(text) => {
            let v = chars_of(text.as_str());
            let end = crate::text::skip_white_back(v.as_slice(), v.len());
            assert(v@.take(v@.len() as int) =~= v@);
            let kept = crate::text::copy_range(v.as_slice(), 0, end);
            assert(kept@ =~= v@.take(end as int));
            let line = string_of(kept.as_slice());
            ui.editor.set_line(line.as_str());
        },
        Ran::Unread(e) => {
            keep = true;
            let mut s = "saved at ".to_owned();
            s.append(path);
            s.append(" — could not read it back: ");
            s.append(e.as_str());
            said = Some(s);
        },
    }
    if let Some(e) = screen {
        keep = true;
        let mut s = "the screen did not come back: ".to_owned();
        s.append(e);
        s.append(" — line at ");
        s.append(path);
        said = Some(s);
    }
    if let Some(s) = &said {
        ui.say_flash(s.as_str(), now);
    }
    keep
}

/// How many recalled lines are kept: enough to recall from without the file
/// growing without bound.
pub const HISTORY_KEEP: usize = 1000;

/// The last of the recalled lines, as many as are kept.
pub open spec fn kept_history(all: Seq<Seq<char>>) -> Seq<Seq<char>> {
    if all.len() <= HISTORY_KEEP {
        all
    } else {
        all.skip(all.len() - HISTORY_KEEP)
    }
}

/// The recall history as it is written to disk.
pub fn history_file(editor: &Editor) -> (r: String)
    ensures
        r@ == encoded(kept_history(editor.state().history)),
{
    let all = editor.history();
    let ghost every = texts(all@);
    assert(every.len() == all@.len());
    let from: usize = if all.len() <= HISTORY_KEEP {
        0
    } else {
        all.len() - HISTORY_KEEP
    };
    let mut kept: Vec<String> = Vec::new();
    let mut i: usize = from;
    while i < all.len()
        invariant
            from <= i <= all@.len(),
            every == texts(all@),
            texts(kept@) == every.subrange(from as int, i as int),
        decreases all@.len() - i,
    {
        let ghost before = texts(kept@);
        let s = all[i].clone();
        assert(every[i as int] == s@);
        kept.push(s);
        assert(texts(kept@) =~= before.push(s@));
        assert(texts(kept@) =~= every.subrange(from as int, i + 1));
        i += 1;
    }
    assert(texts(kept@) =~= kept_history(every));
    encode(kept.as_slice())
}

// ---------------------------------------------------------------------------
// Laws
// ---------------------------------------------------------------------------

/// An idle lane admits everything, whatever an intent's fate would be.
pub proof fn law_an_idle_lane_admits_everything(
    ui: UiView,
    pane: PaneView,
    intent: IntentView,
    fate: FateView,
    now: u64,
)
    ensures
        admitted(ui, pane, intent, false, fate, now) == (ui, pane, Some(intent)),
{
}

/// Nothing that was asked during a run is lost in silence: it is carried out,
/// queued, or answered with a flash.
pub proof fn law_nothing_is_lost_at_the_door(
    ui: UiView,
    pane: PaneView,
    intent: IntentView,
    fate: FateView,
    now: u64,
)
    ensures
        ({
            let (u, p, out) = admitted(ui, pane, intent, true, fate, now);
            ||| out == Some(intent)
            ||| p.queued == pane.queued.push(intent)
            ||| fate matches FateView::Refused(why) && u.flash == Some((why, now))
        }),
{
}

/// A stopped loop leaves none of its rounds behind in the queue.
pub proof fn law_a_stopped_loop_leaves_no_rounds(queued: Seq<IntentView>, i: int)
    requires
        0 <= i < without_rounds(queued).len(),
    ensures
        without_rounds(queued)[i] !is LoopRound,
    decreases queued.len(),
{
    if queued.len() > 0 {
        if queued[0] is LoopRound {
            law_a_stopped_loop_leaves_no_rounds(queued.skip(1), i);
        } else if i > 0 {
            law_a_stopped_loop_leaves_no_rounds(queued.skip(1), i - 1);
        }
    }
}

/// A round that outlived its loop does nothing: neither the screen nor the loop
/// moves.
pub proof fn law_a_round_without_its_loop_is_dropped(
    ui: UiView,
    pane: PaneView,
    line: Seq<char>,
    now: u64,
)
    ensures
        routed(ui, pane, None, IntentView::LoopRound(line), now) == (Routed {
            ui,
            pane,
            looping: None,
            route: RouteView::Done,
        }),
{
}

/// A stopped `!` never tells the model that a request was cancelled, and a
/// transcript that never came back is never saved over the one on disk.
pub proof fn law_settling_tells_and_saves_only_what_is_so(j: Job)
    ensures
        !j.turn ==> !settling(j).note_outcome,
        !j.recovered ==> !settling(j).save,
        !j.front ==> !settling(j).finish_turn,
{
}

/// Every run that ends leaves nothing spinning: no call is still running, and
/// the clock has stopped.
pub proof fn law_a_closed_run_leaves_nothing_running(p: PaneView, mark: Seq<char>, out: OutcomeView)
    ensures
        run_closed(p, mark, out).tools.len() == 0,
        run_closed(p, mark, out).started is None,
        run_closed(p, mark, out).partial.len() == 0,
{
}

} // verus!
