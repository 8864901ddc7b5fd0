//! The lanes: one checkout each, with the run it is working on, what that run
//! posted while nobody looked, and the screen it is drawn on.
//!
//! A lane out of sight is not drawn. What its run left to draw waits with it,
//! and is drawn the moment the lane comes to the front.

use crate::text::texts;
use crate::tui::bar::opt_view;
use crate::tui::line::{lines_view, Line, Role, SpanView};
use crate::tui::looping::{loop_view, round_form, stepped, Loops, LoopingView, RoundView};
use crate::tui::intent::IntentView;
use crate::tui::pane::{
    after_event, events_view, held_back, hold_back, noticed, opening_pane, replayed, told, Event,
    EventView, Pane, PaneView,
};
use crate::tui::surface::{
    arm_view, close_run, fits_form, fits_note, news_of, recovery, recovery_form, replay, run_closed,
    say_of, settle_compact, compaction, step_loop, Compacted, Outcome, OutcomeView,
};
use crate::tui::ui::{flashed, left_lane, Ui};
use vstd::prelude::*;
use vstd::string::*;

verus! {

/// What a lane is doing.
#[derive(Debug, Clone, PartialEq, Eq)]
pub enum Work {
    Idle,
    /// A job is under way, and whether its prompt is to be taken back.
    Running { unsend: bool },
    /// A run ended out of sight, and this is what is left to draw of it.
    Ended { out: Outcome, unsend: bool },
}

/// What a lane is doing, with its texts as sequences.
#[verifier::ext_equal]
pub enum WorkView {
    Idle,
    Running { unsend: bool },
    Ended { out: OutcomeView, unsend: bool },
}

impl View for Work {
    type V = WorkView;

    open spec fn view(&self) -> WorkView {
        match self {
            Work::Idle => WorkView::Idle,
            Work::Running { unsend } => WorkView::Running { unsend: *unsend },
            Work::Ended { out, unsend } => WorkView::Ended { out: out@, unsend: *unsend },
        }
    }
}

/// One lane.
pub struct Lane {
    /// The worktree it is in; none in the main checkout.
    pub worktree: Option<String>,
    pub work: Work,
    /// What its run posted while the screen was elsewhere.
    pub pending: Vec<Event>,
    pub loops: Loops,
    pub pane: Pane,
}

/// A lane, with its texts as sequences.
#[verifier::ext_equal]
pub struct LaneView {
    pub worktree: Option<Seq<char>>,
    pub work: WorkView,
    pub pending: Seq<EventView>,
    pub looping: Option<LoopingView>,
    pub pane: PaneView,
}

impl View for Lane {
    type V = LaneView;

    open spec fn view(&self) -> LaneView {
        LaneView {
            worktree: match self.worktree {
                Some(w) => Some(w@),
                None => None,
            },
            work: self.work@,
            pending: events_view(self.pending@),
            looping: loop_view(self.loops.looping),
            pane: self.pane@,
        }
    }
}

/// The lanes there are, and the one in front.
pub struct Lanes {
    pub lanes: Vec<Lane>,
    pub current: usize,
}

/// The lanes, with their texts as sequences.
#[verifier::ext_equal]
pub struct LanesView {
    pub lanes: Seq<LaneView>,
    pub current: int,
}

impl View for Lanes {
    type V = LanesView;

    open spec fn view(&self) -> LanesView {
        LanesView {
            lanes: Seq::new(self.lanes@.len(), |i: int| self.lanes@[i]@),
            current: self.current as int,
        }
    }
}

impl LanesView {
    /// The lanes with one of them changed.
    pub open spec fn with(self, at: int, lane: LaneView) -> LanesView {
        LanesView { lanes: self.lanes.update(at, lane), ..self }
    }

    /// The lanes with the screen of one of them changed.
    pub open spec fn drawing(self, at: int, pane: PaneView) -> LanesView {
        self.with(at, LaneView { pane, ..self.lanes[at] })
    }
}

/// News from a lane, on the screen actually being watched.
pub open spec fn said_of(s: LanesView, lane: int, what: Seq<char>, role: Role) -> LanesView {
    s.drawing(
        s.current,
        told(
            s.lanes[s.current].pane,
            news_of(lane == s.current, s.lanes[lane].worktree, what, role),
        ),
    )
}

/// An event of a lane's run: drawn where the lane is in front, and kept for when
/// it will be where it is not.
pub open spec fn served(s: LanesView, lane: int, e: EventView) -> LanesView {
    let l = s.lanes[lane];
    if lane == s.current {
        s.drawing(lane, after_event(l.pane, e))
    } else {
        s.with(lane, LaneView { pending: held_back(l.pending, e), ..l })
    }
}

/// A lane come to the front: its opening where it was never drawn, what its run
/// posted meanwhile in the order it arrived, and the end of the run if it
/// reached one out of sight.
pub open spec fn entered(l: LaneView, opening: PaneView, mark: Seq<char>) -> LaneView {
    let shown = if l.pane.drawn {
        l.pane
    } else {
        opening
    };
    let caught_up = replayed(shown, l.pending);
    match l.work {
        WorkView::Ended { out, .. } => LaneView {
            work: WorkView::Idle,
            pending: Seq::empty(),
            pane: run_closed(caught_up, mark, out),
            ..l
        },
        _ => LaneView { pending: Seq::empty(), pane: caught_up, ..l },
    }
}

/// A job that has come home.
#[derive(Debug, Clone, PartialEq, Eq)]
pub enum End {
    /// It brought the transcript back, and says how it went.
    Back(Outcome),
    /// It did not, and the transcript as last saved is in its place.
    Recovered,
    /// It did not, and the last save could not be read back.
    Lost(String),
}

/// A job that has come home, with its texts as sequences.
#[verifier::ext_equal]
pub enum EndView {
    Back(OutcomeView),
    Recovered,
    Lost(Seq<char>),
}

impl View for End {
    type V = EndView;

    open spec fn view(&self) -> EndView {
        match self {
            End::Back(o) => EndView::Back(o@),
            End::Recovered => EndView::Recovered,
            End::Lost(why) => EndView::Lost(why@),
        }
    }
}

/// How a run counts as having ended: one that never came back was cut.
pub open spec fn ended_as(end: EndView) -> OutcomeView {
    match end {
        EndView::Back(o) => o,
        _ => OutcomeView::Cancelled,
    }
}

/// What is said of a job that did not bring the transcript back.
pub open spec fn recovered_of(s: LanesView, lane: int, verb: Seq<char>, end: EndView) -> LanesView {
    match end {
        EndView::Back(_) => s,
        EndView::Recovered => said_of(s, lane, recovery_form(verb, None), Role::Plain),
        EndView::Lost(why) => said_of(s, lane, recovery_form(verb, Some(why)), Role::Plain),
    }
}

/// What is said of a save that failed.
pub open spec fn unsaved(s: LanesView, lane: int, why: Option<Seq<char>>) -> LanesView {
    match why {
        Some(e) => said_of(
            s,
            lane,
            "warning: the transcript was not saved: "@ + e,
            Role::Plain,
        ),
        None => s,
    }
}

/// The lane's loop carried past the turn that has ended: the next round queued
/// with the lane, wherever it is, and what became of it said on screen.
pub open spec fn loop_stepped(s: LanesView, lane: int, finished: bool, cap: Option<usize>) -> LanesView {
    let l = s.lanes[lane];
    let (looping, round) = stepped(l.looping, finished, cap);
    let pane = match round {
        Some(RoundView::Again { goal, .. }) => PaneView {
            queued: l.pane.queued.push(IntentView::LoopRound(goal)),
            ..l.pane
        },
        _ => l.pane,
    };
    let s = s.with(lane, LaneView { looping, pane, ..l });
    match round {
        Some(r) => said_of(s, lane, round_form(r), Role::Plain),
        None => s,
    }
}

/// The lanes once a turn or a `!` has ended, and whether its prompt is to be
/// taken back now. Drawn only where the lane is on screen; elsewhere what is left
/// to draw waits with it.
pub open spec fn run_landed(
    s: LanesView,
    lane: int,
    end: EndView,
    save: Option<Seq<char>>,
    lines: Seq<Seq<SpanView>>,
    unsend: bool,
    cap: Option<usize>,
    mark: Seq<char>,
) -> (LanesView, bool) {
    let out = ended_as(end);
    let s = recovered_of(s, lane, "run"@, end);
    let s = if end is Lost {
        s
    } else {
        unsaved(s, lane, save)
    };
    // A `!` command's output comes home whole rather than as events, so this is
    // the only place it can reach the view that asked for it.
    let s = s.drawing(lane, noticed(s.lanes[lane].pane, lines));
    let s = loop_stepped(s, lane, out is Done && !unsend, cap);
    if lane != s.current {
        (s.with(lane, LaneView { work: WorkView::Ended { out, unsend }, ..s.lanes[lane] }), false)
    } else {
        (s.drawing(lane, run_closed(s.lanes[lane].pane, mark, out)), unsend)
    }
}

/// The lanes once a `/compact` has ended.
pub open spec fn compact_landed(
    s: LanesView,
    lane: int,
    end: EndView,
    report: bool,
    save: Option<Seq<char>>,
    now: nat,
    held: nat,
) -> LanesView {
    let s = recovered_of(s, lane, "compaction"@, end);
    let s = match compaction(
        report,
        end == EndView::Back(OutcomeView::Cancelled),
        !(end is Lost),
    ) {
        Compacted::Report { save: true } => unsaved(s, lane, save),
        Compacted::Report { save: false } => s,
        Compacted::Stopped => said_of(s, lane, "stopped"@, Role::Muted),
        Compacted::Fits => said_of(s, lane, fits_form(now, held), Role::Plain),
        Compacted::Lost => s,
    };
    s.drawing(lane, PaneView { started: None, ..s.lanes[lane].pane })
}

impl Lane {
    /// Whether a job is under way.
    pub fn is_running(&self) -> (r: bool)
        ensures
            r == (self@.work is Running),
    {
        match self.work {
            Work::Running { .. } => true,
            _ => false,
        }
    }
}

impl Lanes {
    /// There is a lane in front, and every screen is one that can be drawn.
    pub open spec fn valid(&self) -> bool {
        &&& self.current < self.lanes@.len()
        &&& forall|i: int| 0 <= i < self.lanes@.len() ==> (#[trigger] self.lanes@[i]).pane.valid()
    }

    /// Say something about a lane on the screen actually being watched.
    pub fn say_of(&mut self, lane: usize, what: &str, role: Role)
        requires
            old(self).valid(),
            lane < old(self).lanes@.len(),
        ensures
            final(self).valid(),
            final(self).lanes@.len() == old(self).lanes@.len(),
            final(self)@ == said_of(old(self)@, lane as int, what@, role),
    {
        let ghost before = self@;
        let at = self.current;
        let worktree: Option<String> = match &self.lanes[lane].worktree {
            Some(w) => Some(w.clone()),
            None => None,
        };
        let name: Option<&str> = match &worktree {
            Some(w) => Some(w.as_str()),
            None => None,
        };
        assert(before.lanes[lane as int] == self.lanes@[lane as int]@);
        assert(before.lanes[at as int] == self.lanes@[at as int]@);
        say_of(&mut self.lanes[at].pane, lane == at, name, what, role);
        assert(self@ =~= said_of(before, lane as int, what@, role));
    }

    /// Take an event a lane's run has posted: into the view when the lane is in
    /// front, into its own backlog when it is not. Whether it was drawn: the
    /// phone hears of the lane in front alone.
    pub fn serve(&mut self, lane: usize, event: Event) -> (drawn: bool)
        requires
            old(self).valid(),
            lane < old(self).lanes@.len(),
            old(self).lanes@[lane as int].pane.thinking.next < u64::MAX,
        ensures
            final(self).valid(),
            final(self).lanes@.len() == old(self).lanes@.len(),
            drawn == (lane == old(self).current),
            final(self)@ == served(old(self)@, lane as int, event@),
    {
        let ghost before = self@;
        assert(before.lanes[lane as int] == self.lanes@[lane as int]@);
        let ghost e = event@;
        if lane == self.current {
            self.lanes[lane].pane.on_event(event);
            assert(self@ =~= served(before, lane as int, e));
            true
        } else {
            hold_back(&mut self.lanes[lane].pending, event);
            assert(self@ =~= served(before, lane as int, e));
            false
        }
    }

    /// A job starts on the lane in front: the clock runs. Without a transcript to
    /// lend it nothing starts, and a flash says so. `committed` says whether the
    /// prompt behind it can no longer be taken back; `model` is the one that a
    /// turn is sent to, which a later switch does not change under it.
    pub fn start(
        &mut self,
        ui: &mut Ui,
        transcript: bool,
        committed: bool,
        model: Option<&str>,
        now: u64,
    ) -> (r: bool)
        requires
            old(self).valid(),
            old(ui).valid(),
        ensures
            final(self).valid(),
            final(ui).valid(),
            final(self).lanes@.len() == old(self).lanes@.len(),
            r == transcript,
            final(ui)@ == if transcript {
                old(ui)@
            } else {
                flashed(
                    old(ui)@,
                    "this checkout has no transcript — /new or /resume first"@,
                    now,
                )
            },
            final(self)@ == if transcript {
                let l = old(self)@.lanes[old(self)@.current];
                old(self)@.with(
                    old(self)@.current,
                    LaneView {
                        work: WorkView::Running { unsend: false },
                        pane: PaneView {
                            started: Some(now),
                            committed,
                            stopping: false,
                            model: match opt_view(model) {
                                Some(m) => m,
                                None => l.pane.model,
                            },
                            ..l.pane
                        },
                        ..l
                    },
                )
            } else {
                old(self)@
            },
    {
        if !transcript {
            ui.say_flash("this checkout has no transcript — /new or /resume first", now);
            return false;
        }
        let ghost before = self@;
        let at = self.current;
        assert(before.lanes[at as int] == self.lanes@[at as int]@);
        arm_view(&mut self.lanes[at].pane, committed, now);
        if let Some(m) = model {
            self.lanes[at].pane.model = m.to_owned();
        }
        self.lanes[at].work = Work::Running { unsend: false };
        assert(self@.lanes =~= before.with(
            at as int,
            LaneView {
                work: WorkView::Running { unsend: false },
                pane: PaneView {
                    started: Some(now),
                    committed,
                    stopping: false,
                    model: match opt_view(model) {
                        Some(m) => m,
                        None => before.lanes[at as int].pane.model,
                    },
                    ..before.lanes[at as int].pane
                },
                ..before.lanes[at as int]
            },
        ).lanes);
        true
    }

    /// Stop the run in front, if there is one, and take its prompt back once it
    /// has stopped where that was asked; whether there is one to stop.
    pub fn stop_current(&mut self, ui: &mut Ui, unsend: bool, now: u64) -> (r: bool)
        requires
            old(self).valid(),
            old(ui).valid(),
        ensures
            final(self).valid(),
            final(ui).valid(),
            final(self).lanes@.len() == old(self).lanes@.len(),
            r == (old(self)@.lanes[old(self)@.current].work is Running),
            final(ui)@ == if r {
                old(ui)@
            } else {
                flashed(old(ui)@, "nothing running to stop"@, now)
            },
            final(self)@ == if r {
                let l = old(self)@.lanes[old(self)@.current];
                old(self)@.with(
                    old(self)@.current,
                    LaneView {
                        work: WorkView::Running { unsend },
                        pane: PaneView { stopping: true, ..l.pane },
                        ..l
                    },
                )
            } else {
                old(self)@
            },
    {
        let ghost before = self@;
        let at = self.current;
        assert(before.lanes[at as int] == self.lanes@[at as int]@);
        if !self.lanes[at].is_running() {
            ui.say_flash("nothing running to stop", now);
            return false;
        }
        self.lanes[at].work = Work::Running { unsend };
        self.lanes[at].pane.stopping = true;
        assert(self@.lanes =~= before.with(
            at as int,
            LaneView {
                work: WorkView::Running { unsend },
                pane: PaneView { stopping: true, ..before.lanes[at as int].pane },
                ..before.lanes[at as int]
            },
        ).lanes);
        true
    }

    /// A lane's job is over, whatever kind it was: the lane is free again.
    /// Whether its prompt is to be taken back.
    pub fn finish(&mut self, lane: usize) -> (unsend: bool)
        requires
            old(self).valid(),
            lane < old(self).lanes@.len(),
        ensures
            final(self).valid(),
            final(self).lanes@.len() == old(self).lanes@.len(),
            unsend == (old(self)@.lanes[lane as int].work == WorkView::Running { unsend: true }),
            final(self)@ == old(self)@.with(
                lane as int,
                LaneView { work: WorkView::Idle, ..old(self)@.lanes[lane as int] },
            ),
    {
        let ghost before = self@;
        assert(before.lanes[lane as int] == self.lanes@[lane as int]@);
        let unsend = match self.lanes[lane].work {
            Work::Running { unsend } => unsend,
            _ => false,
        };
        self.lanes[lane].work = Work::Idle;
        assert(self@.lanes =~= before.with(
            lane as int,
            LaneView { work: WorkView::Idle, ..before.lanes[lane as int] },
        ).lanes);
        unsend
    }

    fn say_recovered(&mut self, lane: usize, verb: &str, end: &End)
        requires
            old(self).valid(),
            lane < old(self).lanes@.len(),
        ensures
            final(self).valid(),
            final(self).lanes@.len() == old(self).lanes@.len(),
            final(self)@ == recovered_of(old(self)@, lane as int, verb@, end@),
    {
        match end {
            End::Back(_) => {},
            End::Recovered => {
                let said = recovery(verb, None);
                self.say_of(lane, said.as_str(), Role::Plain);
            },
            End::Lost(why) => {
                let said = recovery(verb, Some(why.as_str()));
                self.say_of(lane, said.as_str(), Role::Plain);
            },
        }
    }

    fn say_unsaved(&mut self, lane: usize, why: Option<&str>)
        requires
            old(self).valid(),
            lane < old(self).lanes@.len(),
        ensures
            final(self).valid(),
            final(self).lanes@.len() == old(self).lanes@.len(),
            final(self)@ == unsaved(old(self)@, lane as int, opt_view(why)),
    {
        if let Some(e) = why {
            let mut said = "warning: the transcript was not saved: ".to_owned();
            said.append(e);
            self.say_of(lane, said.as_str(), Role::Plain);
        }
    }

    fn carry_loop(&mut self, lane: usize, finished: bool, cap: Option<usize>)
        requires
            old(self).valid(),
            lane < old(self).lanes@.len(),
            loop_view(old(self).lanes@[lane as int].loops.looping) matches Some(l) ==> l.round
                < usize::MAX,
        ensures
            final(self).valid(),
            final(self).lanes@.len() == old(self).lanes@.len(),
            final(self)@ == loop_stepped(old(self)@, lane as int, finished, cap),
    {
        let ghost before = self@;
        assert(before.lanes[lane as int] == self.lanes@[lane as int]@);
        let mut loops = Loops::new();
        std::mem::swap(&mut loops, &mut self.lanes[lane].loops);
        let said = step_loop(&mut self.lanes[lane].pane, &mut loops, finished, cap);
        self.lanes[lane].loops = loops;
        let ghost l = before.lanes[lane as int];
        let ghost (looping, round) = stepped(l.looping, finished, cap);
        let ghost pane = match round {
            Some(RoundView::Again { goal, .. }) => PaneView {
                queued: l.pane.queued.push(IntentView::LoopRound(goal)),
                ..l.pane
            },
            _ => l.pane,
        };
        assert(self@.lanes =~= before.with(lane as int, LaneView { looping, pane, ..l }).lanes);
        if let Some(s) = said {
            self.say_of(lane, s.as_str(), Role::Plain);
        }
    }

    /// A turn or a `!` has ended, and its lane is free again: say what there is
    /// to say, show a command's output, carry the loop on, and draw the end of it
    /// where the lane is on screen. `save` is why the save failed, where one was
    /// made and did. Whether the prompt is to be taken back now.
    pub fn land_run(
        &mut self,
        lane: usize,
        end: &End,
        save: Option<&str>,
        lines: Vec<Line>,
        unsend: bool,
        cap: Option<usize>,
        mark: &str,
    ) -> (rewind: bool)
        requires
            old(self).valid(),
            lane < old(self).lanes@.len(),
            loop_view(old(self).lanes@[lane as int].loops.looping) matches Some(l) ==> l.round
                < usize::MAX,
        ensures
            final(self).valid(),
            final(self).lanes@.len() == old(self).lanes@.len(),
            (final(self)@, rewind) == run_landed(
                old(self)@,
                lane as int,
                end@,
                opt_view(save),
                lines_view(lines@),
                unsend,
                cap,
                mark@,
            ),
    {
        let ghost start = self@;
        let ghost shown = lines_view(lines@);
        let out = match end {
            End::Back(o) => copy_outcome(o),
            _ => Outcome::Cancelled,
        };
        assert(start.lanes[lane as int] == self.lanes@[lane as int]@);
        self.say_recovered(lane, "run", end);
        let ghost s1 = self@;
        assert(s1.lanes[lane as int].looping == start.lanes[lane as int].looping);
        let lost = match end {
            End::Lost(_) => true,
            _ => false,
        };
        if !lost {
            self.say_unsaved(lane, save);
        }
        let ghost s2 = self@;
        assert(s2.lanes[lane as int].looping == start.lanes[lane as int].looping);
        assert(s2.lanes[lane as int] == self.lanes@[lane as int]@);
        self.lanes[lane].pane.notices(lines);
        assert(self@ =~= s2.drawing(lane as int, noticed(s2.lanes[lane as int].pane, shown)));
        let ghost s3 = self@;
        assert(s3.lanes[lane as int] == self.lanes@[lane as int]@);
        let finished = match &out {
            Outcome::Done => !unsend,
            _ => false,
        };
        self.carry_loop(lane, finished, cap);
        let ghost s4 = self@;
        assert(s4.lanes[lane as int] == self.lanes@[lane as int]@);
        if lane != self.current {
            let ghost o = out@;
            self.lanes[lane].work = Work::Ended { out, unsend };
            assert(self@ =~= s4.with(
                lane as int,
                LaneView {
                    work: WorkView::Ended { out: o, unsend },
                    ..s4.lanes[lane as int]
                },
            ));
            return false;
        }
        close_run(&mut self.lanes[lane].pane, mark, &out);
        assert(self@ =~= s4.drawing(
            lane as int,
            run_closed(s4.lanes[lane as int].pane, mark@, out@),
        ));
        unsend
    }

    /// A `/compact` has ended, and its lane is free again: show what the pass
    /// did, or say that there was nothing to shrink. `now` and `held` are the
    /// tokens there are and those kept as working context.
    pub fn land_compact(
        &mut self,
        lane: usize,
        end: &End,
        report: bool,
        save: Option<&str>,
        now: u64,
        held: u64,
    )
        requires
            old(self).valid(),
            lane < old(self).lanes@.len(),
        ensures
            final(self).valid(),
            final(self).lanes@.len() == old(self).lanes@.len(),
            final(self)@ == compact_landed(
                old(self)@,
                lane as int,
                end@,
                report,
                opt_view(save),
                now as nat,
                held as nat,
            ),
    {
        let stopped = match end {
            End::Back(Outcome::Cancelled) => true,
            _ => false,
        };
        let back = match end {
            End::Lost(_) => false,
            _ => true,
        };
        self.say_recovered(lane, "compaction", end);
        match settle_compact(report, stopped, back) {
            Compacted::Report { save: safe } => {
                if safe {
                    self.say_unsaved(lane, save);
                }
            },
            Compacted::Stopped => {
                self.say_of(lane, "stopped", Role::Muted);
            },
            Compacted::Fits => {
                let said = fits_note(now, held);
                self.say_of(lane, said.as_str(), Role::Plain);
            },
            Compacted::Lost => {},
        }
        let ghost s = self@;
        assert(s.lanes[lane as int] == self.lanes@[lane as int]@);
        self.lanes[lane].pane.started = None;
        assert(self@ =~= s.drawing(
            lane as int,
            PaneView { started: None, ..s.lanes[lane as int].pane },
        ));
    }

    /// Bring the screen into step after the lane in front has changed from `was`:
    /// the draft stays behind, and the lane catches up with what happened out of
    /// sight. Whether a prompt is to be taken back: the asking does not go stale
    /// because the answer arrived late.
    pub fn reconcile(
        &mut self,
        ui: &mut Ui,
        was: usize,
        version: &str,
        context: &[String],
        mark: &str,
    ) -> (rewind: bool)
        requires
            old(self).valid(),
            old(ui).valid(),
            old(self).lanes@[old(self).current as int].pane.thinking.next + old(self).lanes@[old(
                self,
            ).current as int].pending@.len() <= u64::MAX,
            old(self).lanes@[old(self).current as int].pending@.len() < u64::MAX,
        ensures
            final(self).valid(),
            final(ui).valid(),
            final(self).lanes@.len() == old(self).lanes@.len(),
            ({
                let s = old(self)@;
                let l = s.lanes[s.current];
                if was == s.current {
                    !rewind && final(self)@ == s && final(ui)@ == old(ui)@
                } else {
                    &&& final(ui)@ == left_lane(old(ui)@)
                    &&& final(self)@ == s.with(
                        s.current,
                        entered(l, opening_pane(version@, texts(context@)), mark@),
                    )
                    &&& rewind == (l.work matches WorkView::Ended { unsend, .. } && unsend)
                }
            }),
    {
        if was == self.current {
            return false;
        }
        let ghost before = self@;
        let at = self.current;
        let ghost l = before.lanes[at as int];
        assert(l == self.lanes@[at as int]@);
        ui.leave_lane();
        if !self.lanes[at].pane.drawn {
            self.lanes[at].pane = Pane::opening(version, context);
        }
        let mut held: Vec<Event> = Vec::new();
        std::mem::swap(&mut held, &mut self.lanes[at].pending);
        assert(events_view(held@) =~= l.pending);
        assert(self.lanes@[at as int]@.pending =~= Seq::empty());
        replay(&mut self.lanes[at].pane, held);
        let mut work = Work::Idle;
        std::mem::swap(&mut work, &mut self.lanes[at].work);
        let mut rewind = false;
        match work {
            Work::Ended { out, unsend } => {
                close_run(&mut self.lanes[at].pane, mark, &out);
                rewind = unsend;
            },
            other => {
                self.lanes[at].work = other;
            },
        }
        assert(self@.lanes =~= before.with(
            at as int,
            entered(l, opening_pane(version@, texts(context@)), mark@),
        ).lanes);
        rewind
    }
}

fn copy_outcome(o: &Outcome) -> (r: Outcome)
    ensures
        r@ == o@,
{
    match o {
        Outcome::Done => Outcome::Done,
        Outcome::Cancelled => Outcome::Cancelled,
        Outcome::Failed(e) => Outcome::Failed(e.clone()),
    }
}

// ---------------------------------------------------------------------------
// Laws
// ---------------------------------------------------------------------------

/// Whatever kind of job it was, and however it ended, its lane is not left
/// working: a lane left running queues every later prompt into a queue that only
/// drains once it is not.
pub proof fn law_every_job_leaves_its_lane_free(
    s: LanesView,
    lane: int,
    end: EndView,
    save: Option<Seq<char>>,
    lines: Seq<Seq<SpanView>>,
    unsend: bool,
    cap: Option<usize>,
    mark: Seq<char>,
    report: bool,
    now: nat,
    held: nat,
)
    requires
        0 <= s.current < s.lanes.len(),
        0 <= lane < s.lanes.len(),
        s.lanes[lane].work is Idle,
    ensures
        !(run_landed(s, lane, end, save, lines, unsend, cap, mark).0.lanes[lane].work is Running),
        compact_landed(s, lane, end, report, save, now, held).lanes[lane].work is Idle,
{
    let a = recovered_of(s, lane, "run"@, end);
    assert(a.lanes[lane].work is Idle && a.lanes.len() == s.lanes.len() && a.current == s.current);
    let b = if end is Lost {
        a
    } else {
        unsaved(a, lane, save)
    };
    assert(b.lanes[lane].work is Idle && b.lanes.len() == s.lanes.len() && b.current == s.current);
    let c = b.drawing(lane, noticed(b.lanes[lane].pane, lines));
    let d = loop_stepped(c, lane, ended_as(end) is Done && !unsend, cap);
    assert(d.lanes[lane].work is Idle && d.lanes.len() == s.lanes.len());
    let e = recovered_of(s, lane, "compaction"@, end);
    assert(e.lanes[lane].work is Idle && e.lanes.len() == s.lanes.len() && e.current == s.current);
}

/// A lane out of sight is never drawn by what its run posts: only its backlog
/// grows, and every other lane stays as it is.
pub proof fn law_a_lane_out_of_sight_is_not_drawn(s: LanesView, lane: int, e: EventView, i: int)
    requires
        0 <= s.current < s.lanes.len(),
        0 <= lane < s.lanes.len(),
        0 <= i < s.lanes.len(),
        lane != s.current,
    ensures
        served(s, lane, e).lanes[i].pane == s.lanes[i].pane,
        i != lane ==> served(s, lane, e).lanes[i] == s.lanes[i],
{
}

/// A lane that was drawn keeps its transcript across a switch: coming back adds
/// to its rows what happened meanwhile and lays no opening over them.
pub proof fn law_coming_back_keeps_the_transcript(l: LaneView, opening: PaneView, mark: Seq<char>)
    requires
        l.pane.drawn,
        l.pending.len() == 0,
        !(l.work is Ended),
    ensures
        entered(l, opening, mark).pane == l.pane,
{
}

} // verus!
