//! The loop that drives the surface, one decision at a time: what to take up
//! next, what the phone asks for, and what a step that was carried out leaves.
//!
//! Waiting, drawing and the work itself are the caller's.

use crate::text::texts;
use crate::tui::intent::{Intent, IntentView};
use crate::tui::lane::{entered, said_of, Lanes, LaneView, LanesView, WorkView};
use crate::tui::line::{lines_view, Line, Role, SpanView};
use crate::tui::looping::{loop_view, round_started, Loops};
use crate::tui::pane::{noticed, opening_pane, PaneView};
use crate::tui::settings::{pairs_view, place_of, Panel, PanelView};
use crate::tui::surface::{
    admitted, let_through, mark_round, opt_intent, route, routed, Fate, Route,
};
use crate::tui::ui::{flashed, left_lane, Ui, UiView};
use crate::wechat::{Inbound, InboundView};
use vstd::prelude::*;
use vstd::string::*;

verus! {

/// What the loop does next.
#[derive(Debug, PartialEq, Eq)]
pub enum Next {
    /// Take up what was queued.
    Take(Intent),
    /// Wait for a key, the phone or a job's end, and for the clock too where
    /// something on screen moves by it.
    Wait { tick: bool },
}

/// What the phone asks for.
#[derive(Debug, PartialEq, Eq)]
pub enum Asked {
    /// An intent, to come through the same door as a key's.
    Admit(Intent),
    /// Something to say on the screen being watched.
    Say(String),
}

/// What the phone asks for: it types at the lane in front, like a hand, and its
/// stop is Esc.
pub open spec fn asked_by(i: InboundView) -> (Option<IntentView>, Option<Seq<char>>) {
    match i {
        InboundView::Text { text } => (Some(IntentView::Submit(text)), None),
        InboundView::Stop => (Some(IntentView::Interrupt), None),
        InboundView::Notice(text) => (None, Some(text)),
    }
}

/// What the phone asks for.
pub fn phone(inbound: Inbound) -> (r: Asked)
    ensures
        match r {
            Asked::Admit(i) => asked_by(inbound@) == (Some(i@), None::<Seq<char>>),
            Asked::Say(s) => asked_by(inbound@) == (None::<IntentView>, Some(s@)),
        },
{
    match inbound {
        Inbound::Text { text } => Asked::Admit(Intent::Submit(text)),
        Inbound::Stop => Asked::Admit(Intent::Interrupt),
        Inbound::Notice(text) => Asked::Say(text),
    }
}

/// What carrying an intent out came to.
#[derive(Debug, PartialEq, Eq)]
pub enum Step {
    Quit,
    /// A note answering the line.
    Flash(String),
    /// Run a shell command.
    Bash(String),
    /// The session was replaced, and this is to be said under the new one.
    Swap(Vec<Line>),
    /// It has been answered, with these lines.
    Handled(Vec<Line>),
    /// Shrink the transcript, with an eye to something.
    Compact(Option<String>),
    /// Send a prompt; `typed` is what the user typed where that differs.
    Prompt { send: String, typed: Option<String> },
}

/// What carrying an intent out came to, with its texts as sequences.
#[verifier::ext_equal]
pub enum StepView {
    Quit,
    Flash(Seq<char>),
    Bash(Seq<char>),
    Swap(Seq<Seq<SpanView>>),
    Handled(Seq<Seq<SpanView>>),
    Compact(Option<Seq<char>>),
    Prompt { send: Seq<char>, typed: Option<Seq<char>> },
}

/// An optional text, as a sequence.
pub open spec fn opt_string(s: Option<String>) -> Option<Seq<char>> {
    match s {
        Some(s) => Some(s@),
        None => None,
    }
}

impl View for Step {
    type V = StepView;

    open spec fn view(&self) -> StepView {
        match self {
            Step::Quit => StepView::Quit,
            Step::Flash(s) => StepView::Flash(s@),
            Step::Bash(s) => StepView::Bash(s@),
            Step::Swap(lines) => StepView::Swap(lines_view(lines@)),
            Step::Handled(lines) => StepView::Handled(lines_view(lines@)),
            Step::Compact(focus) => StepView::Compact(opt_string(*focus)),
            Step::Prompt { send, typed } => StepView::Prompt {
                send: send@,
                typed: opt_string(*typed),
            },
        }
    }
}

/// What is left to do once a step has landed.
#[derive(Debug, PartialEq, Eq)]
pub enum Act {
    Nothing,
    /// Leave the loop.
    Leave,
    Bash(String),
    /// Rebuild the screen from the session now in front, then say this.
    Swap(Vec<Line>),
    Compact(Option<String>),
    Prompt { send: String, typed: Option<String> },
}

/// What is left to do, with its texts as sequences.
#[verifier::ext_equal]
pub enum ActView {
    Nothing,
    Leave,
    Bash(Seq<char>),
    Swap(Seq<Seq<SpanView>>),
    Compact(Option<Seq<char>>),
    Prompt { send: Seq<char>, typed: Option<Seq<char>> },
}

impl View for Act {
    type V = ActView;

    open spec fn view(&self) -> ActView {
        match self {
            Act::Nothing => ActView::Nothing,
            Act::Leave => ActView::Leave,
            Act::Bash(s) => ActView::Bash(s@),
            Act::Swap(lines) => ActView::Swap(lines_view(lines@)),
            Act::Compact(focus) => ActView::Compact(opt_string(*focus)),
            Act::Prompt { send, typed } => ActView::Prompt { send: send@, typed: opt_string(*typed) },
        }
    }
}

/// Whether a step starts a turn, which is what a loop's round has to be.
pub open spec fn starts_turn(s: StepView) -> bool {
    s is Prompt || s is Bash
}

/// The lanes after the lane in front has changed from `was`.
pub open spec fn moved(s: LanesView, was: int, opening: PaneView, mark: Seq<char>) -> LanesView {
    if was == s.current {
        s
    } else {
        s.with(s.current, entered(s.lanes[s.current], opening, mark))
    }
}

/// The lanes after a loop's own round was carried out. The loop belongs to the
/// lane that queued the round, wherever the surface is now.
pub open spec fn round_marked(s: LanesView, was: int, starts: bool) -> LanesView {
    let l = s.lanes[was];
    if starts {
        s.with(was, LaneView { looping: round_started(l.looping), ..l })
    } else {
        match l.looping {
            Some(stale) => said_of(
                s.with(was, LaneView { looping: None, ..l }),
                was,
                "loop ended — `"@ + stale.goal + "` starts no turn to measure"@,
                Role::Plain,
            ),
            None => s,
        }
    }
}

/// The surface once a step has landed.
#[verifier::ext_equal]
pub struct Landed {
    pub lanes: LanesView,
    pub ui: UiView,
    pub act: ActView,
    /// Whether a prompt of the lane now in front is to be taken back.
    pub rewind: bool,
}

/// The surface once a step that was carried out from the lane `was` has landed.
pub open spec fn landed(
    s: LanesView,
    ui: UiView,
    was: int,
    from_loop: bool,
    step: StepView,
    opening: PaneView,
    mark: Seq<char>,
    now: u64,
) -> Landed {
    let rewind = was != s.current && (s.lanes[s.current].work matches WorkView::Ended {
        unsend,
        ..
    } && unsend);
    let ui = if was == s.current {
        ui
    } else {
        left_lane(ui)
    };
    let s = moved(s, was, opening, mark);
    let s = if from_loop {
        round_marked(s, was, starts_turn(step))
    } else {
        s
    };
    match step {
        StepView::Quit => Landed { lanes: s, ui, act: ActView::Leave, rewind },
        StepView::Flash(line) => Landed {
            lanes: s,
            ui: flashed(ui, line, now),
            act: ActView::Nothing,
            rewind,
        },
        StepView::Bash(c) => Landed { lanes: s, ui, act: ActView::Bash(c), rewind },
        StepView::Swap(said) => Landed { lanes: s, ui, act: ActView::Swap(said), rewind },
        StepView::Handled(lines) => Landed {
            lanes: s.drawing(s.current, noticed(s.lanes[s.current].pane, lines)),
            ui,
            act: ActView::Nothing,
            rewind,
        },
        StepView::Compact(focus) => Landed { lanes: s, ui, act: ActView::Compact(focus), rewind },
        StepView::Prompt { send, typed } => Landed {
            lanes: s,
            ui,
            act: ActView::Prompt { send, typed },
            rewind,
        },
    }
}

/// How many of the first `n` lanes are working.
pub open spec fn working(s: LanesView, n: int) -> nat
    decreases n,
{
    if n <= 0 {
        0
    } else {
        working(s, n - 1) + if s.lanes[n - 1].work is Running {
            1nat
        } else {
            0nat
        }
    }
}

/// A settings panel once a value was written: the rows are the file's again,
/// the cursor stays on its path, and the edit is over.
pub open spec fn committed_panel(p: PanelView, rows: Seq<(Seq<char>, Seq<char>)>) -> PanelView {
    PanelView {
        rows,
        at: if 0 <= p.at < p.rows.len() {
            place_of(rows, p.rows[p.at].0, 0)
        } else {
            0
        },
        editing: None,
        error: None,
    }
}

/// What became of a value that was typed for a setting.
#[derive(Debug, PartialEq, Eq)]
pub enum Commit {
    /// It was written: what to say of it, and the rows the file has now.
    Written { said: Vec<Line>, rows: Vec<(String, String)> },
    /// It was refused, and why.
    Refused(String),
}

impl Lanes {
    /// Whether any lane is working.
    pub fn any_running(&self) -> (r: bool)
        requires
            self.valid(),
        ensures
            r == exists|i: int|
                0 <= i < self@.lanes.len() && (#[trigger] self@.lanes[i]).work is Running,
    {
        let mut i: usize = 0;
        while i < self.lanes.len()
            invariant
                i <= self.lanes@.len(),
                forall|k: int| 0 <= k < i ==> !((#[trigger] self@.lanes[k]).work is Running),
            decreases self.lanes@.len() - i,
        {
            assert(self@.lanes[i as int] == self.lanes@[i as int]@);
            if self.lanes[i].is_running() {
                return true;
            }
            i += 1;
        }
        false
    }

    /// What the loop does next. A queued intent waits for the lane it was aimed
    /// at to come free. The clock is waited for only while something runs, or a
    /// flash is up: an idle loop waking ten times a second is a spinner with
    /// nothing to spin.
    pub fn next(&mut self, flash: bool) -> (r: Next)
        requires
            old(self).valid(),
        ensures
            final(self).valid(),
            final(self).lanes@.len() == old(self).lanes@.len(),
            ({
                let s = old(self)@;
                let l = s.lanes[s.current];
                match r {
                    Next::Take(i) => {
                        &&& !(l.work is Running)
                        &&& l.pane.queued.len() > 0
                        &&& i@ == l.pane.queued[0]
                        &&& final(self)@ == s.drawing(
                            s.current,
                            PaneView { queued: l.pane.queued.skip(1), ..l.pane },
                        )
                    },
                    Next::Wait { tick } => {
                        &&& l.work is Running || l.pane.queued.len() == 0
                        &&& final(self)@ == s
                        &&& tick == (flash || exists|i: int|
                            0 <= i < s.lanes.len() && (#[trigger] s.lanes[i]).work is Running)
                    },
                }
            }),
    {
        let ghost before = self@;
        let at = self.current;
        assert(before.lanes[at as int] == self.lanes@[at as int]@);
        let running = self.lanes[at].is_running();
        match self.lanes[at].pane.take_queued(running) {
            Some(i) => {
                assert(self@ =~= before.drawing(
                    at as int,
                    PaneView {
                        queued: before.lanes[at as int].pane.queued.skip(1),
                        ..before.lanes[at as int].pane
                    },
                ));
                Next::Take(i)
            },
            None => {
                assert(self@ =~= before);
                let anywhere = self.any_running();
                Next::Wait { tick: flash || anywhere }
            },
        }
    }

    /// Let an intent through to the lane in front.
    pub fn let_in(&mut self, ui: &mut Ui, intent: Intent, fate: Fate, now: u64) -> (r: Option<Intent>)
        requires
            old(self).valid(),
            old(ui).valid(),
        ensures
            final(self).valid(),
            final(ui).valid(),
            final(self).lanes@.len() == old(self).lanes@.len(),
            ({
                let s = old(self)@;
                let l = s.lanes[s.current];
                let (u, p, i) = admitted(
                    old(ui)@,
                    l.pane,
                    intent@,
                    l.work is Running,
                    fate@,
                    now,
                );
                &&& final(ui)@ == u
                &&& final(self)@ == s.drawing(s.current, p)
                &&& opt_intent(r) == i
            }),
    {
        let ghost before = self@;
        let at = self.current;
        assert(before.lanes[at as int] == self.lanes@[at as int]@);
        let running = self.lanes[at].is_running();
        let r = let_through(ui, &mut self.lanes[at].pane, intent, running, fate, now);
        assert(self@ =~= before.drawing(at as int, self.lanes@[at as int].pane@));
        r
    }

    /// What the surface answers of an intent for the lane in front, and what is
    /// left to do.
    pub fn route_front(&mut self, ui: &mut Ui, intent: Intent, now: u64) -> (r: Route)
        requires
            old(self).valid(),
            old(ui).valid(),
        ensures
            final(self).valid(),
            final(ui).valid(),
            final(self).lanes@.len() == old(self).lanes@.len(),
            ({
                let s = old(self)@;
                let l = s.lanes[s.current];
                let to = routed(old(ui)@, l.pane, l.looping, intent@, now);
                &&& final(ui)@ == to.ui
                &&& r@ == to.route
                &&& final(self)@ == s.with(
                    s.current,
                    LaneView { pane: to.pane, looping: to.looping, ..l },
                )
            }),
    {
        let ghost before = self@;
        let at = self.current;
        let ghost l = before.lanes[at as int];
        assert(l == self.lanes@[at as int]@);
        let ghost to = routed(ui@, l.pane, l.looping, intent@, now);
        let mut loops = Loops::new();
        std::mem::swap(&mut loops, &mut self.lanes[at].loops);
        let r = route(ui, &mut self.lanes[at].pane, &mut loops, intent, now);
        self.lanes[at].loops = loops;
        assert(self@.lanes =~= before.with(
            at as int,
            LaneView { pane: to.pane, looping: to.looping, ..l },
        ).lanes);
        r
    }

    fn mark(&mut self, was: usize, starts: bool)
        requires
            old(self).valid(),
            was < old(self).lanes@.len(),
            loop_view(old(self).lanes@[was as int].loops.looping) matches Some(l) ==> l.round + 1
                < usize::MAX,
        ensures
            final(self).valid(),
            final(self).lanes@.len() == old(self).lanes@.len(),
            final(self)@ == round_marked(old(self)@, was as int, starts),
    {
        let ghost before = self@;
        let ghost l = before.lanes[was as int];
        assert(l == self.lanes@[was as int]@);
        let said = mark_round(&mut self.lanes[was].loops, starts);
        let ghost looping = if starts {
            round_started(l.looping)
        } else {
            None
        };
        assert(self@.lanes =~= before.with(was as int, LaneView { looping, ..l }).lanes);
        match said {
            Some(s) => {
                self.say_of(was, s.as_str(), Role::Plain);
            },
            None => {
                assert(!starts ==> self@ =~= before);
            },
        }
    }

    /// Land a step that was carried out for an intent of the lane `was`: bring
    /// the screen into step with the lane now in front, count a loop's own round,
    /// and answer what can be answered here.
    pub fn land_step(
        &mut self,
        ui: &mut Ui,
        was: usize,
        from_loop: bool,
        step: Step,
        version: &str,
        context: &[String],
        mark: &str,
        now: u64,
    ) -> (r: (Act, bool))
        requires
            old(self).valid(),
            old(ui).valid(),
            was < old(self).lanes@.len(),
            loop_view(old(self).lanes@[was as int].loops.looping) matches Some(l) ==> l.round + 1
                < usize::MAX,
            old(self).lanes@[old(self).current as int].pane.thinking.next + old(self).lanes@[old(
                self,
            ).current as int].pending@.len() <= u64::MAX,
            old(self).lanes@[old(self).current as int].pending@.len() < u64::MAX,
        ensures
            final(self).valid(),
            final(ui).valid(),
            final(self).lanes@.len() == old(self).lanes@.len(),
            landed(
                old(self)@,
                old(ui)@,
                was as int,
                from_loop,
                step@,
                opening_pane(version@, texts(context@)),
                mark@,
                now,
            ) == (Landed { lanes: final(self)@, ui: final(ui)@, act: r.0@, rewind: r.1 }),
    {
        let ghost start = self@;
        let ghost opening = opening_pane(version@, texts(context@));
        let ghost what = step@;
        assert(start.lanes[was as int] == self.lanes@[was as int]@);
        let rewind = self.reconcile(ui, was, version, context, mark);
        let ghost s1 = self@;
        assert(s1 == moved(start, was as int, opening, mark@));
        assert(s1.lanes[was as int] == self.lanes@[was as int]@);
        assert(s1.lanes[was as int].looping == start.lanes[was as int].looping);
        if from_loop {
            let starts = match &step {
                Step::Prompt { .. } => true,
                Step::Bash(_) => true,
                _ => false,
            };
            self.mark(was, starts);
        }
        let ghost s2 = self@;
        assert(s2 == if from_loop {
            round_marked(s1, was as int, starts_turn(what))
        } else {
            s1
        });
        let act = match step {
            Step::Quit => Act::Leave,
            Step::Flash(line) => {
                ui.say_flash(line.as_str(), now);
                Act::Nothing
            },
            Step::Bash(c) => Act::Bash(c),
            Step::Swap(said) => Act::Swap(said),
            Step::Handled(lines) => {
                let at = self.current;
                assert(s2.lanes[at as int] == self.lanes@[at as int]@);
                let ghost shown = lines_view(lines@);
                self.lanes[at].pane.notices(lines);
                assert(self@ =~= s2.drawing(
                    at as int,
                    noticed(s2.lanes[at as int].pane, shown),
                ));
                Act::Nothing
            },
            Step::Compact(focus) => Act::Compact(focus),
            Step::Prompt { send, typed } => Act::Prompt { send, typed },
        };
        (act, rewind)
    }

    /// Show what became of a value typed in the settings panel, on the panel and
    /// in the lane in front.
    pub fn commit_setting(&mut self, ui: &mut Ui, what: Commit)
        requires
            old(self).valid(),
            old(ui).valid(),
        ensures
            final(self).valid(),
            final(ui).valid(),
            final(self).lanes@.len() == old(self).lanes@.len(),
            ({
                let s = old(self)@;
                match what {
                    Commit::Written { said, rows } => {
                        &&& final(self)@ == s.drawing(
                            s.current,
                            noticed(s.lanes[s.current].pane, lines_view(said@)),
                        )
                        &&& final(ui)@ == (UiView {
                            settings: match old(ui)@.settings {
                                Some(p) => Some(committed_panel(p, pairs_view(rows@))),
                                None => None,
                            },
                            ..old(ui)@
                        })
                    },
                    Commit::Refused(why) => {
                        &&& final(self)@ == s
                        &&& final(ui)@ == (UiView {
                            settings: match old(ui)@.settings {
                                Some(p) => Some(PanelView { error: Some(why@), ..p }),
                                None => None,
                            },
                            ..old(ui)@
                        })
                    },
                }
            }),
    {
        let ghost before = self@;
        let ghost was = ui@;
        let at = self.current;
        assert(before.lanes[at as int] == self.lanes@[at as int]@);
        let mut panel: Option<Panel> = None;
        std::mem::swap(&mut panel, &mut ui.settings);
        match what {
            Commit::Written { said, rows } => {
                let ghost shown = lines_view(said@);
                self.lanes[at].pane.notices(said);
                assert(self@ =~= before.drawing(
                    at as int,
                    noticed(before.lanes[at as int].pane, shown),
                ));
                if let Some(mut p) = panel {
                    p.refresh(rows);
                    p.finish_edit();
                    ui.settings = Some(p);
                }
            },
            Commit::Refused(why) => {
                if let Some(mut p) = panel {
                    p.refuse(why);
                    ui.settings = Some(p);
                }
            },
        }
    }

    /// Leaving: how many runs are to be stopped and waited for, said on the
    /// screen where there are any.
    pub fn leaving(&mut self) -> (left: usize)
        requires
            old(self).valid(),
        ensures
            final(self).valid(),
            final(self).lanes@.len() == old(self).lanes@.len(),
            left == working(old(self)@, old(self)@.lanes.len() as int),
            final(self)@ == if left == 0 {
                old(self)@
            } else {
                said_of(
                    old(self)@,
                    old(self)@.current,
                    "stopping — saving what the runs have written"@,
                    Role::Plain,
                )
            },
    {
        let mut left: usize = 0;
        let mut i: usize = 0;
        while i < self.lanes.len()
            invariant
                i <= self.lanes@.len(),
                left <= i,
                left == working(self@, i as int),
            decreases self.lanes@.len() - i,
        {
            assert(self@.lanes[i as int] == self.lanes@[i as int]@);
            if self.lanes[i].is_running() {
                left += 1;
            }
            i += 1;
        }
        if left > 0 {
            let at = self.current;
            self.say_of(at, "stopping — saving what the runs have written", Role::Plain);
        }
        left
    }
}

// ---------------------------------------------------------------------------
// Laws
// ---------------------------------------------------------------------------

/// A step never loses a loop to another lane: whatever lane the surface moved
/// to, the loop that is counted or ended is the one of the lane that queued the
/// round, and every other lane's loop stays as it was.
pub proof fn law_a_round_belongs_to_its_lane(
    s: LanesView,
    ui: UiView,
    was: int,
    from_loop: bool,
    step: StepView,
    opening: PaneView,
    mark: Seq<char>,
    now: u64,
    i: int,
)
    requires
        0 <= s.current < s.lanes.len(),
        0 <= was < s.lanes.len(),
        0 <= i < s.lanes.len(),
        i != was,
    ensures
        landed(s, ui, was, from_loop, step, opening, mark, now).lanes.lanes[i].looping
            == s.lanes[i].looping,
{
    let s1 = moved(s, was, opening, mark);
    assert(s1.lanes.len() == s.lanes.len() && s1.current == s.current);
    assert(s1.lanes[i].looping == s.lanes[i].looping);
    let s2 = if from_loop {
        round_marked(s1, was, starts_turn(step))
    } else {
        s1
    };
    assert(s2.lanes[i].looping == s.lanes[i].looping);
}

/// A loop's own round that starts no turn leaves no loop behind: the next turn
/// from anywhere would be taken for its round.
pub proof fn law_a_round_without_a_turn_ends_its_loop(
    s: LanesView,
    ui: UiView,
    was: int,
    step: StepView,
    opening: PaneView,
    mark: Seq<char>,
    now: u64,
)
    requires
        0 <= s.current < s.lanes.len(),
        0 <= was < s.lanes.len(),
        !starts_turn(step),
    ensures
        landed(s, ui, was, true, step, opening, mark, now).lanes.lanes[was].looping is None,
{
    let s1 = moved(s, was, opening, mark);
    assert(s1.lanes.len() == s.lanes.len() && s1.current == s.current);
    let s2 = round_marked(s1, was, false);
    assert(s2.lanes[was].looping is None);
}

} // verus!
