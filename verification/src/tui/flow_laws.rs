//! What becomes of a line, a run and a lane, stated on what is asked and shown.

use crate::text::{is_white, lemma_trim_end, trim};
use crate::tui::intent::IntentView;
use crate::tui::key_laws::{commands, law_a_line_is_read_by_its_first_word};
use crate::tui::lane::{entered, run_landed, served, EndView, LanesView, WorkView};
use crate::tui::line::{Role, SpanView};
use crate::tui::looping::LoopingView;
use crate::tui::pane::{after_event, law_a_backlog_replays_as_it_arrived, EventView, PaneView};
use crate::tui::row::prompt_rows;
use crate::tui::surface::{
    admitted, edited_outside, kept_history, looped, news_of, rewound, routed, settling,
    without_rounds, FateView, Job, OutcomeView, RanView, RewoundView, RouteView,
};
use crate::tui::ui::UiView;
use vstd::prelude::*;
use vstd::string::*;

verus! {

// ---------------------------------------------------------------------------
// Lines
// ---------------------------------------------------------------------------

/// A line that is sent is shown, from the newest row on, and then run: as it is,
/// and remembered.
pub proof fn law_a_sent_line_is_shown_and_run(
    ui: UiView,
    pane: PaneView,
    l: Option<LoopingView>,
    line: Seq<char>,
    now: u64,
)
    requires
        !commands(line, "/loop"@),
        !commands(line, "/settings"@),
    ensures
        ({
            let r = routed(ui, pane, l, IntentView::Submit(line), now);
            &&& r.route == (RouteView::Run {
                intent: IntentView::Line(line),
                from_loop: false,
                remember: true,
            })
            &&& r.pane.scroll == 0
            &&& r.pane.rows.len() == pane.rows.len() + prompt_rows(line).len()
            &&& r.pane.queued == pane.queued && r.pane.partial == pane.partial
            &&& r.ui == ui && r.looping == l
        }),
{
    law_a_line_is_read_by_its_first_word(line);
}

/// A round that was queued runs only while its loop does; the line it runs is
/// not remembered.
pub proof fn law_a_round_runs_only_in_its_loop(
    ui: UiView,
    pane: PaneView,
    l: Option<LoopingView>,
    line: Seq<char>,
    now: u64,
)
    requires
        !commands(line, "/loop"@),
        !commands(line, "/settings"@),
    ensures
        l is None ==> routed(ui, pane, l, IntentView::LoopRound(line), now).route == RouteView::Done
            && routed(ui, pane, l, IntentView::LoopRound(line), now).pane == pane,
        l is Some ==> routed(ui, pane, l, IntentView::LoopRound(line), now).route == (RouteView::Run {
            intent: IntentView::Line(line),
            from_loop: true,
            remember: false,
        }),
{
    law_a_line_is_read_by_its_first_word(line);
}

/// A loop starts with a round of its goal behind what is queued already; a second
/// one, and a loop as its own goal, change nothing.
pub proof fn law_a_loop_starts_with_a_round(
    ui: UiView,
    pane: PaneView,
    l: Option<LoopingView>,
    goal: Seq<char>,
    now: u64,
)
    requires
        trim(goal).len() > 0,
    ensures
        ({
            let r = looped(ui, pane, l, goal, now);
            &&& r.route == RouteView::Done
            &&& l is Some ==> r.pane == pane && r.looping == l && r.ui.flash is Some
            &&& l is None && commands(trim(goal), "/loop"@) ==> r.pane == pane && r.looping is None
                && r.ui.flash is Some
            &&& l is None && !commands(trim(goal), "/loop"@) ==> {
                &&& r.looping is Some
                &&& r.looping->Some_0.goal == trim(goal) && r.looping->Some_0.round == 0
                &&& !r.looping->Some_0.running
                &&& r.pane.queued == pane.queued.push(IntentView::LoopRound(trim(goal)))
                &&& r.ui == ui
            }
        }),
{
    law_a_line_is_read_by_its_first_word(trim(goal));
}

/// How many of the queued are no rounds.
pub open spec fn no_rounds(queued: Seq<IntentView>) -> int
    decreases queued.len(),
{
    if queued.len() == 0 {
        0
    } else {
        no_rounds(queued.drop_last()) + if queued.last() is LoopRound {
            0int
        } else {
            1
        }
    }
}

proof fn lemma_rounds_last(queued: Seq<IntentView>)
    requires
        queued.len() > 0,
    ensures
        without_rounds(queued) == without_rounds(queued.drop_last()) + if queued.last() is LoopRound {
            Seq::empty()
        } else {
            seq![queued.last()]
        },
    decreases queued.len(),
{
    let end = if queued.last() is LoopRound {
        Seq::empty()
    } else {
        seq![queued.last()]
    };
    if queued.len() == 1 {
        assert(queued.skip(1) =~= Seq::empty());
        assert(queued.drop_last() =~= Seq::empty());
        assert(without_rounds(Seq::empty()) =~= Seq::empty());
        assert(without_rounds(queued) =~= without_rounds(queued.drop_last()) + end);
    } else {
        let t = queued.skip(1);
        lemma_rounds_last(t);
        assert(t.drop_last() =~= queued.drop_last().skip(1));
        assert(queued.drop_last()[0] == queued[0]);
        assert(without_rounds(queued) =~= without_rounds(queued.drop_last()) + end);
    }
}

proof fn lemma_no_rounds(queued: Seq<IntentView>, k: int)
    requires
        0 <= k < queued.len(),
        !(queued[k] is LoopRound),
    ensures
        0 <= no_rounds(queued.take(k)) < no_rounds(queued),
    decreases queued.len(),
{
    let less = queued.drop_last();
    if k < less.len() {
        lemma_no_rounds(less, k);
        assert(less.take(k) =~= queued.take(k));
    } else {
        assert(queued.take(k) =~= less);
        lemma_count(less);
    }
}

proof fn lemma_count(queued: Seq<IntentView>)
    ensures
        no_rounds(queued) >= 0,
    decreases queued.len(),
{
    if queued.len() > 0 {
        lemma_count(queued.drop_last());
    }
}

/// Stopping a loop takes its rounds out of what is queued, and leaves the rest in
/// order.
pub proof fn law_stopping_a_loop_leaves_the_rest_queued(queued: Seq<IntentView>)
    ensures
        without_rounds(queued).len() == no_rounds(queued),
        forall|k: int|
            0 <= k < queued.len() && !(#[trigger] queued[k] is LoopRound) ==> without_rounds(
                queued,
            )[no_rounds(queued.take(k))] == queued[k],
    decreases queued.len(),
{
    if queued.len() > 0 {
        let less = queued.drop_last();
        law_stopping_a_loop_leaves_the_rest_queued(less);
        lemma_rounds_last(queued);
        assert forall|k: int| 0 <= k < queued.len() && !(#[trigger] queued[k] is LoopRound) implies without_rounds(
            queued,
        )[no_rounds(queued.take(k))] == queued[k] by {
            assert(queued.take(k) =~= less.take(k));
            if k < less.len() {
                assert(!(less[k] is LoopRound));
                lemma_no_rounds(less, k);
            } else {
                assert(less.take(k) =~= less);
            }
        }
    } else {
        assert(without_rounds(queued) =~= Seq::empty());
    }
}

/// What is asked while a run is on has one fate: it goes through, it waits behind
/// what waits already, or it is refused with the reason told.
pub proof fn law_what_is_asked_during_a_run_has_one_fate(
    ui: UiView,
    pane: PaneView,
    intent: IntentView,
    why: Seq<char>,
    now: u64,
)
    ensures
        admitted(ui, pane, intent, true, FateView::Now, now) == (ui, pane, Some(intent)),
        ({
            let (u, p, out) = admitted(ui, pane, intent, true, FateView::Queued, now);
            &&& u == ui && out is None
            &&& p.queued.len() == pane.queued.len() + 1 && p.queued.last() == intent
            &&& p.queued.drop_last() == pane.queued
            &&& p.rows == pane.rows && p.partial == pane.partial
        }),
        ({
            let (u, p, out) = admitted(ui, pane, intent, true, FateView::Refused(why), now);
            p == pane && out is None && u.flash == Some((why, now)) && u.editor == ui.editor
        }),
{
    let p = admitted(ui, pane, intent, true, FateView::Queued, now).1;
    assert(p.queued.drop_last() =~= pane.queued);
}

// ---------------------------------------------------------------------------
// Taking back and editing elsewhere
// ---------------------------------------------------------------------------

/// A message that is taken back is in the editor again, with the caret behind it,
/// unless a line is being typed there: that one stands.
pub proof fn law_a_message_taken_back_is_in_the_editor(
    ui: UiView,
    pane: PaneView,
    text: Seq<char>,
    now: u64,
)
    ensures
        ({
            let u = rewound(ui, pane, RewoundView::Unsent(text), now).0;
            &&& ui.editor.text.len() == 0 ==> u.editor.text == text && u.editor.caret == text.len()
                && u.editor.history == ui.editor.history
            &&& ui.editor.text.len() > 0 ==> u == ui
        }),
        rewound(ui, pane, RewoundView::Nothing, now).1 == pane,
        rewound(ui, pane, RewoundView::Nothing, now).0.editor == ui.editor,
{
}

/// A line edited elsewhere comes back as it was saved, without the white behind
/// it; one that was not saved is as it was.
pub proof fn law_a_line_edited_elsewhere_comes_back(
    ui: UiView,
    ran: RanView,
    screen: Option<Seq<char>>,
    path: Seq<char>,
    now: u64,
)
    ensures
        ({
            let (u, kept) = edited_outside(ui, ran, screen, path, now);
            &&& ran matches RanView::Saved(text) ==> {
                let line = u.editor.text;
                &&& line.len() <= text.len() && line == text.take(line.len() as int)
                &&& line.len() > 0 ==> !is_white(line.last())
                &&& forall|i: int| line.len() <= i < text.len() ==> is_white(#[trigger] text[i])
                &&& u.editor.caret == line.len()
            }
            &&& !(ran is Saved) ==> u.editor == ui.editor && u.flash is Some
            &&& ran is Saved && screen is None ==> u.flash == ui.flash && !kept
            &&& screen is Some || ran is Unread ==> kept
        }),
{
    if let RanView::Saved(text) = ran {
        lemma_trim_end(text);
    }
}

/// The history that is kept is the newest thousand lines of it, in order.
pub proof fn law_the_newest_history_is_kept(all: Seq<Seq<char>>)
    ensures
        all.len() <= 1000 ==> kept_history(all) == all,
        all.len() > 1000 ==> kept_history(all).len() == 1000 && forall|i: int|
            0 <= i < 1000 ==> #[trigger] kept_history(all)[i] == all[all.len() - 1000 + i],
{
}

// ---------------------------------------------------------------------------
// Lanes
// ---------------------------------------------------------------------------

/// A lane that is entered shows what happened in it out of sight as if it had
/// been watched: an event kept back is drawn behind all that came before it.
pub proof fn law_a_lane_shows_what_happened_out_of_sight(
    s: LanesView,
    lane: int,
    e: EventView,
    opening: PaneView,
    mark: Seq<char>,
)
    requires
        0 <= s.current < s.lanes.len(),
        0 <= lane < s.lanes.len(),
        lane != s.current,
        !(s.lanes[lane].work is Ended),
    ensures
        entered(served(s, lane, e).lanes[lane], opening, mark).pane == after_event(
            entered(s.lanes[lane], opening, mark).pane,
            e,
        ),
        entered(served(s, lane, e).lanes[lane], opening, mark).pending.len() == 0,
{
    let l = s.lanes[lane];
    let shown = if l.pane.drawn {
        l.pane
    } else {
        opening
    };
    law_a_backlog_replays_as_it_arrived(shown, l.pending, e);
}

/// An event for the lane in front is drawn at once, and touches no other lane.
pub proof fn law_the_lane_in_front_is_drawn_at_once(s: LanesView, e: EventView, i: int)
    requires
        0 <= s.current < s.lanes.len(),
        0 <= i < s.lanes.len(),
    ensures
        served(s, s.current, e).lanes[s.current].pane == after_event(s.lanes[s.current].pane, e),
        served(s, s.current, e).lanes[s.current].pending == s.lanes[s.current].pending,
        i != s.current ==> served(s, s.current, e).lanes[i] == s.lanes[i],
        served(s, s.current, e).current == s.current,
{
}

/// News of the lane in front is told as it is; news of another says whose it is.
pub proof fn law_news_of_another_lane_says_whose_it_is(
    worktree: Option<Seq<char>>,
    what: Seq<char>,
    role: Role,
)
    ensures
        ({
            let name = match worktree {
                Some(n) => n,
                None => "the main checkout"@,
            };
            let here = news_of(true, worktree, what, role);
            let there = news_of(false, worktree, what, role);
            &&& here.len() == 1 && here[0].content == what
            &&& role is Plain ==> there.len() == 1 && there[0].content == name + ": "@ + what
            &&& !(role is Plain) ==> there.len() == 2 && there[0].content == name + ": "@
                && there[1].content == what
        }),
{
    let name = match worktree {
        Some(n) => n,
        None => "the main checkout"@,
    };
    let there = news_of(false, worktree, what, role);
    if role is Plain {
        assert(there[0].content =~= name + ": "@ + what);
    }
}

/// A run that ends out of sight waits there with how it ended; one that ends in
/// front is over, and takes its message back where that was asked.
pub proof fn law_a_run_ends_where_it_is_seen(
    s: LanesView,
    lane: int,
    out: OutcomeView,
    unsend: bool,
    mark: Seq<char>,
)
    requires
        0 <= s.current < s.lanes.len(),
        0 <= lane < s.lanes.len(),
        s.lanes[lane].looping is None,
    ensures
        ({
            let none = Seq::<Seq<SpanView>>::empty();
            let (t, back) = run_landed(s, lane, EndView::Back(out), None, none, unsend, None, mark);
            &&& t.current == s.current && t.lanes.len() == s.lanes.len()
            &&& lane != s.current ==> !back && t.lanes[lane].work == (WorkView::Ended { out, unsend })
            &&& lane == s.current ==> back == unsend && t.lanes[lane].work == s.lanes[lane].work
                && t.lanes[lane].pane.tools.len() == 0 && t.lanes[lane].pane.started is None
                && t.lanes[lane].pane.partial.len() == 0
        }),
{
}

/// What is left to do when a job has come to its end: only a turn is finished and
/// noted, finished where it is seen, noted unless it was taken back or never came
/// back; what was recovered is saved, and what went well is counted.
pub proof fn law_only_a_turn_is_finished_and_noted(j: Job)
    ensures
        !j.turn ==> !settling(j).finish_turn && !settling(j).note_outcome,
        j.turn ==> settling(j).finish_turn == j.front,
        j.turn && (j.unsend || !j.came_back) ==> !settling(j).note_outcome,
        j.turn && !j.unsend && j.came_back ==> settling(j).note_outcome,
        settling(j).save == j.recovered,
        settling(j).count == j.ok,
{
}

} // verus!
