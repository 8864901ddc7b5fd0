//! A line run again while it keeps changing files.
//!
//! What decides is the tree, never the model: a round that changed a file is a
//! round whose work was not finished, and one that changed nothing has nothing
//! left to do.

use crate::text::{append_number, decimal};
use vstd::prelude::*;
use vstd::string::*;

verus! {

/// A loop in force.
#[derive(Debug, Clone, PartialEq, Eq)]
pub struct Looping {
    /// The line each round runs.
    pub goal: String,
    /// How many rounds have been started.
    pub round: usize,
    /// Whether the turn under way is one of its rounds.
    pub running: bool,
    /// Whether that round has changed a file.
    pub changed: bool,
}

/// A loop, with its goal as a sequence.
#[verifier::ext_equal]
pub struct LoopingView {
    pub goal: Seq<char>,
    pub round: int,
    pub running: bool,
    pub changed: bool,
}

impl View for Looping {
    type V = LoopingView;

    open spec fn view(&self) -> LoopingView {
        LoopingView {
            goal: self.goal@,
            round: self.round as int,
            running: self.running,
            changed: self.changed,
        }
    }
}

/// What a round that has ended leads to.
#[derive(Debug, Clone, PartialEq, Eq)]
pub enum Round {
    /// Another round, and its number.
    Again { goal: String, next: usize },
    /// The round changed nothing.
    Quiet,
    /// As many rounds as are allowed, and work still left.
    Capped(usize),
    /// The round was cut short, and the loop with it.
    Cut,
}

/// What a round leads to, with its texts as sequences.
#[verifier::ext_equal]
pub enum RoundView {
    Again { goal: Seq<char>, next: int },
    Quiet,
    Capped(int),
    Cut,
}

impl View for Round {
    type V = RoundView;

    open spec fn view(&self) -> RoundView {
        match self {
            Round::Again { goal, next } => RoundView::Again { goal: goal@, next: *next as int },
            Round::Quiet => RoundView::Quiet,
            Round::Capped(n) => RoundView::Capped(*n as int),
            Round::Cut => RoundView::Cut,
        }
    }
}

/// The loop of a lane, if one is in force.
pub struct Loops {
    pub looping: Option<Looping>,
}

/// The loop of a lane, with its texts as sequences.
pub open spec fn loop_view(l: Option<Looping>) -> Option<LoopingView> {
    match l {
        Some(l) => Some(l@),
        None => None,
    }
}

/// What a round that has ended leads to, and the loop after it. A turn the loop
/// did not start is not one of its rounds.
pub open spec fn stepped(l: Option<LoopingView>, finished: bool, cap: Option<usize>) -> (
    Option<LoopingView>,
    Option<RoundView>,
) {
    match l {
        None => (None, None),
        Some(l) => if !l.running {
            (Some(l), None)
        } else if !finished {
            (None, Some(RoundView::Cut))
        } else if !l.changed {
            (None, Some(RoundView::Quiet))
        } else if cap matches Some(n) && l.round >= n {
            (None, Some(RoundView::Capped(cap->Some_0 as int)))
        } else {
            (
                Some(LoopingView { running: false, ..l }),
                Some(RoundView::Again { goal: l.goal, next: l.round + 1 }),
            )
        },
    }
}

/// The loop once one of its rounds is under way.
pub open spec fn round_started(l: Option<LoopingView>) -> Option<LoopingView> {
    match l {
        Some(l) => Some(
            LoopingView { round: l.round + 1, running: true, changed: false, ..l },
        ),
        None => None,
    }
}

/// The loop once its round has changed a file.
pub open spec fn round_changed(l: Option<LoopingView>) -> Option<LoopingView> {
    match l {
        Some(l) => Some(LoopingView { changed: true, ..l }),
        None => None,
    }
}

impl Loops {
    /// No loop.
    pub fn new() -> (r: Loops)
        ensures
            loop_view(r.looping) is None,
    {
        Loops { looping: None }
    }

    /// Arm a loop on a line.
    pub fn loop_start(&mut self, goal: String)
        ensures
            loop_view(final(self).looping) == Some(
                LoopingView { goal: goal@, round: 0, running: false, changed: false },
            ),
    {
        self.looping = Some(Looping { goal, round: 0, running: false, changed: false });
    }

    /// The turn under way is a round of the loop's. Nothing without a loop: a
    /// round can outlive the loop that queued it.
    pub fn loop_running(&mut self)
        requires
            loop_view(old(self).looping) matches Some(l) ==> l.round + 1 < usize::MAX,
        ensures
            loop_view(final(self).looping) == round_started(loop_view(old(self).looping)),
    {
        match &mut self.looping {
            Some(l) => {
                l.round = l.round + 1;
                l.running = true;
                l.changed = false;
            },
            None => {},
        }
    }

    /// A file was written.
    pub fn note_write(&mut self)
        ensures
            loop_view(final(self).looping) == round_changed(loop_view(old(self).looping)),
    {
        match &mut self.looping {
            Some(l) => {
                l.changed = true;
            },
            None => {},
        }
    }

    /// Carry the loop past a turn that has ended: what it leads to, or nothing
    /// where the turn was no round of a loop's. `cap` is how many rounds are
    /// allowed, where that is limited.
    pub fn loop_step(&mut self, finished: bool, cap: Option<usize>) -> (r: Option<Round>)
        requires
            loop_view(old(self).looping) matches Some(l) ==> l.round < usize::MAX,
        ensures
            (
                loop_view(final(self).looping),
                match r {
                    Some(r) => Some(r@),
                    None => None,
                },
            ) == stepped(loop_view(old(self).looping), finished, cap),
    {
        let l = match self.looping.take() {
            Some(l) => l,
            None => {
                return None;
            },
        };
        if !l.running {
            self.looping = Some(l);
            return None;
        }
        if !finished {
            return Some(Round::Cut);
        }
        if !l.changed {
            return Some(Round::Quiet);
        }
        if let Some(n) = cap {
            if l.round >= n {
                return Some(Round::Capped(n));
            }
        }
        let goal = l.goal.clone();
        let next: usize = l.round + 1;
        self.looping = Some(
            Looping { goal: l.goal, round: l.round, running: false, changed: l.changed },
        );
        Some(Round::Again { goal, next })
    }
}

/// What is said of a round that has ended.
pub open spec fn round_form(r: RoundView) -> Seq<char> {
    match r {
        RoundView::Again { next, .. } => "loop round "@ + decimal(next as nat),
        RoundView::Quiet => "loop done — that round changed nothing"@,
        RoundView::Capped(n) => "loop stopped at loop_max_turns ("@ + decimal(n as nat)
            + ") — rounds were still changing files"@,
        RoundView::Cut => "loop stopped"@,
    }
}

/// What is said of a round that has ended.
pub fn round_news(r: &Round) -> (s: String)
    ensures
        s@ == round_form(r@),
{
    match r {
        Round::Again { next, .. } => {
            let mut s = "loop round ".to_owned();
            append_number(&mut s, *next);
            s
        },
        Round::Quiet => "loop done — that round changed nothing".to_owned(),
        Round::Capped(n) => {
            let mut s = "loop stopped at loop_max_turns (".to_owned();
            append_number(&mut s, *n);
            s.append(") — rounds were still changing files");
            s
        },
        Round::Cut => "loop stopped".to_owned(),
    }
}

/// The loop goes round exactly while its rounds change files, finish, and are
/// allowed.
pub proof fn law_the_tree_decides_another_round(l: LoopingView, finished: bool, cap: Option<usize>)
    requires
        l.running,
    ensures
        (stepped(Some(l), finished, cap).1 matches Some(RoundView::Again { .. })) == (finished
            && l.changed && (cap matches Some(n) ==> l.round < n)),
        stepped(Some(l), finished, cap).1 is Some,
        (stepped(Some(l), finished, cap).0 is Some) == (stepped(
            Some(l),
            finished,
            cap,
        ).1 matches Some(RoundView::Again { .. })),
{
}

/// A turn the loop did not start leaves it as it was.
pub proof fn law_another_turn_is_not_a_round(l: LoopingView, finished: bool, cap: Option<usize>)
    requires
        !l.running,
    ensures
        stepped(Some(l), finished, cap) == (Some(l), None::<RoundView>),
{
}

/// A loop that has ended cannot be revived by a round it left behind.
pub proof fn law_a_stale_round_revives_nothing(finished: bool, cap: Option<usize>)
    ensures
        round_started(None) is None,
        stepped(round_changed(round_started(None)), finished, cap) == (
            None::<LoopingView>,
            None::<RoundView>,
        ),
{
}

} // verus!
