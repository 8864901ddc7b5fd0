//! The rows a menu offers: completions of the line, or the messages a
//! conversation can be rewound to.

use crate::text::texts;
use crate::width::{text_columns, text_columns_of};
use vstd::prelude::*;
use vstd::string::*;

verus! {

/// One completion of the line.
#[derive(Debug, Clone, PartialEq, Eq)]
pub struct Candidate {
    /// The line it completes to.
    pub line: String,
    pub show: String,
    pub help: String,
    /// Whether something is still expected after it.
    pub more: bool,
}

/// One row either menu can offer.
#[derive(Debug, Clone, PartialEq, Eq)]
pub enum MenuEntry {
    Completion(Candidate),
    /// `help` says who a row belongs to: which one it is decides whether picking
    /// it unsends or continues from.
    Message { id: u64, show: String, help: String },
}

/// A completion, with its texts as sequences.
#[verifier::ext_equal]
pub struct CandidateView {
    pub line: Seq<char>,
    pub show: Seq<char>,
    pub help: Seq<char>,
    pub more: bool,
}

/// A row of a menu, with its texts as sequences.
#[verifier::ext_equal]
pub enum MenuView {
    Completion(CandidateView),
    Message { id: u64, show: Seq<char>, help: Seq<char> },
}

impl View for Candidate {
    type V = CandidateView;

    open spec fn view(&self) -> CandidateView {
        CandidateView {
            line: self.line@,
            show: self.show@,
            help: self.help@,
            more: self.more,
        }
    }
}

impl View for MenuEntry {
    type V = MenuView;

    open spec fn view(&self) -> MenuView {
        match self {
            MenuEntry::Completion(c) => MenuView::Completion(c@),
            MenuEntry::Message { id, show, help } => MenuView::Message {
                id: *id,
                show: show@,
                help: help@,
            },
        }
    }
}

/// Completions, with their texts as sequences.
pub open spec fn candidates_view(v: Seq<Candidate>) -> Seq<CandidateView> {
    Seq::new(v.len(), |i: int| v[i]@)
}

/// Rows of a menu, with their texts as sequences.
pub open spec fn menu_view(v: Seq<MenuEntry>) -> Seq<MenuView> {
    Seq::new(v.len(), |i: int| v[i]@)
}

/// What a row shows.
pub open spec fn show_of(m: MenuView) -> Seq<char> {
    match m {
        MenuView::Completion(c) => c.show,
        MenuView::Message { show, .. } => show,
    }
}

/// What a row says of itself.
pub open spec fn help_of(m: MenuView) -> Seq<char> {
    match m {
        MenuView::Completion(c) => c.help,
        MenuView::Message { help, .. } => help,
    }
}

impl Candidate {
    /// A copy of the completion.
    pub fn copy(&self) -> (r: Candidate)
        ensures
            r@ == self@,
    {
        Candidate {
            line: self.line.clone(),
            show: self.show.clone(),
            help: self.help.clone(),
            more: self.more,
        }
    }
}

impl MenuEntry {
    /// A copy of the row.
    pub fn copy(&self) -> (r: MenuEntry)
        ensures
            r@ == self@,
    {
        match self {
            MenuEntry::Completion(c) => MenuEntry::Completion(c.copy()),
            MenuEntry::Message { id, show, help } => MenuEntry::Message {
                id: *id,
                show: show.clone(),
                help: help.clone(),
            },
        }
    }

    /// What the row shows.
    pub fn show(&self) -> (r: &str)
        ensures
            r@ == show_of(self@),
    {
        match self {
            MenuEntry::Completion(c) => c.show.as_str(),
            MenuEntry::Message { show, .. } => show.as_str(),
        }
    }

    /// What the row says of itself.
    pub fn help(&self) -> (r: &str)
        ensures
            r@ == help_of(self@),
    {
        match self {
            MenuEntry::Completion(c) => c.help.as_str(),
            MenuEntry::Message { help, .. } => help.as_str(),
        }
    }
}

/// A copy of the rows.
pub fn copy_menu(v: &[MenuEntry]) -> (r: Vec<MenuEntry>)
    ensures
        menu_view(r@) == menu_view(v@),
{
    let mut r: Vec<MenuEntry> = Vec::new();
    let mut i: usize = 0;
    while i < v.len()
        invariant
            i <= v@.len(),
            r@.len() == i,
            forall|k: int| 0 <= k < i ==> (#[trigger] r@[k])@ == v@[k]@,
        decreases v@.len() - i,
    {
        let e = v[i].copy();
        r.push(e);
        i += 1;
    }
    assert(menu_view(r@) =~= menu_view(v@));
    r
}

/// The completions as a menu, bottom-up: the best match belongs on the row
/// right above the input.
pub open spec fn bottom_up(v: Seq<CandidateView>) -> Seq<MenuView> {
    Seq::new(v.len(), |i: int| MenuView::Completion(v[v.len() - 1 - i]))
}

/// The completions as a menu, bottom-up.
pub fn completions(v: &[Candidate]) -> (r: Vec<MenuEntry>)
    ensures
        menu_view(r@) == bottom_up(candidates_view(v@)),
{
    let ghost all = candidates_view(v@);
    let mut r: Vec<MenuEntry> = Vec::new();
    let mut i: usize = v.len();
    while i > 0
        invariant
            i <= v@.len(),
            all == candidates_view(v@),
            r@.len() == v@.len() - i,
            forall|k: int|
                0 <= k < r@.len() ==> (#[trigger] r@[k])@ == MenuView::Completion(
                    all[all.len() - 1 - k],
                ),
        decreases i,
    {
        assert(all[i - 1] == v@[i - 1]@);
        let c = v[i - 1].copy();
        r.push(MenuEntry::Completion(c));
        i -= 1;
    }
    assert(menu_view(r@) =~= bottom_up(all));
    r
}

/// The widest of what the first `n` rows show.
pub open spec fn head_width(menu: Seq<MenuView>, n: int) -> int
    decreases n,
{
    if n <= 0 {
        0
    } else {
        let rest = head_width(menu, n - 1);
        let w = text_columns(show_of(menu[n - 1])) as int;
        if w > rest {
            w
        } else {
            rest
        }
    }
}

/// A text padded to `n` columns.
pub open spec fn padded(s: Seq<char>, n: int) -> Seq<char> {
    let short = n - text_columns(s);
    s + Seq::new(
        if short > 0 {
            short as nat
        } else {
            0
        },
        |i: int| ' ',
    )
}

/// A row of the menu as it is drawn: what it shows, in one column, and what it
/// says of itself beside it.
pub open spec fn item_form(m: MenuView, head: int) -> Seq<char> {
    "  "@ + padded(show_of(m), head) + "  "@ + help_of(m)
}

/// The rows of a menu as they are drawn.
pub fn menu_items(menu: &[MenuEntry]) -> (r: Vec<String>)
    ensures
        texts(r@) == Seq::new(
            menu@.len(),
            |i: int|
                item_form(menu_view(menu@)[i], head_width(menu_view(menu@), menu@.len() as int)),
        ),
{
    let ghost all = menu_view(menu@);
    let mut head: usize = 0;
    let mut i: usize = 0;
    while i < menu.len()
        invariant
            i <= menu@.len(),
            all == menu_view(menu@),
            head == head_width(all, i as int),
        decreases menu@.len() - i,
    {
        assert(all[i as int] == menu@[i as int]@);
        let w = text_columns_of(menu[i].show());
        if w > head {
            head = w;
        }
        i += 1;
    }
    let mut r: Vec<String> = Vec::new();
    let mut k: usize = 0;
    while k < menu.len()
        invariant
            k <= menu@.len(),
            all == menu_view(menu@),
            head == head_width(all, menu@.len() as int),
            r@.len() == k,
            forall|j: int|
                0 <= j < k ==> (#[trigger] r@[j])@ == item_form(
                    all[j],
                    head_width(all, menu@.len() as int),
                ),
        decreases menu@.len() - k,
    {
        assert(all[k as int] == menu@[k as int]@);
        let show = menu[k].show();
        let w = text_columns_of(show);
        let short: usize = if head > w {
            head - w
        } else {
            0
        };
        let mut line = "  ".to_owned();
        line.append(show);
        let ghost so_far = line@;
        let mut j: usize = 0;
        assert(line@ =~= so_far + Seq::new(0, |x: int| ' '));
        while j < short
            invariant
                j <= short,
                line@ == so_far + Seq::new(j as nat, |x: int| ' '),
            decreases short - j,
        {
            line.push(' ');
            j += 1;
            assert(line@ =~= so_far + Seq::new(j as nat, |x: int| ' '));
        }
        line.append("  ");
        line.append(menu[k].help());
        assert(line@ =~= item_form(all[k as int], head as int));
        r.push(line);
        k += 1;
    }
    assert(texts(r@) =~= Seq::new(
        menu@.len(),
        |i: int| item_form(all[i], head_width(all, menu@.len() as int)),
    ));
    r
}

} // verus!
