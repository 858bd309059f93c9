//! The interaction loop's state machine and the rendering of display
//! lines.
//!
//! The loop outside the library blocks for one input event per frame and
//! calls into here for every decision: how an event changes the state,
//! how the selection is clamped to the candidate list, and what the frame
//! looks like.
use vstd::prelude::*;
use crate::search::Candidate;
use crate::search::CandView;
use crate::search::rank_spec;
use crate::search::views_of;
use crate::text::dec_digits;
use crate::text::pop_char;
use crate::text::push_char;
use crate::text::truncate_to_width;
use crate::text::truncated;
use crate::text::usize_to_string;

verus! {

/// One input event, as the loop sees it.
#[derive(Clone, Copy)]
pub enum KeyInput {
    /// A printable character was typed.
    Char(char),
    /// The last query character is removed.
    Backspace,
    /// Move the selection up.
    Up,
    /// Move the selection down.
    Down,
    /// Confirm the selected candidate.
    Enter,
    /// Cancel the search.
    Esc,
    /// The terminal was resized; the next frame re-reads the viewport.
    Resize,
    /// Any other event; ignored.
    Other,
}

/// What the loop does after an event.
#[derive(PartialEq, Eq, Structural, Clone, Copy, Debug)]
pub enum LoopSignal {
    /// Keep looping.
    Continue,
    /// Stop and report the selected candidate, or that none matched.
    Accept,
    /// Stop and report cancellation.
    Cancel,
}

/// The mutable state of the interaction loop.
pub struct UiState {
    pub query: String,
    pub selected: usize,
}

/// The mathematical content of the loop state.
#[verifier::ext_equal]
pub ghost struct StateView {
    pub query: Seq<char>,
    pub selected: nat,
}

impl View for UiState {
    type V = StateView;

    open spec fn view(&self) -> StateView {
        StateView { query: self.query@, selected: self.selected as nat }
    }
}

/// The state a session starts in: empty query, selection at the top.
pub open spec fn init_state() -> StateView {
    StateView { query: Seq::empty(), selected: 0 }
}

impl UiState {
    /// A fresh session state.
    pub fn new() -> (s: UiState)
        ensures
            s@ == init_state(),
    {
        let s = UiState { query: String::new(), selected: 0 };
        proof {
            assert(s@ =~= init_state());
        }
        s
    }
}

/// The transition table: what one event does to the state, given the
/// current number of candidates.
pub open spec fn step_spec(s: StateView, e: KeyInput, n: nat) -> StateView {
    match e {
        KeyInput::Char(c) => StateView { query: s.query.push(c), selected: 0 },
        KeyInput::Backspace => StateView {
            query: if s.query.len() == 0 {
                s.query
            } else {
                s.query.drop_last()
            },
            selected: 0,
        },
        KeyInput::Up => StateView {
            query: s.query,
            selected: if s.selected > 0 {
                (s.selected - 1) as nat
            } else {
                0
            },
        },
        KeyInput::Down => StateView {
            query: s.query,
            selected: if s.selected + 1 < n {
                s.selected + 1
            } else {
                s.selected
            },
        },
        _ => s,
    }
}

/// Which events end the loop, and how.
pub open spec fn signal_spec(e: KeyInput) -> LoopSignal {
    match e {
        KeyInput::Enter => LoopSignal::Accept,
        KeyInput::Esc => LoopSignal::Cancel,
        _ => LoopSignal::Continue,
    }
}

/// Applies one event to the loop state, following the transition table:
/// a character is appended to the query and resets the selection, a
/// backspace removes the last query character and resets the selection,
/// up and down move the selection within the candidate list, enter and
/// escape end the loop, and everything else changes nothing.
pub fn apply_event(state: &mut UiState, event: KeyInput, num_candidates: usize) -> (sig:
    LoopSignal)
    ensures
        final(state)@ == step_spec(old(state)@, event, num_candidates as nat),
        sig == signal_spec(event),
{
    let sig = match event {
        KeyInput::Char(c) => {
            push_char(&mut state.query, c);
            state.selected = 0;
            LoopSignal::Continue
        },
        KeyInput::Backspace => {
            let _ = pop_char(&mut state.query);
            state.selected = 0;
            LoopSignal::Continue
        },
        KeyInput::Up => {
            if state.selected > 0 {
                state.selected = state.selected - 1;
            }
            LoopSignal::Continue
        },
        KeyInput::Down => {
            if num_candidates > 0 && state.selected < num_candidates - 1 {
                state.selected = state.selected + 1;
            }
            LoopSignal::Continue
        },
        KeyInput::Enter => LoopSignal::Accept,
        KeyInput::Esc => LoopSignal::Cancel,
        KeyInput::Resize => LoopSignal::Continue,
        KeyInput::Other => LoopSignal::Continue,
    };
    proof {
        assert(state@ =~= step_spec(old(state)@, event, num_candidates as nat));
    }
    sig
}

/// The selection is in bounds: below the list length, or zero when the
/// list is empty.
pub open spec fn selection_ok(sel: nat, n: nat) -> bool {
    sel < n || (n == 0 && sel == 0)
}

/// The clamped selection: pulled back to the last candidate when the list
/// shrank below it, zero when the list is empty.
pub open spec fn clamp_spec(sel: nat, n: nat) -> nat {
    if sel < n {
        sel
    } else if n == 0 {
        0
    } else {
        (n - 1) as nat
    }
}

/// Clamps the selection into the current candidate list.
pub fn clamp_selection(state: &mut UiState, num_candidates: usize)
    ensures
        final(state)@.query == old(state)@.query,
        final(state)@.selected == clamp_spec(old(state)@.selected, num_candidates as nat),
        selection_ok(final(state)@.selected, num_candidates as nat),
{
    if state.selected >= num_candidates {
        if num_candidates == 0 {
            state.selected = 0;
        } else {
            state.selected = num_candidates - 1;
        }
    }
}

/// The chosen command on confirmation: the selected candidate's text, or
/// nothing when no candidate matched.
pub fn resolve_selection(cands: &Vec<Candidate>, selected: usize) -> (r: Option<String>)
    requires
        selected < cands@.len() || cands@.len() == 0,
    ensures
        match r {
            Option::Some(t) => cands@.len() > 0 && t@ == cands@[selected as int]@.text,
            Option::None => cands@.len() == 0,
        },
{
    if cands.len() == 0 {
        None
    } else {
        Some(cands[selected].text.clone())
    }
}

/// The number of candidates the index yields for a query.
pub open spec fn cand_count(entries: Seq<CandView>, q: Seq<char>) -> nat {
    rank_spec(entries, q).len()
}

/// The state after a sequence of events, each applied against the
/// candidate list its own query yields.
pub open spec fn run_events(entries: Seq<CandView>, s: StateView, events: Seq<KeyInput>) -> StateView
    decreases events.len(),
{
    if events.len() == 0 {
        s
    } else {
        let s1 = run_events(entries, s, events.drop_last());
        step_spec(s1, events.last(), cand_count(entries, s1.query))
    }
}

/// The fixed header line shown above the search prompt.
pub open spec fn header_view() -> Seq<char> {
    "Type your search query. Use ↑/↓ to select. Press Enter to choose. (Esc to exit)"@
}

/// The header as a string.
pub fn header_text() -> (r: &'static str)
    ensures
        r@ == header_view(),
{
    "Type your search query. Use ↑/↓ to select. Press Enter to choose. (Esc to exit)"
}

/// The display line for one candidate: a marker for the selected one, the
/// command text, and its count in parentheses.
pub open spec fn candidate_line(c: CandView, selected: bool) -> Seq<char> {
    (if selected {
        "> "@
    } else {
        "  "@
    }) + c.text + " ("@ + dec_digits(c.count) + ")"@
}

/// The prompt line.
pub open spec fn search_line(q: Seq<char>) -> Seq<char> {
    "Search: "@ + q
}

/// The lines of one frame, top to bottom: header, prompt, a separator,
/// then one line per candidate in rank order, each truncated to the
/// viewport width.
pub open spec fn frame_lines(q: Seq<char>, cands: Seq<CandView>, selected: nat, width: nat) -> Seq<
    Seq<char>,
> {
    Seq::new(
        cands.len() + 3,
        |i: int|
            truncated(
                if i == 0 {
                    header_view()
                } else if i == 1 {
                    search_line(q)
                } else if i == 2 {
                    Seq::<char>::empty()
                } else {
                    candidate_line(cands[i - 3], i - 3 == selected)
                },
                width,
            ),
    )
}

/// Builds the display lines of one frame.
pub fn render_lines(query: &str, cands: &Vec<Candidate>, selected: usize, width: u16) -> (lines:
    Vec<String>)
    ensures
        lines@.map_values(|s: String| s@) == frame_lines(
            query@,
            views_of(cands@),
            selected as nat,
            width as nat,
        ),
{
    let ghost target = frame_lines(query@, views_of(cands@), selected as nat, width as nat);
    let mut lines: Vec<String> = Vec::new();
    lines.push(truncate_to_width(header_text(), width));
    let mut sl = "Search: ".to_owned();
    sl.append(query);
    lines.push(truncate_to_width(sl.as_str(), width));
    lines.push(String::new());
    let n = cands.len();
    let mut i: usize = 0;
    while i < n
        invariant
            i <= n,
            n == cands@.len(),
            lines@.len() == 3 + i,
            target == frame_lines(query@, views_of(cands@), selected as nat, width as nat),
            lines@[0]@ == target[0],
            lines@[1]@ == target[1],
            lines@[2]@ == target[2],
            forall|j: int| 0 <= j < i ==> #[trigger] lines@[3 + j]@ == target[3 + j],
        decreases n - i,
    {
        let c: &Candidate = &cands[i];
        let mut line = if i == selected {
            "> ".to_owned()
        } else {
            "  ".to_owned()
        };
        line.append(c.text.as_str());
        line.append(" (");
        let cnt = usize_to_string(c.count);
        line.append(cnt.as_str());
        line.append(")");
        proof {
            assert(line@ =~= candidate_line(c@, i == selected));
        }
        lines.push(truncate_to_width(line.as_str(), width));
        i = i + 1;
    }
    proof {
        assert forall|t: int| 0 <= t < lines@.len() implies lines@.map_values(|s: String| s@)[t]
            == target[t] by {
            if t >= 3 {
                assert(lines@[3 + (t - 3)]@ == target[3 + (t - 3)]);
            }
        }
        assert(lines@.map_values(|s: String| s@) =~= target);
    }
    lines
}

/// After any sequence of transitions from the initial state, the
/// selection stays within the candidate list of the current query:
/// 0 <= selected < max(1, len).
pub proof fn lemma_selection_invariant(entries: Seq<CandView>, events: Seq<KeyInput>)
    ensures
        selection_ok(
            run_events(entries, init_state(), events).selected,
            cand_count(entries, run_events(entries, init_state(), events).query),
        ),
    decreases events.len(),
{
    if events.len() > 0 {
        lemma_selection_invariant(entries, events.drop_last());
    }
}

} // verus!
