use histsearch::search::{build_frequency_map, rank};
use histsearch::ui::{
    apply_event, clamp_selection, header_text, render_lines, resolve_selection, KeyInput,
    LoopSignal, UiState,
};

#[test]
fn typing_appends_and_resets_selection() {
    let mut st = UiState::new();
    st.selected = 2;
    let sig = apply_event(&mut st, KeyInput::Char('g'), 3);
    assert_eq!(sig, LoopSignal::Continue);
    assert_eq!(st.query, "g");
    assert_eq!(st.selected, 0);
}

#[test]
fn backspace_removes_last_character_and_resets_selection() {
    let mut st = UiState::new();
    apply_event(&mut st, KeyInput::Char('l'), 0);
    apply_event(&mut st, KeyInput::Char('s'), 0);
    let mut st2 = st;
    st2.selected = 1;
    apply_event(&mut st2, KeyInput::Backspace, 3);
    assert_eq!(st2.query, "l");
    assert_eq!(st2.selected, 0);
}

#[test]
fn backspace_on_empty_query_is_a_no_op() {
    let mut st = UiState::new();
    apply_event(&mut st, KeyInput::Backspace, 0);
    assert_eq!(st.query, "");
    assert_eq!(st.selected, 0);
}

#[test]
fn up_stops_at_zero() {
    let mut st = UiState::new();
    apply_event(&mut st, KeyInput::Up, 3);
    assert_eq!(st.selected, 0);
    st.selected = 2;
    apply_event(&mut st, KeyInput::Up, 3);
    assert_eq!(st.selected, 1);
}

#[test]
fn down_stops_at_the_end_of_a_three_item_list() {
    let mut st = UiState::new();
    for _ in 0..8 {
        apply_event(&mut st, KeyInput::Down, 3);
    }
    assert_eq!(st.selected, 2);
}

#[test]
fn down_on_empty_list_stays_at_zero() {
    let mut st = UiState::new();
    apply_event(&mut st, KeyInput::Down, 0);
    assert_eq!(st.selected, 0);
}

#[test]
fn typing_after_moving_down_resets_selection() {
    let mut st = UiState::new();
    apply_event(&mut st, KeyInput::Down, 3);
    apply_event(&mut st, KeyInput::Down, 3);
    assert_eq!(st.selected, 2);
    apply_event(&mut st, KeyInput::Char('x'), 3);
    assert_eq!(st.selected, 0);
}

#[test]
fn enter_accepts_and_escape_cancels() {
    let mut st = UiState::new();
    assert_eq!(apply_event(&mut st, KeyInput::Enter, 3), LoopSignal::Accept);
    assert_eq!(apply_event(&mut st, KeyInput::Esc, 3), LoopSignal::Cancel);
    assert_eq!(apply_event(&mut st, KeyInput::Resize, 3), LoopSignal::Continue);
    assert_eq!(apply_event(&mut st, KeyInput::Other, 3), LoopSignal::Continue);
    assert_eq!(st.query, "");
    assert_eq!(st.selected, 0);
}

#[test]
fn clamp_pulls_selection_back_into_a_shrunk_list() {
    let mut st = UiState::new();
    st.selected = 7;
    clamp_selection(&mut st, 3);
    assert_eq!(st.selected, 2);
    clamp_selection(&mut st, 0);
    assert_eq!(st.selected, 0);
    st.selected = 1;
    clamp_selection(&mut st, 3);
    assert_eq!(st.selected, 1);
}

#[test]
fn resolving_an_empty_list_reports_no_match() {
    let cmds: Vec<String> = Vec::new();
    let idx = build_frequency_map(&cmds);
    let cands = rank(&idx, "");
    assert!(resolve_selection(&cands, 0).is_none());
}

#[test]
fn resolving_picks_the_selected_candidate() {
    let cmds: Vec<String> = vec!["b".to_string(), "a".to_string(), "a".to_string()];
    let idx = build_frequency_map(&cmds);
    let cands = rank(&idx, "");
    // "a" has count 2 and comes first, "b" second.
    assert_eq!(resolve_selection(&cands, 1), Some("b".to_string()));
}

#[test]
fn frame_has_header_prompt_separator_and_candidates() {
    let cmds: Vec<String> = vec!["ls".to_string(), "ls".to_string(), "pwd".to_string()];
    let idx = build_frequency_map(&cmds);
    let cands = rank(&idx, "");
    let lines = render_lines("l", &cands, 0, 80);
    assert_eq!(lines.len(), 5);
    assert_eq!(lines[0], header_text());
    assert_eq!(lines[1], "Search: l");
    assert_eq!(lines[2], "");
    assert_eq!(lines[3], "> ls (2)");
    assert_eq!(lines[4], "  pwd (1)");
}

#[test]
fn frame_marks_the_selected_candidate() {
    let cmds: Vec<String> = vec!["ls".to_string(), "pwd".to_string()];
    let idx = build_frequency_map(&cmds);
    let cands = rank(&idx, "");
    let lines = render_lines("", &cands, 1, 80);
    assert_eq!(lines[3], "  ls (1)");
    assert_eq!(lines[4], "> pwd (1)");
}

#[test]
fn frame_lines_are_truncated_to_the_viewport_width() {
    let cmds: Vec<String> = vec!["abcdefgh".to_string()];
    let idx = build_frequency_map(&cmds);
    let cands = rank(&idx, "");
    let lines = render_lines("", &cands, 0, 4);
    assert_eq!(lines[1], "Sear");
    assert_eq!(lines[3], "> ab");
}
