use histsearch::search::{build_frequency_map, rank, Candidate, FrequencyIndex};

fn index_of(cmds: &[&str]) -> FrequencyIndex {
    let owned: Vec<String> = cmds.iter().map(|s| s.to_string()).collect();
    build_frequency_map(&owned)
}

fn texts(cands: &Vec<Candidate>) -> Vec<String> {
    cands.iter().map(|c| c.text.clone()).collect()
}

fn sample_index() -> FrequencyIndex {
    // git status: 5, git commit: 3, ls: 5
    let mut cmds: Vec<&str> = Vec::new();
    for _ in 0..5 {
        cmds.push("git status");
    }
    for _ in 0..3 {
        cmds.push("git commit");
    }
    for _ in 0..5 {
        cmds.push("ls");
    }
    index_of(&cmds)
}

#[test]
fn frequency_counts_are_per_distinct_command() {
    let idx = index_of(&["ls", "pwd", "ls", "ls"]);
    assert_eq!(idx.entries.len(), 2);
    for e in &idx.entries {
        if e.text == "ls" {
            assert_eq!(e.count, 3);
        } else {
            assert_eq!(e.text, "pwd");
            assert_eq!(e.count, 1);
        }
    }
}

#[test]
fn empty_query_ranks_by_count_then_text() {
    let idx = sample_index();
    let res = rank(&idx, "");
    assert_eq!(
        texts(&res),
        vec!["git status".to_string(), "ls".to_string(), "git commit".to_string()]
    );
    assert_eq!(res[0].count, 5);
    assert_eq!(res[1].count, 5);
    assert_eq!(res[2].count, 3);
}

#[test]
fn query_filters_by_substring() {
    let idx = sample_index();
    let res = rank(&idx, "git");
    assert_eq!(texts(&res), vec!["git status".to_string(), "git commit".to_string()]);
}

#[test]
fn matching_is_case_insensitive() {
    let idx = index_of(&["Git Status", "ls"]);
    let res = rank(&idx, "git");
    assert_eq!(texts(&res), vec!["Git Status".to_string()]);
    let res2 = rank(&idx, "GIT");
    assert_eq!(texts(&res2), vec!["Git Status".to_string()]);
}

#[test]
fn result_is_capped_at_ten() {
    let cmds = [
        "cat a", "cat b", "cat c", "cat d", "cat e", "cat f", "cat g", "cat h", "cat i", "cat j",
        "cat k", "cat l", "cat m", "cat n", "cat o",
    ];
    let idx = index_of(&cmds);
    let res = rank(&idx, "a");
    assert_eq!(res.len(), 10);
}

#[test]
fn empty_query_returns_min_of_ten_and_distinct() {
    let idx = index_of(&["a", "b", "c"]);
    assert_eq!(rank(&idx, "").len(), 3);
    let many: Vec<&str> = vec![
        "c01", "c02", "c03", "c04", "c05", "c06", "c07", "c08", "c09", "c10", "c11", "c12",
    ];
    let idx2 = index_of(&many);
    assert_eq!(rank(&idx2, "").len(), 10);
}

#[test]
fn rank_is_pure() {
    let idx = sample_index();
    let a = rank(&idx, "git");
    let b = rank(&idx, "git");
    assert_eq!(texts(&a), texts(&b));
    let ca: Vec<usize> = a.iter().map(|c| c.count).collect();
    let cb: Vec<usize> = b.iter().map(|c| c.count).collect();
    assert_eq!(ca, cb);
}

#[test]
fn no_match_yields_empty_list() {
    let idx = sample_index();
    let res = rank(&idx, "zzz");
    assert_eq!(res.len(), 0);
}

#[test]
fn top_ten_keeps_the_most_frequent() {
    // Eleven matching commands; the one with the lowest count must be the
    // one dropped.
    let mut cmds: Vec<String> = Vec::new();
    for i in 0..11 {
        let name = format!("task{:02}", i);
        // task00 occurs once, every other task occurs twice.
        cmds.push(name.clone());
        if i > 0 {
            cmds.push(name);
        }
    }
    let idx = build_frequency_map(&cmds);
    let res = rank(&idx, "task");
    assert_eq!(res.len(), 10);
    assert!(res.iter().all(|c| c.text != "task00"));
    assert!(res.iter().all(|c| c.count == 2));
}
