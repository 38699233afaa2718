use kickoff::fuzzy::fuzzy_score;
use kickoff::history::{decay_windows, History, HistoryEntry};
use kickoff::line::{parse_line, read_line, ParsedLine};
use kickoff::selection::{Element, ElementList, ElementListBuilder, SourceJob};
use kickoff::sources::{parse_entries, parse_files, path_elements};

fn strings(v: &[&str]) -> Vec<String> {
    v.iter().map(|s| s.to_string()).collect()
}

fn index_of(elements: Vec<Element>) -> ElementList {
    match ElementList::join::<String>(vec![Ok(elements)]) {
        Ok(list) => list,
        Err(_) => panic!("no job failed"),
    }
}

fn names(v: &[&Element]) -> Vec<String> {
    v.iter().map(|e| e.name.clone()).collect()
}

fn entry(name: &str, value: &str, num_used: usize) -> HistoryEntry {
    HistoryEntry { name: name.to_string(), value: value.to_string(), num_used }
}

fn element(name: &str, value: &str, base_score: usize) -> Element {
    Element { name: name.to_string(), value: value.to_string(), base_score }
}

#[test]
fn parse_line_test() {
    assert_eq!(parse_line("foobar"), Some(("foobar".to_string(), None)));
    assert_eq!(
        parse_line("foo=bar"),
        Some(("foo".to_string(), Some("bar".to_string())))
    );
    assert_eq!(
        parse_line("foo=bar\"baz\""),
        Some(("foo".to_string(), Some("bar\"baz\"".to_string())))
    );
    assert_eq!(
        parse_line(
            r#"Desktop: Firefox Developer Edition - New Window=/usr/lib/firefox-developer-edition/firefox --class="firefoxdeveloperedition" --new-window %u"#
        ),
        Some((
            "Desktop: Firefox Developer Edition - New Window".to_string(),
            Some(
                r#"/usr/lib/firefox-developer-edition/firefox --class="firefoxdeveloperedition" --new-window %u"#
                    .to_string()
            )
        ))
    )
}

#[test]
fn parse_line_trims_and_unquotes() {
    assert_eq!(parse_line("   \t "), None);
    assert_eq!(parse_line(""), None);
    assert_eq!(
        parse_line("  name  =  value  "),
        Some(("name".to_string(), Some("value".to_string())))
    );
    assert_eq!(
        parse_line("name=\" a=b \""),
        Some(("name".to_string(), Some(" a=b ".to_string())))
    );
    assert_eq!(
        parse_line("name=\"unterminated"),
        Some(("name".to_string(), Some("\"unterminated".to_string())))
    );
    assert_eq!(parse_line("a=b=c"), Some(("a".to_string(), Some("b=c".to_string()))));
    assert_eq!(parse_line("x="), Some(("x".to_string(), Some(String::new()))));
}

#[test]
fn read_line_kinds() {
    assert!(matches!(read_line("  "), ParsedLine::Ignored));
    assert!(matches!(read_line("%base_score=12"), ParsedLine::Directive(12)));
    assert!(matches!(read_line("%base_score=abc"), ParsedLine::Malformed));
    assert!(matches!(read_line("%base_score=-1"), ParsedLine::Malformed));
    assert!(matches!(
        read_line("%base_score=99999999999999999999999999"),
        ParsedLine::Malformed
    ));
    assert!(matches!(read_line("=value"), ParsedLine::Malformed));
    match read_line("firefox") {
        ParsedLine::Entry(n, v) => {
            assert_eq!(n, "firefox");
            assert_eq!(v, "firefox");
        }
        _ => panic!("an entry"),
    }
    match read_line("web = firefox --new-window") {
        ParsedLine::Entry(n, v) => {
            assert_eq!(n, "web");
            assert_eq!(v, "firefox --new-window");
        }
        _ => panic!("an entry"),
    }
}

#[test]
fn scenario_file_source_directives() {
    let lines = strings(&["%base_score=10", "alpha=run-alpha", "beta", "%base_score=0", "gamma"]);
    let elements = parse_entries(&lines);
    assert_eq!(
        elements,
        vec![
            element("alpha", "run-alpha", 10),
            element("beta", "beta", 10),
            element("gamma", "gamma", 0),
        ]
    );
}

#[test]
fn malformed_and_blank_lines_are_skipped() {
    let lines = strings(&["", "=oops", "  ", "%base_score=x", "ok"]);
    assert_eq!(parse_entries(&lines), vec![element("ok", "ok", 0)]);
}

#[test]
fn each_file_starts_with_base_score_zero() {
    let files = vec![
        strings(&["%base_score=7", "a"]),
        strings(&["b"]),
    ];
    assert_eq!(
        parse_files(&files),
        vec![element("a", "a", 7), element("b", "b", 0)]
    );
}

#[test]
fn path_scan_sorts_and_dedups() {
    let found = strings(&["cut", "cat", "zsh", "cat", "bash"]);
    let elements = path_elements(&found);
    let got: Vec<&str> = elements.iter().map(|e| e.name.as_str()).collect();
    assert_eq!(got, vec!["bash", "cat", "cut", "zsh"]);
    assert!(elements.iter().all(|e| e.value == e.name && e.base_score == 0));
    assert!(path_elements(&Vec::new()).is_empty());
}

#[test]
fn scenario_path_index_and_queries() {
    let list = index_of(path_elements(&strings(&["cat", "cut"])));
    assert_eq!(names(&list.as_ref_vec()), vec!["cat", "cut"]);
    let both = names(&list.search("ct"));
    assert_eq!(both.len(), 2);
    assert!(both.contains(&"cat".to_string()) && both.contains(&"cut".to_string()));
    assert_eq!(names(&list.search("at")), vec!["cat"]);
}

#[test]
fn scenario_history_merge_then_sort() {
    let mut list = index_of(path_elements(&strings(&["cat", "cut"])));
    let history = History::restore("h.csv".to_string(), vec![entry("cat", "cat", 3)], 0);
    list.merge_history(&history);
    list.sort_score();
    let all = list.as_ref_vec();
    assert_eq!(names(&all), vec!["cat", "cut"]);
    assert_eq!(all[0].base_score, 3);
    assert_eq!(all[1].base_score, 0);
}

#[test]
fn history_overrides_source_score() {
    let mut list = index_of(vec![element("cat", "cat", 0), element("ls", "ls", 9)]);
    let history = History::restore("h.csv".to_string(), vec![entry("cat", "cat -n", 5)], 0);
    list.merge_history(&history);
    let all = list.as_ref_vec();
    let cats: Vec<&&Element> = all.iter().filter(|e| e.name == "cat").collect();
    assert_eq!(cats.len(), 1);
    assert_eq!(cats[0].base_score, 5);
    assert_eq!(cats[0].value, "cat");
}

#[test]
fn merge_adds_unknown_commands_without_duplicates() {
    let mut list = index_of(path_elements(&strings(&["cat", "cut"])));
    let history = History::restore(
        "h.csv".to_string(),
        vec![entry("echo hi", "echo hi", 2), entry("cut", "cut", 4)],
        0,
    );
    list.merge_history(&history);
    let all = list.as_ref_vec();
    assert_eq!(names(&all), vec!["cat", "cut", "echo hi"]);
    assert_eq!(all[1].base_score, 4);
    assert_eq!(all[2].base_score, 2);
    let mut seen = names(&all);
    seen.dedup();
    assert_eq!(seen.len(), all.len());
}

#[test]
fn empty_query_returns_everything_by_score() {
    let list = index_of(vec![
        element("a", "a", 1),
        element("b", "b", 5),
        element("c", "c", 1),
        element("d", "d", 5),
    ]);
    assert_eq!(names(&list.search("")), vec!["b", "d", "a", "c"]);
    let mut sorted = index_of(vec![
        element("a", "a", 1),
        element("b", "b", 5),
        element("c", "c", 1),
        element("d", "d", 5),
    ]);
    sorted.sort_score();
    assert_eq!(names(&sorted.as_ref_vec()), vec!["b", "d", "a", "c"]);
}

#[test]
fn search_keeps_only_subsequence_matches() {
    let list = index_of(path_elements(&strings(&["firefox", "fzf", "ls", "Xorg"])));
    for n in names(&list.search("ff")) {
        assert!(n == "firefox" || n == "fzf");
    }
    assert_eq!(list.search("ff").len(), 2);
    assert!(list.search("zz").is_empty());
    assert!(list.search("xorg").is_empty());
    assert_eq!(names(&list.search("Xo")), vec!["Xorg"]);
    assert_eq!(list.search_indices("ls"), vec![3]);
}

#[test]
fn fuzzy_scores_follow_the_matcher() {
    assert_eq!(fuzzy_score("anything", ""), Some(0));
    assert_eq!(fuzzy_score("cat", "ta"), None);
    assert_eq!(fuzzy_score("cat", "C"), None);
    let contiguous = fuzzy_score("abc", "abc").unwrap();
    let spread = fuzzy_score("axxbxxc", "abc").unwrap();
    assert!(contiguous > spread);
    assert!(contiguous > 0);
}

#[test]
fn search_rank_adds_base_score() {
    let list = index_of(vec![element("axxbxxc", "x", 0), element("abc", "y", 0)]);
    assert_eq!(names(&list.search("abc")), vec!["abc", "axxbxxc"]);
    let boost = fuzzy_score("abc", "abc").unwrap() as usize + 1000;
    let list = index_of(vec![element("axxbxxc", "x", boost), element("abc", "y", 0)]);
    assert_eq!(names(&list.search("abc")), vec!["axxbxxc", "abc"]);
}

#[test]
fn rank_uses_given_scores() {
    let list = index_of(vec![element("a", "a", 1), element("b", "b", 0), element("c", "c", 3)]);
    assert_eq!(list.rank(&vec![Some(5), None, Some(2)]), vec![0, 2]);
    assert_eq!(list.rank(&vec![Some(1), Some(2), Some(0)]), vec![2, 0, 1]);
    assert_eq!(list.rank(&vec![None, None, None]), Vec::<usize>::new());
}

#[test]
fn increment_then_reload_counts_launches() {
    let mut history = History::restore("h.csv".to_string(), vec![entry("vim", "vim", 2)], 0);
    for _ in 0..3 {
        history.inc(&element("vim", "vim notes.txt", 0));
    }
    history.inc(&element("htop", "htop", 0));
    let saved = history.as_vec().clone();
    let reloaded = History::restore(history.path().clone(), saved, 0);
    assert_eq!(
        reloaded.as_vec(),
        &vec![entry("vim", "vim notes.txt", 5), entry("htop", "htop", 1)]
    );
    assert_eq!(reloaded.path(), "h.csv");
}

#[test]
fn decay_lowers_counts_and_drops_zeros() {
    let records = vec![entry("a", "a", 3), entry("b", "b", 2), entry("c", "c", 5)];
    let history = History::restore("h.csv".to_string(), records, 2);
    assert_eq!(history.as_vec(), &vec![entry("a", "a", 1), entry("c", "c", 3)]);
    let none = History::restore("h.csv".to_string(), vec![entry("a", "a", 1)], u64::MAX);
    assert!(none.as_vec().is_empty());
}

#[test]
fn scenario_decay_after_hundred_hours() {
    let hour: u64 = 3600;
    let elapsed = decay_windows(100 * hour, 0, 48);
    assert_eq!(elapsed, 2);
    let history = History::restore("h.csv".to_string(), vec![entry("cat", "cat", 3)], elapsed);
    assert_eq!(history.as_vec(), &vec![entry("cat", "cat", 1)]);
}

#[test]
fn decay_windows_edges() {
    let day: u64 = 24 * 3600;
    assert_eq!(decay_windows(10 * day, 0, 0), 0);
    assert_eq!(decay_windows(0, 10 * day, 48), 0);
    assert_eq!(decay_windows(4 * day, 2 * day - 1, 48), 2);
    assert_eq!(decay_windows(u64::MAX, 0, u64::MAX), 0);
    assert_eq!(decay_windows(u64::MAX, 0, 1), u64::MAX / 3600);
}

#[test]
fn join_keeps_order_and_fails_fast() {
    let joined = ElementList::join::<String>(vec![
        Ok(vec![element("s", "s", 0)]),
        Ok(vec![element("f", "f", 1)]),
        Ok(vec![element("p", "p", 0)]),
    ]);
    match joined {
        Ok(list) => assert_eq!(names(&list.as_ref_vec()), vec!["s", "f", "p"]),
        Err(_) => panic!("every job succeeded"),
    }
    let failed = ElementList::join::<String>(vec![
        Ok(vec![element("s", "s", 0)]),
        Err("first".to_string()),
        Err("second".to_string()),
    ]);
    match failed {
        Ok(_) => panic!("a job failed"),
        Err(e) => assert_eq!(e, "first"),
    }
    let empty = ElementList::join::<String>(Vec::new());
    assert!(matches!(empty, Ok(ref l) if l.len() == 0));
}

#[test]
fn builder_jobs_in_fixed_order() {
    let mut builder = ElementListBuilder::new();
    assert!(builder.jobs().is_empty());
    builder.add_path();
    builder.add_files(&strings(&["one", "two"]));
    builder.add_stdin();
    let jobs = builder.jobs();
    assert_eq!(jobs.len(), 3);
    assert!(matches!(jobs[0], SourceJob::Stdin));
    match &jobs[1] {
        SourceJob::Files(fs) => assert_eq!(fs, &strings(&["one", "two"])),
        _ => panic!("files second"),
    }
    assert!(matches!(jobs[2], SourceJob::Path));
    let mut only_path = ElementListBuilder::new();
    only_path.add_path();
    only_path.add_files(&[]);
    let jobs = only_path.jobs();
    assert_eq!(jobs.len(), 1);
    assert!(matches!(jobs[0], SourceJob::Path));
}
