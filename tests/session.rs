use kickoff::selection::{Element, ElementList};
use kickoff::session::{Action, Session, Step};
use kickoff::sources::path_elements;

fn index(names: &[&str]) -> ElementList {
    let names: Vec<String> = names.iter().map(|s| s.to_string()).collect();
    match ElementList::join::<String>(vec![Ok(path_elements(&names))]) {
        Ok(list) => list,
        Err(_) => panic!("no job failed"),
    }
}

fn chosen(session: &Session, list: &ElementList) -> String {
    session.selected(list).map(|e| e.name).unwrap_or_default()
}

#[test]
fn new_session_selects_first_candidate() {
    let list = index(&["cat", "cut"]);
    let session = Session::new(&list);
    assert_eq!(chosen(&session, &list), "cat");
}

#[test]
fn typing_narrows_and_unmatched_query_is_selected() {
    let list = index(&["cat", "cut"]);
    let mut session = Session::new(&list);
    session.insert(&list, "at");
    assert_eq!(chosen(&session, &list), "cat");
    session.insert(&list, "zz");
    assert_eq!(
        session.selected(&list),
        Some(Element { name: "atzz".to_string(), value: "atzz".to_string(), base_score: 0 })
    );
    session.delete(&list);
    session.delete(&list);
    assert_eq!(chosen(&session, &list), "cat");
}

#[test]
fn delete_word_removes_back_to_space() {
    let list = index(&["ls"]);
    let mut session = Session::new(&list);
    session.insert(&list, "git commit -m");
    session.delete_word(&list);
    assert_eq!(chosen_query(&mut session, &list), "git commit");
    session.delete_word(&list);
    assert_eq!(chosen_query(&mut session, &list), "git");
    session.delete_word(&list);
    // an empty query shows the whole index again
    assert_eq!(chosen(&session, &list), "ls");
    session.delete_word(&list);
    assert_eq!(chosen(&session, &list), "ls");
}

fn chosen_query(session: &mut Session, list: &ElementList) -> String {
    session.nav_up(usize::MAX);
    session.nav_up(1);
    match session.selected(list) {
        Some(e) if e.base_score == 0 && e.name == e.value => e.name,
        _ => String::new(),
    }
}

#[test]
fn navigation_moves_between_results_and_query() {
    let list = index(&["a1", "a2", "a3"]);
    let mut session = Session::new(&list);
    session.insert(&list, "a");
    session.nav_down(1);
    assert_eq!(chosen(&session, &list), "a2");
    session.nav_down(5);
    assert_eq!(chosen(&session, &list), "a2");
    session.nav_down(1);
    assert_eq!(chosen(&session, &list), "a3");
    session.nav_up(10);
    assert_eq!(chosen(&session, &list), "a1");
    session.nav_up(1);
    assert_eq!(chosen(&session, &list), "a");
    session.nav_down(1);
    assert_eq!(chosen(&session, &list), "a1");
}

#[test]
fn actions_drive_the_loop() {
    let list = index(&["cat", "cut"]);
    let mut session = Session::new(&list);
    assert_eq!(session.apply(&list, Action::Insert("cu".to_string())), Step::Continue);
    assert_eq!(session.apply(&list, Action::Paste), Step::Paste);
    assert_eq!(session.apply(&list, Action::Complete), Step::Continue);
    match session.apply(&list, Action::Execute) {
        Step::Launch(e) => assert_eq!(e.value, "cut"),
        other => panic!("expected a launch, got {:?}", other),
    }
    assert_eq!(session.apply(&list, Action::Exit), Step::Exit);
}
