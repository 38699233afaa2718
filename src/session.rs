//! The state of one interactive session: the query, its results and the
//! selection, and how each user action changes them.
use vstd::prelude::*;
use crate::ranking::is_stable_rank;
use crate::selection::{Candidate, Element, ElementList, query_keys};
use crate::text::chars_of;

verus! {

/// The position of the last `c` in `s`, or -1 where there is none.
pub open spec fn last_index_of(s: Seq<char>, c: char) -> int
    decreases s.len(),
{
    if s.len() == 0 {
        -1
    } else if s.last() == c {
        s.len() - 1
    } else {
        last_index_of(s.drop_last(), c)
    }
}

/// The query without its last word: its last character goes, then every
/// character back to and including the space before it.
pub open spec fn without_last_word(q: Seq<char>) -> Seq<char> {
    if q.len() == 0 {
        q
    } else {
        let p = q.drop_last();
        let k = last_index_of(p, ' ');
        if k < 0 {
            seq![]
        } else {
            p.subrange(0, k)
        }
    }
}

/// A user action on the session.
#[derive(Clone, Debug, PartialEq, Eq)]
pub enum Action {
    Execute,
    Exit,
    Complete,
    NavUp,
    NavDown,
    Delete,
    DeleteWord,
    Paste,
    Insert(String),
}

/// What the surrounding loop does after an action.
#[derive(Debug, PartialEq, Eq)]
pub enum Step {
    /// Keep going.
    Continue,
    /// Close without launching.
    Exit,
    /// Launch this element, then close.
    Launch(Element),
    /// Read the clipboard and hand it back as `Action::Insert`.
    Paste,
}

/// The query, the positions of its results in the index, and the selection:
/// either a result, by its place among the results, or the query itself.
#[derive(Debug)]
pub struct Session {
    query: String,
    select_index: usize,
    select_input: bool,
    results: Vec<usize>,
}

/// The model of a `Session`.
pub struct SessionView {
    pub query: Seq<char>,
    pub select_index: nat,
    pub select_input: bool,
    pub results: Seq<usize>,
}

impl View for Session {
    type V = SessionView;

    closed spec fn view(&self) -> SessionView {
        SessionView {
            query: self.query@,
            select_index: self.select_index as nat,
            select_input: self.select_input,
            results: self.results@,
        }
    }
}

/// `v` holds the fresh results of its query against `list`, with the first
/// result selected, or the query itself where there is none.
pub open spec fn searched(v: SessionView, list: Seq<Candidate>) -> bool {
    &&& is_stable_rank(query_keys(list, v.query), v.results)
    &&& v.select_index == 0
    &&& v.select_input == (v.results.len() == 0)
}

/// The candidate that the selection of `v` stands for: the query itself where
/// it is selected, else the selected result; none where the selection points at
/// no candidate of `list`.
pub open spec fn selection_of(v: SessionView, list: Seq<Candidate>) -> Option<Candidate> {
    if v.select_input {
        Some(Candidate { name: v.query, value: v.query, base_score: 0 })
    } else if v.select_index < v.results.len() && v.results[v.select_index as int] < list.len() {
        Some(list[v.results[v.select_index as int] as int])
    } else {
        None
    }
}

impl Session {
    /// A session with an empty query, showing the whole index.
    pub fn new(list: &ElementList) -> (r: Session)
        ensures
            r@.query.len() == 0,
            searched(r@, list@),
    {
        let mut s = Session {
            query: String::new(),
            select_index: 0,
            select_input: false,
            results: Vec::new(),
        };
        s.search(list);
        s
    }

    /// Runs the query again against `list` and selects the first result, or the
    /// query itself where nothing matches.
    pub fn search(&mut self, list: &ElementList)
        ensures
            final(self)@.query == old(self)@.query,
            searched(final(self)@, list@),
    {
        self.results = list.search_indices(self.query.as_str());
        self.select_index = 0;
        self.select_input = self.results.len() == 0;
    }

    /// Appends `input` to the query and searches again.
    pub fn insert(&mut self, list: &ElementList, input: &str)
        ensures
            final(self)@.query == old(self)@.query + input@,
            searched(final(self)@, list@),
    {
        self.query.append(input);
        self.search(list);
    }

    /// Removes the last character of the query and searches again.
    pub fn delete(&mut self, list: &ElementList)
        ensures
            final(self)@.query == if old(self)@.query.len() == 0 {
                old(self)@.query
            } else {
                old(self)@.query.drop_last()
            },
            searched(final(self)@, list@),
    {
        let n = self.query.as_str().unicode_len();
        if n > 0 {
            let shorter = self.query.as_str().substring_char(0, n - 1).to_owned();
            assert(shorter@ =~= self.query@.drop_last());
            self.query = shorter;
        }
        self.search(list);
    }

    /// Removes the last word of the query (see `without_last_word`) and searches
    /// again.
    pub fn delete_word(&mut self, list: &ElementList)
        ensures
            final(self)@.query == without_last_word(old(self)@.query),
            searched(final(self)@, list@),
    {
        let cs = chars_of(self.query.as_str());
        let n = cs.len();
        if n > 0 {
            let ghost p = cs@.drop_last();
            let mut k: usize = n - 1;
            assert(p.subrange(0, k as int) =~= p);
            while k > 0 && cs[k - 1] != ' '
                invariant
                    k <= n - 1,
                    n == cs.len(),
                    p == cs@.drop_last(),
                    last_index_of(p, ' ') == last_index_of(p.subrange(0, k as int), ' '),
                decreases k,
            {
                proof {
                    let t = p.subrange(0, k as int);
                    assert(t.drop_last() =~= p.subrange(0, k - 1));
                }
                k = k - 1;
            }
            let ghost t = p.subrange(0, k as int);
            if k > 0 {
                assert(t.last() == ' ');
                assert(last_index_of(p, ' ') == k - 1);
                let shorter = self.query.as_str().substring_char(0, k - 1).to_owned();
                assert(shorter@ =~= p.subrange(0, k - 1));
                self.query = shorter;
            } else {
                assert(t.len() == 0);
                self.query = String::new();
                assert(self.query@ =~= without_last_word(cs@));
            }
        }
        self.search(list);
    }

    /// Moves the selection up by `distance` results, stopping at the first;
    /// from the first result it moves to the query, where there is one.
    pub fn nav_up(&mut self, distance: usize)
        ensures
            final(self)@.query == old(self)@.query,
            final(self)@.results == old(self)@.results,
            old(self)@.select_index > 0 ==> final(self)@.select_index == if old(self)@.select_index
                >= distance {
                old(self)@.select_index - distance
            } else {
                0
            } && final(self)@.select_input == old(self)@.select_input,
            old(self)@.select_index == 0 ==> final(self)@.select_index == 0
                && final(self)@.select_input == (old(self)@.select_input || old(self)@.query.len()
                > 0),
    {
        if self.select_index > 0 {
            self.select_index = if self.select_index >= distance {
                self.select_index - distance
            } else {
                0
            };
        } else if self.query.as_str().unicode_len() > 0 {
            self.select_input = true;
        }
    }

    /// Moves the selection down: from the query to the first result, or by
    /// `distance` results where that many follow.
    pub fn nav_down(&mut self, distance: usize)
        ensures
            final(self)@.query == old(self)@.query,
            final(self)@.results == old(self)@.results,
            ({
                let o = old(self)@;
                let f = final(self)@;
                if o.select_input && o.results.len() > 0 {
                    !f.select_input && f.select_index == 0
                } else if o.results.len() > 0 && o.select_index + distance < o.results.len() {
                    f.select_input == o.select_input && f.select_index == o.select_index + distance
                } else {
                    f.select_input == o.select_input && f.select_index == o.select_index
                }
            }),
    {
        let len = self.results.len();
        if self.select_input && len > 0 {
            self.select_input = false;
            self.select_index = 0;
        } else if len > 0 && distance < len && self.select_index < len - distance {
            self.select_index = self.select_index + distance;
        }
    }

    /// The element to launch: the query itself where it is selected, else the
    /// selected result; none where the selection points at no element of `list`.
    pub fn selected(&self, list: &ElementList) -> (r: Option<Element>)
        ensures
            match r {
                Some(e) => selection_of(self@, list@) == Some(e@),
                None => selection_of(self@, list@) is None,
            },
    {
        if self.select_input {
            return Some(
                Element { name: self.query.clone(), value: self.query.clone(), base_score: 0 },
            );
        }
        if self.select_index < self.results.len() {
            let i = self.results[self.select_index];
            if i < list.len() {
                let e = list.get(i);
                return Some(
                    Element { name: e.name.clone(), value: e.value.clone(), base_score: e.base_score },
                );
            }
        }
        None
    }

    /// Applies one user action and says what the surrounding loop does next.
    pub fn apply(&mut self, list: &ElementList, action: Action) -> (r: Step)
        ensures
            action == Action::Exit ==> r == Step::Exit,
            action == Action::Paste ==> r == Step::Paste,
            action == Action::Execute ==> match selection_of(old(self)@, list@) {
                Some(c) => r is Launch && r->Launch_0@ == c,
                None => r == Step::Exit,
            },
            !(action == Action::Exit || action == Action::Paste || action == Action::Execute)
                ==> r == Step::Continue,
    {
        match action {
            Action::Execute => match self.selected(list) {
                Some(e) => Step::Launch(e),
                None => Step::Exit,
            },
            Action::Exit => Step::Exit,
            Action::Complete => Step::Continue,
            Action::NavUp => {
                self.nav_up(1);
                Step::Continue
            },
            Action::NavDown => {
                self.nav_down(1);
                Step::Continue
            },
            Action::Delete => {
                self.delete(list);
                Step::Continue
            },
            Action::DeleteWord => {
                self.delete_word(list);
                Step::Continue
            },
            Action::Paste => Step::Paste,
            Action::Insert(s) => {
                self.insert(list, s.as_str());
                Step::Continue
            },
        }
    }
}

} // verus!
