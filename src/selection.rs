//! Candidates and the index that ranks them.
use vstd::prelude::*;
use crate::fuzzy::{fuzzy_score, fuzzy_spec, is_subsequence};
use crate::history::{History, UsageRecord, records_of};
use crate::ranking::{is_stable_rank, stable_rank};
use crate::text::strings_of;

verus! {

/// A launchable entry: what is shown and searched (`name`), what is run
/// (`value`), and its learned usage weight (`base_score`).
#[derive(Debug, Clone, PartialEq, Eq)]
pub struct Element {
    pub name: String,
    pub value: String,
    pub base_score: usize,
}

/// The model of an `Element`.
pub struct Candidate {
    pub name: Seq<char>,
    pub value: Seq<char>,
    pub base_score: nat,
}

impl View for Element {
    type V = Candidate;

    open spec fn view(&self) -> Candidate {
        Candidate { name: self.name@, value: self.value@, base_score: self.base_score as nat }
    }
}

pub open spec fn candidates_of(elems: Seq<Element>) -> Seq<Candidate> {
    elems.map_values(|e: Element| e@)
}

/// The candidates of `s` in the order that `r` gives by position.
pub open spec fn arranged(s: Seq<Candidate>, r: Seq<usize>) -> Seq<Candidate> {
    r.map_values(|i: usize| s[i as int])
}

/// No two candidates share a name.
pub open spec fn names_unique(s: Seq<Candidate>) -> bool {
    forall|i: int, j: int| 0 <= i < j < s.len() ==> (#[trigger] s[i]).name != (#[trigger] s[j]).name
}

/// The ranking keys of a baseline sort: every candidate, by its base score.
pub open spec fn score_keys(s: Seq<Candidate>) -> Seq<Option<i128>> {
    s.map_values(|c: Candidate| Some(c.base_score as i128))
}

/// The ranking keys of a query, given each candidate's fuzzy score: none where
/// the candidate does not match, else its fuzzy score plus its base score.
pub open spec fn combined_keys(s: Seq<Candidate>, scores: Seq<Option<i64>>) -> Seq<Option<i128>> {
    Seq::new(
        s.len(),
        |i: int|
            match scores[i] {
                Some(f) => Some((f + s[i].base_score) as i128),
                None => None,
            },
    )
}

/// The fuzzy score of `pattern` against each candidate's name.
pub open spec fn fuzzy_scores(s: Seq<Candidate>, pattern: Seq<char>) -> Seq<Option<i64>> {
    s.map_values(|c: Candidate| fuzzy_spec(c.name, pattern))
}

/// The ranking keys of the query `pattern`.
pub open spec fn query_keys(s: Seq<Candidate>, pattern: Seq<char>) -> Seq<Option<i128>> {
    combined_keys(s, fuzzy_scores(s, pattern))
}

/// The first position in `s` of a candidate named `name`, or the length of `s`
/// where there is none.
pub open spec fn candidate_index(s: Seq<Candidate>, name: Seq<char>) -> int
    decreases s.len(),
{
    if s.len() == 0 {
        0
    } else if s[0].name == name {
        0
    } else {
        1 + candidate_index(s.drop_first(), name)
    }
}

/// The candidates after one usage record is merged: the first candidate of its
/// name takes its count as base score; where there is none, a candidate made
/// from the record is added.
pub open spec fn merge_record(s: Seq<Candidate>, h: UsageRecord) -> Seq<Candidate> {
    let i = candidate_index(s, h.name);
    if i < s.len() {
        s.update(i, Candidate { base_score: h.num_used, ..s[i] })
    } else {
        s.push(Candidate { name: h.name, value: h.value, base_score: h.num_used })
    }
}

/// The candidates after the records of `hs` are merged in order.
pub open spec fn merged(s: Seq<Candidate>, hs: Seq<UsageRecord>) -> Seq<Candidate>
    decreases hs.len(),
{
    if hs.len() == 0 {
        s
    } else {
        merge_record(merged(s, hs.drop_last()), hs.last())
    }
}

proof fn lemma_candidate_index(s: Seq<Candidate>, name: Seq<char>, i: int)
    requires
        0 <= i <= s.len(),
        forall|k: int| 0 <= k < i ==> (#[trigger] s[k]).name != name,
        i == s.len() || s[i].name == name,
    ensures
        candidate_index(s, name) == i,
    decreases i,
{
    if i > 0 {
        let t = s.drop_first();
        assert forall|k: int| 0 <= k < i - 1 implies (#[trigger] t[k]).name != name by {
            assert(t[k] == s[k + 1]);
        }
        lemma_candidate_index(t, name, i - 1);
    }
}

proof fn lemma_candidate_index_facts(s: Seq<Candidate>, name: Seq<char>)
    ensures
        0 <= candidate_index(s, name) <= s.len(),
        forall|k: int| 0 <= k < candidate_index(s, name) ==> (#[trigger] s[k]).name != name,
        candidate_index(s, name) < s.len() ==> s[candidate_index(s, name)].name == name,
    decreases s.len(),
{
    if s.len() > 0 && s[0].name != name {
        let t = s.drop_first();
        lemma_candidate_index_facts(t, name);
        assert forall|k: int| 0 <= k < candidate_index(s, name) implies (#[trigger] s[k]).name
            != name by {
            if k > 0 {
                assert(s[k] == t[k - 1]);
            }
        }
    }
}

proof fn lemma_merge_record_names(s: Seq<Candidate>, h: UsageRecord)
    ensures
        merge_record(s, h).len() >= s.len(),
        names_unique(s) ==> names_unique(merge_record(s, h)),
        exists|i: int|
            0 <= i < merge_record(s, h).len() && (#[trigger] merge_record(s, h)[i]).name == h.name
                && merge_record(s, h)[i].base_score == h.num_used,
        forall|i: int|
            0 <= i < s.len() && (#[trigger] s[i]).name != h.name ==> merge_record(s, h)[i] == s[i],
{
    lemma_candidate_index_facts(s, h.name);
    let i = candidate_index(s, h.name);
    let m = merge_record(s, h);
    assert(m[i].name == h.name && m[i].base_score == h.num_used);
    if names_unique(s) {
        assert forall|a: int, b: int| 0 <= a < b < m.len() implies (#[trigger] m[a]).name != (
        #[trigger] m[b]).name by {
            if b < s.len() {
                assert(m[a].name == s[a].name && m[b].name == s[b].name);
            } else {
                assert(m[a] == s[a]);
            }
        }
    }
}

/// Merging a history into an index whose names are unique keeps them unique:
/// a record either updates the candidate of its name or adds one that no
/// candidate had.
pub proof fn lemma_merge_keeps_names_unique(s: Seq<Candidate>, hs: Seq<UsageRecord>)
    requires
        names_unique(s),
    ensures
        names_unique(merged(s, hs)),
    decreases hs.len(),
{
    if hs.len() > 0 {
        lemma_merge_keeps_names_unique(s, hs.drop_last());
        lemma_merge_record_names(merged(s, hs.drop_last()), hs.last());
    }
}

/// After a merge, the single candidate named by a record takes that record's
/// count as its base score, where no later record has the same name.
pub proof fn lemma_history_overrides(s: Seq<Candidate>, hs: Seq<UsageRecord>, j: int)
    requires
        names_unique(s),
        0 <= j < hs.len(),
        forall|k: int| j < k < hs.len() ==> (#[trigger] hs[k]).name != hs[j].name,
    ensures
        names_unique(merged(s, hs)),
        exists|i: int|
            0 <= i < merged(s, hs).len() && (#[trigger] merged(s, hs)[i]).name == hs[j].name
                && merged(s, hs)[i].base_score == hs[j].num_used,
    decreases hs.len(),
{
    lemma_merge_keeps_names_unique(s, hs);
    let prev = hs.drop_last();
    lemma_merge_record_names(merged(s, prev), hs.last());
    assert(merged(s, hs) == merge_record(merged(s, prev), hs.last()));
    if j == hs.len() - 1 {
        assert(hs.last() == hs[j]);
        let m0 = merged(s, prev);
        lemma_candidate_index_facts(m0, hs[j].name);
        let i = candidate_index(m0, hs[j].name);
        assert(merged(s, hs)[i].name == hs[j].name && merged(s, hs)[i].base_score == hs[j].num_used);
    } else {
        assert forall|k: int| j < k < prev.len() implies (#[trigger] prev[k]).name != prev[j].name by {
            assert(prev[k] == hs[k]);
        }
        lemma_history_overrides(s, prev, j);
        let m0 = merged(s, prev);
        let i = choose|i: int|
            0 <= i < m0.len() && (#[trigger] m0[i]).name == hs[j].name && m0[i].base_score
                == hs[j].num_used;
        assert(hs.last().name != hs[j].name);
        assert(merged(s, hs)[i] == m0[i]);
        assert(0 <= i < merged(s, hs).len());
        assert(merged(s, hs)[i].name == hs[j].name && merged(s, hs)[i].base_score == hs[j].num_used);
    }
}

/// An empty query ranks every candidate, by base score alone: its ranking keys
/// are those of the baseline sort, and every candidate has one.
pub proof fn lemma_empty_query_ranks_by_score(s: Seq<Candidate>, r: Seq<usize>)
    requires
        is_stable_rank(query_keys(s, Seq::empty()), r),
    ensures
        is_stable_rank(score_keys(s), r),
        forall|i: int| 0 <= i < s.len() ==> #[trigger] r.contains(i as usize),
{
    assert(query_keys(s, Seq::empty()) =~= score_keys(s));
    assert forall|i: int| 0 <= i < s.len() implies #[trigger] r.contains(i as usize) by {
        assert(score_keys(s)[i] is Some);
    }
}

/// The position of the first element named `name`, or the length where none is.
fn position_of(elems: &Vec<Element>, name: &String) -> (r: usize)
    ensures
        r == candidate_index(candidates_of(elems@), name@),
        r <= elems.len(),
{
    let mut i: usize = 0;
    while i < elems.len() && elems[i].name != *name
        invariant
            i <= elems.len(),
            forall|k: int| 0 <= k < i ==> (#[trigger] elems@[k]).name@ != name@,
        decreases elems.len() - i,
    {
        i = i + 1;
    }
    proof {
        let s = candidates_of(elems@);
        assert forall|k: int| 0 <= k < i implies (#[trigger] s[k]).name != name@ by {
            assert(s[k] == elems@[k]@);
        }
        lemma_candidate_index(s, name@, i as int);
    }
    i
}

/// The models of a list of borrowed elements.
pub open spec fn refs_view(s: Seq<&Element>) -> Seq<Candidate> {
    s.map_values(|e: &Element| e@)
}

/// The candidate index: every candidate of the session, in order.
#[derive(Debug)]
pub struct ElementList {
    inner: Vec<Element>,
}

impl View for ElementList {
    type V = Seq<Candidate>;

    closed spec fn view(&self) -> Seq<Candidate> {
        candidates_of(self.inner@)
    }
}

impl ElementList {
    /// Merges the usage history: for each record in order, the first candidate of
    /// its name takes the record's count as base score; a record whose name no
    /// candidate has becomes a new candidate.
    pub fn merge_history(&mut self, history: &History)
        ensures
            final(self)@ == merged(old(self)@, history@),
    {
        let entries = history.as_vec();
        let ghost hs = records_of(entries@);
        for j in 0..entries.len()
            invariant
                hs == history@,
                hs == records_of(entries@),
                self@ == merged(old(self)@, hs.take(j as int)),
        {
            let entry = &entries[j];
            proof {
                let t = hs.take(j + 1);
                assert(t.drop_last() =~= hs.take(j as int));
                assert(t.last() == entry@);
            }
            let ghost before = self@;
            let i = position_of(&self.inner, &entry.name);
            if i < self.inner.len() {
                let updated = Element {
                    name: self.inner[i].name.clone(),
                    value: self.inner[i].value.clone(),
                    base_score: entry.num_used,
                };
                self.inner.set(i, updated);
                assert(self@ =~= merge_record(before, entry@));
            } else {
                let added = Element {
                    name: entry.name.clone(),
                    value: entry.value.clone(),
                    base_score: entry.num_used,
                };
                self.inner.push(added);
                assert(self@ =~= merge_record(before, entry@));
            }
        }
        assert(hs.take(hs.len() as int) =~= hs);
    }

    /// Sorts the candidates by base score, greatest first; candidates of equal
    /// score keep their relative order.
    pub fn sort_score(&mut self)
        ensures
            exists|r: Seq<usize>|
                is_stable_rank(score_keys(old(self)@), r) && final(self)@ == arranged(old(self)@, r),
    {
        let ghost olds = self@;
        let n = self.inner.len();
        let mut keys: Vec<Option<i128>> = Vec::new();
        for i in 0..n
            invariant
                n == self.inner.len(),
                olds == self@,
                keys@ == score_keys(olds).take(i as int),
        {
            keys.push(Some(self.inner[i].base_score as i128));
            assert(keys@ =~= score_keys(olds).take(i + 1));
        }
        assert(keys@ =~= score_keys(olds));
        let order = stable_rank(&keys);
        let mut old_elems: Vec<Element> = Vec::new();
        core::mem::swap(&mut old_elems, &mut self.inner);
        assert(candidates_of(old_elems@) == olds);
        let mut slots: Vec<Option<Element>> = Vec::new();
        for e in it: old_elems
            invariant
                candidates_of(it.seq()) == olds,
                slots.len() == it.index(),
                forall|j: int| 0 <= j < slots.len() ==> #[trigger] slots@[j] == Some(it.seq()[j]),
        {
            slots.push(Some(e));
        }
        let ghost elems = slots@.map_values(|o: Option<Element>| o->0);
        assert(candidates_of(elems) =~= olds);
        proof {
            // every position is ranked, each once
            assert forall|a: int, b: int| 0 <= a < b < order.len() implies order@[a] != order@[b] by {
                assert(crate::ranking::ranked_before(keys@, order@[a] as int, order@[b] as int));
            }
        }
        for k in 0..order.len()
            invariant
                n == slots.len(),
                n == keys.len(),
                is_stable_rank(keys@, order@),
                forall|a: int, b: int| 0 <= a < b < order.len() ==> order@[a] != order@[b],
                candidates_of(elems) == olds,
                elems.len() == n,
                self@ == arranged(olds, order@.take(k as int)),
                forall|j: int|
                    0 <= j < n && !order@.take(k as int).contains(j as usize) ==> #[trigger] slots@[j]
                        == Some(elems[j]),
        {
            let p = order[k];
            assert(!order@.take(k as int).contains(p)) by {
                if order@.take(k as int).contains(p) {
                    let a = choose|a: int| 0 <= a < k && order@.take(k as int)[a] == p;
                    assert(order@[a] == p);
                }
            }
            let mut taken: Option<Element> = None;
            slots.set_and_swap(p, &mut taken);
            assert(taken == Some(elems[p as int]));
            let ghost before = self@;
            match taken {
                Some(e) => {
                    self.inner.push(e);
                },
                None => {},
            }
            proof {
                assert(self@ =~= before.push(olds[p as int]));
                assert(order@.take(k + 1) =~= order@.take(k as int).push(p));
                assert(arranged(olds, order@.take(k + 1)) =~= arranged(olds, order@.take(k as int)).push(olds[p as int]));
                assert forall|j: int|
                    0 <= j < n && !order@.take(k + 1).contains(j as usize) implies #[trigger] slots@[j]
                        == Some(elems[j]) by {
                    assert(order@.take(k + 1)[k as int] == p);
                    if order@.take(k as int).contains(j as usize) {
                        let a = choose|a: int| 0 <= a < k && order@.take(k as int)[a] == j as usize;
                        assert(order@.take(k + 1)[a] == j as usize);
                    }
                }
            }
        }
        assert(order@.take(order.len() as int) =~= order@);
    }

    /// Ranks the candidates for a query, given the fuzzy score of the query against
    /// each candidate's name: the candidates with a score, by fuzzy score plus base
    /// score from greatest to least, ties in index order. Returns their positions.
    pub fn rank(&self, scores: &Vec<Option<i64>>) -> (r: Vec<usize>)
        requires
            scores.len() == self@.len(),
        ensures
            is_stable_rank(combined_keys(self@, scores@), r@),
    {
        let n = self.inner.len();
        let mut keys: Vec<Option<i128>> = Vec::new();
        for i in 0..n
            invariant
                n == self.inner.len(),
                n == scores.len(),
                keys@ == combined_keys(self@, scores@).take(i as int),
        {
            let key = match scores[i] {
                Some(f) => Some(f as i128 + self.inner[i].base_score as i128),
                None => None,
            };
            keys.push(key);
            assert(keys@ =~= combined_keys(self@, scores@).take(i + 1));
        }
        assert(keys@ =~= combined_keys(self@, scores@));
        stable_rank(&keys)
    }

    /// The positions of the candidates that match the query `pattern`, best first
    /// (see `rank`). Every returned candidate's name holds the characters of
    /// `pattern` in order.
    pub fn search_indices(&self, pattern: &str) -> (r: Vec<usize>)
        ensures
            is_stable_rank(query_keys(self@, pattern@), r@),
            forall|k: int|
                0 <= k < r.len() ==> is_subsequence(pattern@, #[trigger] self@[r@[k] as int].name),
    {
        let n = self.inner.len();
        let mut scores: Vec<Option<i64>> = Vec::new();
        for i in 0..n
            invariant
                n == self.inner.len(),
                scores@ == fuzzy_scores(self@, pattern@).take(i as int),
        {
            scores.push(fuzzy_score(self.inner[i].name.as_str(), pattern));
            assert(scores@ =~= fuzzy_scores(self@, pattern@).take(i + 1));
        }
        assert(scores@ =~= fuzzy_scores(self@, pattern@));
        let r = self.rank(&scores);
        assert forall|k: int| 0 <= k < r.len() implies is_subsequence(
            pattern@,
            #[trigger] self@[r@[k] as int].name,
        ) by {
            let i = r@[k] as int;
            assert(query_keys(self@, pattern@)[i] is Some);
            if pattern@.len() == 0 {
                assert(is_subsequence(pattern@, self@[i].name));
            }
        }
        r
    }

    /// The candidates that match the query `pattern`, best first (see `rank`).
    pub fn search(&self, pattern: &str) -> (r: Vec<&Element>)
        ensures
            exists|order: Seq<usize>|
                is_stable_rank(query_keys(self@, pattern@), order) && refs_view(r@) == arranged(
                    self@,
                    order,
                ),
            forall|k: int| 0 <= k < r.len() ==> is_subsequence(pattern@, #[trigger] r@[k]@.name),
    {
        let order = self.search_indices(pattern);
        let mut r: Vec<&Element> = Vec::new();
        for k in 0..order.len()
            invariant
                is_stable_rank(query_keys(self@, pattern@), order@),
                refs_view(r@) == arranged(self@, order@.take(k as int)),
        {
            let ghost before = r@;
            let e = &self.inner[order[k]];
            r.push(e);
            proof {
                assert(r@ == before.push(e));
                assert(refs_view(r@) =~= refs_view(before).push(e@));
                assert(e@ == self@[order@[k as int] as int]);
                assert(arranged(self@, order@.take(k + 1)) =~= arranged(self@, order@.take(k as int)).push(e@));
            }
        }
        assert(order@.take(order.len() as int) =~= order@);
        assert forall|k: int| 0 <= k < r.len() implies is_subsequence(
            pattern@,
            #[trigger] r@[k]@.name,
        ) by {
            assert(refs_view(r@)[k] == r@[k]@);
            assert(arranged(self@, order@)[k] == self@[order@[k] as int]);
        }
        r
    }

    /// Every candidate, in index order.
    pub fn as_ref_vec(&self) -> (r: Vec<&Element>)
        ensures
            refs_view(r@) == self@,
    {
        let mut r: Vec<&Element> = Vec::new();
        for k in 0..self.inner.len()
            invariant
                refs_view(r@) == self@.take(k as int),
        {
            let ghost before = r@;
            let e = &self.inner[k];
            r.push(e);
            proof {
                assert(r@ == before.push(e));
                assert(refs_view(r@) =~= refs_view(before).push(e@));
                assert(e@ == self@[k as int]);
                assert(refs_view(r@) =~= self@.take(k + 1));
            }
        }
        assert(self@.take(self@.len() as int) =~= self@);
        r
    }

    /// The candidate at position `i`.
    pub fn get(&self, i: usize) -> (r: &Element)
        requires
            i < self@.len(),
        ensures
            r@ == self@[i as int],
    {
        &self.inner[i]
    }

    /// The number of candidates.
    pub fn len(&self) -> (r: usize)
        ensures
            r == self@.len(),
    {
        self.inner.len()
    }
}

/// The candidates of several source results, one after another.
pub open spec fn concat_parts<E>(rs: Seq<Result<Vec<Element>, E>>) -> Seq<Candidate>
    decreases rs.len(),
{
    if rs.len() == 0 {
        seq![]
    } else {
        concat_parts(rs.drop_last()) + match rs.last() {
            Ok(v) => candidates_of(v@),
            Err(_) => seq![],
        }
    }
}

impl ElementList {
    /// Joins the results of the source jobs, in the order given: the index holds
    /// the candidates of every job, one job after another. Where a job failed,
    /// the first failure is returned instead and no index is made.
    pub fn join<E>(results: Vec<Result<Vec<Element>, E>>) -> (r: Result<ElementList, E>)
        ensures
            r is Ok <==> forall|i: int| 0 <= i < results.len() ==> (#[trigger] results@[i]) is Ok,
            r is Ok ==> r->Ok_0@ == concat_parts(results@),
            r is Err ==> exists|i: int|
                0 <= i < results.len() && (forall|j: int|
                    0 <= j < i ==> (#[trigger] results@[j]) is Ok) && results@[i] == Err::<
                    Vec<Element>,
                    E,
                >(r->Err_0),
    {
        let ghost rs = results@;
        let mut inner: Vec<Element> = Vec::new();
        for res in it: results
            invariant
                rs == it.seq(),
                forall|j: int| 0 <= j < it.index() ==> (#[trigger] rs[j]) is Ok,
                candidates_of(inner@) == concat_parts(rs.take(it.index() as int)),
        {
            let ghost k = it.index();
            proof {
                let t = rs.take(k + 1);
                assert(t.drop_last() =~= rs.take(k as int));
                assert(t.last() == res);
            }
            match res {
                Ok(mut part) => {
                    let ghost before = inner@;
                    let ghost p = part@;
                    inner.append(&mut part);
                    assert(candidates_of(inner@) =~= candidates_of(before) + candidates_of(p));
                },
                Err(e) => {
                    return Err(e);
                },
            }
        }
        assert(rs.take(rs.len() as int) =~= rs);
        Ok(ElementList { inner })
    }
}

impl Default for ElementList {
    fn default() -> (r: ElementList)
        ensures
            r@ == Seq::<Candidate>::empty(),
    {
        ElementList { inner: Vec::new() }
    }
}

/// One job of the ingestion: the kind of source it reads.
pub enum SourceJob {
    /// The piped input stream.
    Stdin,
    /// The given files, in order.
    Files(Vec<String>),
    /// The executables on the search path.
    Path,
}

/// The model of a `SourceJob`.
pub enum JobKind {
    Stdin,
    Files(Seq<Seq<char>>),
    Path,
}

impl View for SourceJob {
    type V = JobKind;

    open spec fn view(&self) -> JobKind {
        match self {
            SourceJob::Stdin => JobKind::Stdin,
            SourceJob::Files(fs) => JobKind::Files(strings_of(fs@)),
            SourceJob::Path => JobKind::Path,
        }
    }
}

/// Which sources an ingestion reads.
#[derive(Debug)]
pub struct ElementListBuilder {
    from_path: bool,
    from_stdin: bool,
    from_file: Vec<String>,
}

/// The model of an `ElementListBuilder`.
pub struct BuilderView {
    pub from_path: bool,
    pub from_stdin: bool,
    pub files: Seq<Seq<char>>,
}

impl View for ElementListBuilder {
    type V = BuilderView;

    closed spec fn view(&self) -> BuilderView {
        BuilderView {
            from_path: self.from_path,
            from_stdin: self.from_stdin,
            files: strings_of(self.from_file@),
        }
    }
}

/// The jobs of an ingestion, in the fixed order of concatenation: the stream,
/// then the files, then the search path; only the requested ones.
pub open spec fn jobs_of(b: BuilderView) -> Seq<JobKind> {
    (if b.from_stdin {
        seq![JobKind::Stdin]
    } else {
        seq![]
    }) + (if b.files.len() > 0 {
        seq![JobKind::Files(b.files)]
    } else {
        seq![]
    }) + (if b.from_path {
        seq![JobKind::Path]
    } else {
        seq![]
    })
}

impl ElementListBuilder {
    /// A builder that reads no source.
    pub fn new() -> (r: ElementListBuilder)
        ensures
            !r@.from_path,
            !r@.from_stdin,
            r@.files.len() == 0,
    {
        ElementListBuilder { from_path: false, from_stdin: false, from_file: Vec::new() }
    }

    /// Requests the search-path source.
    pub fn add_path(&mut self)
        ensures
            final(self)@ == (BuilderView { from_path: true, ..old(self)@ }),
    {
        self.from_path = true;
    }

    /// Requests the given files as sources, in place of any requested before.
    pub fn add_files(&mut self, files: &[String])
        ensures
            final(self)@ == (BuilderView { files: strings_of(files@), ..old(self)@ }),
    {
        let mut v: Vec<String> = Vec::new();
        for i in 0..files.len()
            invariant
                strings_of(v@) == strings_of(files@.take(i as int)),
        {
            let ghost before = v@;
            let c = files[i].clone();
            assert(c@ == files@[i as int]@);
            v.push(c);
            assert(strings_of(v@) =~= strings_of(before).push(c@));
            assert(strings_of(files@.take(i + 1)) =~= strings_of(files@.take(i as int)).push(c@));
        }
        assert(files@.take(files.len() as int) =~= files@);
        self.from_file = v;
        assert(self@.files =~= strings_of(files@));
    }

    /// Requests the piped stream as a source.
    pub fn add_stdin(&mut self)
        ensures
            final(self)@ == (BuilderView { from_stdin: true, ..old(self)@ }),
    {
        self.from_stdin = true;
    }

    /// The jobs to run, in the order in which their results are joined.
    pub fn jobs(&self) -> (r: Vec<SourceJob>)
        ensures
            r@.map_values(|j: SourceJob| j@) == jobs_of(self@),
    {
        let mut r: Vec<SourceJob> = Vec::new();
        if self.from_stdin {
            r.push(SourceJob::Stdin);
        }
        if self.from_file.len() > 0 {
            let mut files: Vec<String> = Vec::new();
            for i in 0..self.from_file.len()
                invariant
                    strings_of(files@) == strings_of(self.from_file@.take(i as int)),
            {
                let ghost before = files@;
                let c = self.from_file[i].clone();
                assert(c@ == self.from_file@[i as int]@);
                files.push(c);
                assert(strings_of(files@) =~= strings_of(before).push(c@));
                assert(strings_of(self.from_file@.take(i + 1)) =~= strings_of(self.from_file@.take(i as int)).push(c@));
            }
            assert(self.from_file@.take(self.from_file.len() as int) =~= self.from_file@);
            r.push(SourceJob::Files(files));
        }
        if self.from_path {
            r.push(SourceJob::Path);
        }
        assert(r@.map_values(|j: SourceJob| j@) =~= jobs_of(self@));
        r
    }
}

} // verus!
