//! The candidates that each kind of source yields.
use vstd::prelude::*;
use crate::line::{LineKind, ParsedLine, line_kind, read_line};
use crate::selection::{Candidate, Element, candidates_of};
use crate::text::{strings_of, chars_of, lemma_lex_transitive, lex_cmp, lex_lt};

verus! {

/// The candidates that the lines of one stream give, when the entries start
/// with the base score `base`: a directive sets the base score of the entries
/// after it, an entry gives a candidate with the current base score, and blank
/// and malformed lines give nothing.
pub open spec fn scan_lines(lines: Seq<Seq<char>>, base: nat) -> Seq<Candidate>
    decreases lines.len(),
{
    if lines.len() == 0 {
        seq![]
    } else {
        let rest = lines.drop_first();
        match line_kind(lines[0]) {
            LineKind::Directive(b) => scan_lines(rest, b as nat),
            LineKind::Entry(name, value) => seq![
                Candidate { name, value, base_score: base },
            ] + scan_lines(rest, base),
            _ => scan_lines(rest, base),
        }
    }
}

/// The candidates of several streams, one after another; each starts with a
/// base score of zero.
pub open spec fn scan_files(files: Seq<Seq<Seq<char>>>) -> Seq<Candidate>
    decreases files.len(),
{
    if files.len() == 0 {
        seq![]
    } else {
        scan_files(files.drop_last()) + scan_lines(files.last(), 0)
    }
}

/// The views of a list of files, each a list of lines.
pub open spec fn files_of(v: Seq<Vec<String>>) -> Seq<Seq<Seq<char>>> {
    v.map_values(|f: Vec<String>| strings_of(f@))
}

/// The candidates that the lines of one file or stream give (see `scan_lines`).
pub fn parse_entries(lines: &Vec<String>) -> (r: Vec<Element>)
    ensures
        candidates_of(r@) == scan_lines(strings_of(lines@), 0),
{
    let ghost ls = strings_of(lines@);
    let n = lines.len();
    let mut r: Vec<Element> = Vec::new();
    let mut base: usize = 0;
    assert(ls.subrange(0, n as int) =~= ls);
    for i in 0..n
        invariant
            n == lines.len(),
            ls == strings_of(lines@),
            candidates_of(r@) + scan_lines(ls.subrange(i as int, n as int), base as nat)
                == scan_lines(ls, 0),
    {
        let ghost before = r@;
        let ghost old_base = base;
        proof {
            let t = ls.subrange(i as int, n as int);
            assert(t.drop_first() =~= ls.subrange(i + 1, n as int));
            assert(t[0] == lines@[i as int]@);
        }
        match read_line(lines[i].as_str()) {
            ParsedLine::Directive(b) => {
                base = b;
            },
            ParsedLine::Entry(name, value) => {
                let e = Element { name, value, base_score: base };
                r.push(e);
                proof {
                    assert(candidates_of(r@) =~= candidates_of(before) + seq![e@]);
                    let rest = scan_lines(ls.subrange(i + 1, n as int), base as nat);
                    assert(seq![e@] + rest == scan_lines(ls.subrange(i as int, n as int), old_base as nat));
                    assert(candidates_of(before) + (seq![e@] + rest) =~= candidates_of(r@) + rest);
                }
            },
            _ => {},
        }
    }
    assert(candidates_of(r@) =~= candidates_of(r@) + scan_lines(ls.subrange(n as int, n as int), base as nat));
    r
}

/// The candidates of several files, one after another (see `scan_files`).
pub fn parse_files(files: &Vec<Vec<String>>) -> (r: Vec<Element>)
    ensures
        candidates_of(r@) == scan_files(files_of(files@)),
{
    let ghost fs = files_of(files@);
    let mut r: Vec<Element> = Vec::new();
    for i in 0..files.len()
        invariant
            fs == files_of(files@),
            candidates_of(r@) == scan_files(fs.take(i as int)),
    {
        let ghost before = r@;
        let mut part = parse_entries(&files[i]);
        let ghost p = part@;
        r.append(&mut part);
        proof {
            let t = fs.take(i + 1);
            assert(t.drop_last() =~= fs.take(i as int));
            assert(t.last() == strings_of(files@[i as int]@));
            assert(candidates_of(r@) =~= candidates_of(before) + candidates_of(p));
        }
    }
    assert(fs.take(files.len() as int) =~= fs);
    r
}

/// The names are strictly increasing in the order of `str`: sorted, and no name
/// twice.
pub open spec fn strictly_sorted(s: Seq<Candidate>) -> bool {
    forall|a: int, b: int| 0 <= a < b < s.len() ==> lex_lt(#[trigger] s[a].name, #[trigger] s[b].name)
}

/// Every one of the first `i` names of `ns` is the name of a candidate in `s`.
#[verifier::opaque]
pub open spec fn covers(s: Seq<Candidate>, ns: Seq<Seq<char>>, i: int) -> bool {
    forall|j: int| 0 <= j < i ==> exists|k: int| 0 <= k < s.len() && s[k].name == #[trigger] ns[j]
}

/// Every candidate in `s` is named by one of the first `i` names of `ns`.
#[verifier::opaque]
pub open spec fn drawn_from(s: Seq<Candidate>, ns: Seq<Seq<char>>, i: int) -> bool {
    forall|k: int|
        #![trigger s[k]]
        0 <= k < s.len() ==> exists|j: int| 0 <= j < i && s[k].name == #[trigger] ns[j]
}

proof fn lemma_nothing_named(ns: Seq<Seq<char>>)
    ensures
        covers(seq![], ns, 0),
        drawn_from(seq![], ns, ns.len() as int),
{
    reveal(covers);
    reveal(drawn_from);
}

proof fn lemma_present_covers(s: Seq<Candidate>, ns: Seq<Seq<char>>, i: int, q: int)
    requires
        0 <= i < ns.len(),
        0 <= q < s.len(),
        s[q].name == ns[i],
        covers(s, ns, i),
    ensures
        covers(s, ns, i + 1),
{
    reveal(covers);
    assert forall|j: int| 0 <= j < i + 1 implies exists|k: int|
        0 <= k < s.len() && s[k].name == #[trigger] ns[j] by {
        if j == i {
            assert(s[q].name == ns[j]);
        }
    }
}

proof fn lemma_inserted_covers(s: Seq<Candidate>, ns: Seq<Seq<char>>, i: int, lo: int, c: Candidate)
    requires
        0 <= i < ns.len(),
        0 <= lo <= s.len(),
        c.name == ns[i],
        covers(s, ns, i),
    ensures
        covers(s.insert(lo, c), ns, i + 1),
{
    reveal(covers);
    let t = s.insert(lo, c);
    assert forall|j: int| 0 <= j < i + 1 implies exists|k: int|
        0 <= k < t.len() && t[k].name == #[trigger] ns[j] by {
        if j < i {
            let k = choose|k: int| 0 <= k < s.len() && s[k].name == #[trigger] ns[j];
            if k < lo {
                assert(t[k] == s[k]);
            } else {
                assert(t[k + 1] == s[k]);
            }
        } else {
            assert(t[lo] == c);
        }
    }
}

proof fn lemma_inserted_drawn(s: Seq<Candidate>, ns: Seq<Seq<char>>, i: int, lo: int, c: Candidate)
    requires
        0 <= i < ns.len(),
        0 <= lo <= s.len(),
        c.name == ns[i],
        drawn_from(s, ns, ns.len() as int),
    ensures
        drawn_from(s.insert(lo, c), ns, ns.len() as int),
{
    reveal(drawn_from);
    let t = s.insert(lo, c);
    assert forall|k: int| #![trigger t[k]] 0 <= k < t.len() implies exists|j: int|
        0 <= j < ns.len() && t[k].name == #[trigger] ns[j] by {
        if k < lo {
            assert(t[k] == s[k]);
            let j = choose|j: int| 0 <= j < ns.len() && s[k].name == #[trigger] ns[j];
            assert(t[k].name == ns[j]);
        } else if k > lo {
            assert(t[k] == s[k - 1]);
            let j = choose|j: int| 0 <= j < ns.len() && s[k - 1].name == #[trigger] ns[j];
            assert(t[k].name == ns[j]);
        } else {
            assert(t[k].name == ns[i]);
        }
    }
}

/// The candidates of a path scan, given the names of the executables found in
/// each directory in search-path order: one candidate per distinct name, sorted
/// by name, with the name as value and a base score of zero.
pub fn path_elements(names: &Vec<String>) -> (r: Vec<Element>)
    ensures
        strictly_sorted(candidates_of(r@)),
        covers(candidates_of(r@), strings_of(names@), names.len() as int),
        drawn_from(candidates_of(r@), strings_of(names@), names.len() as int),
        forall|k: int|
            0 <= k < r.len() ==> (#[trigger] r@[k]).value@ == r@[k].name@ && r@[k].base_score == 0,
{
    let ghost ns = strings_of(names@);
    let mut r: Vec<Element> = Vec::new();
    let mut keys: Vec<Vec<char>> = Vec::new();
    proof {
        lemma_nothing_named(ns);
        assert(candidates_of(r@) =~= seq![]);
    }
    let mut i: usize = 0;
    while i < names.len()
        invariant
            i <= names.len(),
            ns == strings_of(names@),
            r.len() == keys.len(),
            forall|k: int|
                0 <= k < r.len() ==> (#[trigger] keys@[k])@ == r@[k].name@ && r@[k].value@
                    == r@[k].name@ && r@[k].base_score == 0,
            forall|a: int, b: int|
                0 <= a < b < keys.len() ==> lex_lt(#[trigger] keys@[a]@, #[trigger] keys@[b]@),
            covers(candidates_of(r@), ns, i as int),
            drawn_from(candidates_of(r@), ns, ns.len() as int),
        decreases names.len() - i,
    {
        let x = chars_of(names[i].as_str());
        let mut lo: usize = 0;
        let mut hi: usize = keys.len();
        let mut found = false;
        while lo < hi && !found
            invariant
                lo <= hi <= keys.len(),
                x@ == names@[i as int]@,
                forall|a: int, b: int|
                    0 <= a < b < keys.len() ==> lex_lt(#[trigger] keys@[a]@, #[trigger] keys@[b]@),
                forall|q: int| 0 <= q < lo ==> lex_lt(#[trigger] keys@[q]@, x@),
                forall|q: int| hi <= q < keys.len() ==> lex_lt(x@, #[trigger] keys@[q]@),
                found ==> exists|q: int| 0 <= q < keys.len() && (#[trigger] keys@[q])@ == x@,
            decreases hi - lo + if found { 0int } else { 1int },
        {
            let mid = lo + (hi - lo) / 2;
            let c = lex_cmp(&keys[mid], &x);
            if c < 0 {
                assert forall|q: int| 0 <= q <= mid implies lex_lt(#[trigger] keys@[q]@, x@) by {
                    if q < mid {
                        lemma_lex_transitive(keys@[q]@, keys@[mid as int]@, x@);
                    }
                }
                lo = mid + 1;
            } else if c == 0 {
                found = true;
            } else {
                assert forall|q: int| mid <= q < keys.len() implies lex_lt(x@, #[trigger] keys@[q]@) by {
                    if q > mid {
                        lemma_lex_transitive(x@, keys@[mid as int]@, keys@[q]@);
                    }
                }
                hi = mid;
            }
        }
        if found {
            proof {
                let q = choose|q: int| 0 <= q < keys.len() && (#[trigger] keys@[q])@ == x@;
                assert(candidates_of(r@)[q].name == ns[i as int]);
                lemma_present_covers(candidates_of(r@), ns, i as int, q);
            }
        } else {
            let ghost old_r = r@;
            let ghost old_keys = keys@;
            let e = Element { name: names[i].clone(), value: names[i].clone(), base_score: 0 };
            r.insert(lo, e);
            keys.insert(lo, x);
            proof {
                assert(candidates_of(r@) =~= candidates_of(old_r).insert(lo as int, e@));
                lemma_inserted_covers(candidates_of(old_r), ns, i as int, lo as int, e@);
                lemma_inserted_drawn(candidates_of(old_r), ns, i as int, lo as int, e@);
                assert forall|a: int, b: int| 0 <= a < b < keys.len() implies lex_lt(
                    #[trigger] keys@[a]@,
                    #[trigger] keys@[b]@,
                ) by {
                    if b < lo {
                        assert(lex_lt(old_keys[a]@, old_keys[b]@));
                    } else if a < lo && b > lo {
                        assert(lex_lt(old_keys[a]@, old_keys[b - 1]@));
                    } else if a > lo {
                        assert(lex_lt(old_keys[a - 1]@, old_keys[b - 1]@));
                    } else if a == lo {
                        assert(lex_lt(x@, old_keys[b - 1]@));
                    } else {
                        assert(lex_lt(old_keys[a]@, x@));
                    }
                }
                assert forall|k: int| 0 <= k < r.len() implies (#[trigger] keys@[k])@ == r@[k].name@
                    && r@[k].value@ == r@[k].name@ && r@[k].base_score == 0 by {
                    if k < lo {
                        assert(keys@[k] == old_keys[k] && r@[k] == old_r[k]);
                    } else if k > lo {
                        assert(keys@[k] == old_keys[k - 1] && r@[k] == old_r[k - 1]);
                    }
                }
            }
        }
        i = i + 1;
    }
    proof {
        assert forall|a: int, b: int| 0 <= a < b < r.len() implies lex_lt(
            #[trigger] candidates_of(r@)[a].name,
            #[trigger] candidates_of(r@)[b].name,
        ) by {
            assert(lex_lt(keys@[a]@, keys@[b]@));
        }
        assert forall|k: int| 0 <= k < r.len() implies (#[trigger] r@[k]).value@ == r@[k].name@
            && r@[k].base_score == 0 by {
            assert(keys@[k]@ == r@[k].name@);
        }
    }
    r
}

} // verus!
