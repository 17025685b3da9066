//! Classifying a failed build's diagnostics into problem packages.

use vstd::prelude::*;
use crate::error::ResolveError;

verus! {

/// Diagnostic phrasing of a version-selection conflict.
pub const CONFLICT_PATTERN: &'static str = "failed to select a version for `([^`]*)`";

/// Diagnostic phrasing of a package the compiler cannot find.
pub const CRATE_NOT_FOUND_PATTERN: &'static str = "can't find crate for `([^`]*)`";

/// Diagnostic phrasing of a package the registry does not know.
pub const NOT_IN_REGISTRY_PATTERN: &'static str = "could not find `([^`]*)` in registry";

#[derive(Clone, Copy, Debug, PartialEq, Eq, Structural)]
pub enum ProblemKind {
    Conflict,
    Missing,
}

/// A package named by the diagnostics, with how it failed.
pub struct ProblemPackage {
    pub name: String,
    pub kind: ProblemKind,
}

/// For a pattern and a text: `None` when the pattern is not a valid regular
/// expression, otherwise the text of capture group 1 of each successive
/// non-overlapping match, in order.
pub uninterp spec fn regex_captures(pattern: Seq<char>, text: Seq<char>) -> Option<Seq<Seq<char>>>;

pub open spec fn strings_view(v: Seq<String>) -> Seq<Seq<char>> {
    v.map_values(|s: String| s@)
}

/// Relies on `regex::Regex::new` (an error for an invalid pattern) and
/// `Regex::captures_iter`, keeping the text of group 1 of each match.
#[verifier::external_body]
fn capture_group_one(pattern: &str, text: &str) -> (r: Option<Vec<String>>)
    ensures
        match r {
            Some(v) => regex_captures(pattern@, text@) == Some(strings_view(v@)),
            None => regex_captures(pattern@, text@) is None,
        },
{
    match regex::Regex::new(pattern) {
        Ok(re) => Some(re.captures_iter(text).filter_map(|c| c.get(1)).map(|m| m.as_str().to_string()).collect()),
        Err(_) => None,
    }
}

/// Each name of `v` once, in order of first appearance.
pub fn distinct_names(v: &Vec<String>) -> (r: Vec<String>)
    ensures
        strings_view(r@) == first_occurrences(strings_view(v@)),
{
    let ghost sv = strings_view(v@);
    let mut out: Vec<String> = Vec::new();
    let mut i: usize = 0;
    assert(sv.take(0) =~= Seq::<Seq<char>>::empty());
    assert(strings_view(out@) =~= first_occurrences(sv.take(0)));
    while i < v.len()
        invariant
            sv == strings_view(v@),
            0 <= i <= v@.len(),
            strings_view(out@) == first_occurrences(sv.take(i as int)),
        decreases v@.len() - i,
    {
        assert(sv.take(i + 1).drop_last() =~= sv.take(i as int));
        assert(sv.take(i + 1).last() == v@[i as int]@);
        let mut found = false;
        let mut k: usize = 0;
        while k < out.len() && !found
            invariant
                0 <= i < v@.len(),
                0 <= k <= out@.len(),
                found ==> strings_view(out@).contains(v@[i as int]@),
                !found ==> forall|m: int| 0 <= m < k ==> (#[trigger] out@[m])@ != v@[i as int]@,
            decreases out@.len() - k + (if found { 0int } else { 1int }),
        {
            if out[k] == v[i] {
                assert(strings_view(out@)[k as int] == v@[i as int]@);
                found = true;
            } else {
                k = k + 1;
            }
        }
        if !found {
            assert(!strings_view(out@).contains(v@[i as int]@)) by {
                if strings_view(out@).contains(v@[i as int]@) {
                    let m = choose|m: int| 0 <= m < out@.len() && strings_view(out@)[m] == v@[i as int]@;
                    assert(out@[m]@ == v@[i as int]@);
                }
            }
            out.push(v[i].clone());
        }
        i = i + 1;
        assert(strings_view(out@) =~= first_occurrences(sv.take(i as int)));
    }
    assert(sv.take(i as int) =~= sv);
    out
}

/// Names reported in version-selection conflicts, each once, in order of
/// first appearance.
pub fn parse_conflicts(stderr: &str) -> (r: Result<Vec<String>, ResolveError>)
    ensures
        match regex_captures(CONFLICT_PATTERN@, stderr@) {
            Some(names) => r is Ok && strings_view(r->Ok_0@) == first_occurrences(names),
            None => r == Err::<Vec<String>, ResolveError>(ResolveError::DiagnosticPattern),
        },
{
    match capture_group_one(CONFLICT_PATTERN, stderr) {
        Some(v) => Ok(distinct_names(&v)),
        None => Err(ResolveError::DiagnosticPattern),
    }
}

/// Names reported as not found, each once, in order of first appearance:
/// first those the compiler cannot find, then those missing from the
/// registry.
pub fn parse_missing_crates(stderr: &str) -> (r: Result<Vec<String>, ResolveError>)
    ensures
        match (
            regex_captures(CRATE_NOT_FOUND_PATTERN@, stderr@),
            regex_captures(NOT_IN_REGISTRY_PATTERN@, stderr@),
        ) {
            (Some(a), Some(b)) => r is Ok && strings_view(r->Ok_0@) == first_occurrences(a + b),
            _ => r == Err::<Vec<String>, ResolveError>(ResolveError::DiagnosticPattern),
        },
{
    let first = capture_group_one(CRATE_NOT_FOUND_PATTERN, stderr);
    let second = capture_group_one(NOT_IN_REGISTRY_PATTERN, stderr);
    match (first, second) {
        (Some(mut a), Some(b)) => {
            let ghost a0 = a@;
            let mut i: usize = 0;
            while i < b.len()
                invariant
                    0 <= i <= b@.len(),
                    a@ == a0 + b@.take(i as int),
                decreases b@.len() - i,
            {
                a.push(b[i].clone());
                i = i + 1;
                assert(a@ =~= a0 + b@.take(i as int));
            }
            assert(b@.take(b@.len() as int) =~= b@);
            assert(strings_view(a@) =~= strings_view(a0) + strings_view(b@));
            Ok(distinct_names(&a))
        },
        _ => Err(ResolveError::DiagnosticPattern),
    }
}

/// The names of `s` in order of first appearance, each once.
pub open spec fn first_occurrences(s: Seq<Seq<char>>) -> Seq<Seq<char>>
    decreases s.len(),
{
    if s.len() == 0 {
        s
    } else {
        let d = first_occurrences(s.drop_last());
        if d.contains(s.last()) {
            d
        } else {
            d.push(s.last())
        }
    }
}

/// The working set of problem packages built from the two name lists.
pub open spec fn problems_spec(conflicts: Seq<Seq<char>>, missing: Seq<Seq<char>>) -> Seq<(Seq<char>, ProblemKind)> {
    tagged(conflicts, first_occurrences(conflicts + missing))
}

pub open spec fn problems_view(p: Seq<ProblemPackage>) -> Seq<(Seq<char>, ProblemKind)> {
    p.map_values(|x: ProblemPackage| (x.name@, x.kind))
}

proof fn lemma_first_occurrences(s: Seq<Seq<char>>)
    ensures
        first_occurrences(s).no_duplicates(),
        forall|x: Seq<char>| first_occurrences(s).contains(x) <==> s.contains(x),
        s.no_duplicates() ==> first_occurrences(s) == s,
    decreases s.len(),
{
    if s.len() > 0 {
        let t = s.drop_last();
        lemma_first_occurrences(t);
        assert(s =~= t.push(s.last()));
        assert forall|x: Seq<char>| first_occurrences(s).contains(x) <==> s.contains(x) by {
            assert(s[s.len() - 1] == s.last());
            let d = first_occurrences(t);
            let e = d.push(s.last());
            assert(e[d.len() as int] == s.last());
            if x != s.last() {
                if s.contains(x) {
                    let k = choose|k: int| 0 <= k < s.len() && s[k] == x;
                    assert(t[k] == x);
                    assert(t.contains(x));
                    assert(d.contains(x));
                    let k2 = choose|k2: int| 0 <= k2 < d.len() && d[k2] == x;
                    assert(e[k2] == x);
                }
                if first_occurrences(s).contains(x) {
                    if !d.contains(s.last()) {
                        let k2 = choose|k2: int| 0 <= k2 < e.len() && e[k2] == x;
                        assert(d[k2] == x);
                    }
                    assert(d.contains(x));
                    assert(t.contains(x));
                    let k = choose|k: int| 0 <= k < t.len() && t[k] == x;
                    assert(s[k] == x);
                }
            }
        }
        if s.no_duplicates() {
            assert(t.no_duplicates());
            assert(!t.contains(s.last()));
        }
    }
}

/// Whether `name` is already in `out`.
fn has_name(out: &Vec<ProblemPackage>, name: &String) -> (found: bool)
    ensures
        found <==> problems_view(out@).map_values(|p: (Seq<char>, ProblemKind)| p.0).contains(name@),
{
    let ghost names = problems_view(out@).map_values(|p: (Seq<char>, ProblemKind)| p.0);
    let mut i: usize = 0;
    while i < out.len()
        invariant
            0 <= i <= out@.len(),
            names == problems_view(out@).map_values(|p: (Seq<char>, ProblemKind)| p.0),
            forall|j: int| 0 <= j < i ==> names[j] != name@,
        decreases out@.len() - i,
    {
        if out[i].name == *name {
            assert(names[i as int] == name@);
            return true;
        }
        i = i + 1;
    }
    false
}

pub open spec fn kind_of(conflicts: Seq<Seq<char>>, n: Seq<char>) -> ProblemKind {
    if conflicts.contains(n) {
        ProblemKind::Conflict
    } else {
        ProblemKind::Missing
    }
}

pub open spec fn tagged(conflicts: Seq<Seq<char>>, names: Seq<Seq<char>>) -> Seq<(Seq<char>, ProblemKind)> {
    names.map_values(|n: Seq<char>| (n, kind_of(conflicts, n)))
}

/// Adds `name` unless it is already present.
fn add_name(
    out: &mut Vec<ProblemPackage>,
    name: &String,
    kind: ProblemKind,
    Ghost(conflicts): Ghost<Seq<Seq<char>>>,
    Ghost(prefix): Ghost<Seq<Seq<char>>>,
)
    requires
        problems_view(old(out)@) == tagged(conflicts, first_occurrences(prefix)),
        !prefix.contains(name@) ==> kind == kind_of(conflicts, name@),
    ensures
        problems_view(final(out)@) == tagged(conflicts, first_occurrences(prefix.push(name@))),
{
    let ghost p = prefix.push(name@);
    assert(p.drop_last() =~= prefix);
    proof {
        lemma_first_occurrences(prefix);
    }
    let seen = has_name(out, name);
    assert(problems_view(out@).map_values(|q: (Seq<char>, ProblemKind)| q.0) =~= first_occurrences(prefix));
    if !seen {
        out.push(ProblemPackage { name: name.clone(), kind });
    }
    assert(problems_view(out@) =~= tagged(conflicts, first_occurrences(p)));
}

/// Merges the two name lists into the working set: each name once, in
/// order of first appearance with conflicts first; a name found by both
/// counts as a conflict.
pub fn collect_problems(conflicts: &Vec<String>, missing: &Vec<String>) -> (r: Vec<ProblemPackage>)
    ensures
        problems_view(r@) == problems_spec(strings_view(conflicts@), strings_view(missing@)),
{
    let ghost c = strings_view(conflicts@);
    let ghost m = strings_view(missing@);
    let mut out: Vec<ProblemPackage> = Vec::new();
    assert(problems_view(out@) =~= tagged(c, first_occurrences(c.take(0))));
    let mut i: usize = 0;
    while i < conflicts.len()
        invariant
            c == strings_view(conflicts@),
            0 <= i <= c.len(),
            problems_view(out@) == tagged(c, first_occurrences(c.take(i as int))),
        decreases c.len() - i,
    {
        assert(c[i as int] == conflicts@[i as int]@);
        assert(c.contains(c[i as int]));
        add_name(&mut out, &conflicts[i], ProblemKind::Conflict, Ghost(c), Ghost(c.take(i as int)));
        assert(c.take(i as int).push(c[i as int]) =~= c.take(i + 1));
        i = i + 1;
    }
    let mut j: usize = 0;
    assert(c + m.take(0) =~= c.take(i as int));
    while j < missing.len()
        invariant
            c == strings_view(conflicts@),
            m == strings_view(missing@),
            0 <= j <= m.len(),
            problems_view(out@) == tagged(c, first_occurrences(c + m.take(j as int))),
        decreases m.len() - j,
    {
        let ghost prefix = c + m.take(j as int);
        proof {
            let n = m[j as int];
            if c.contains(n) {
                let k = choose|k: int| 0 <= k < c.len() && c[k] == n;
                assert(prefix[k] == n);
            }
        }
        add_name(&mut out, &missing[j], ProblemKind::Missing, Ghost(c), Ghost(prefix));
        assert(prefix.push(m[j as int]) =~= c + m.take(j + 1));
        j = j + 1;
    }
    assert(c + m.take(m.len() as int) =~= c + m);
    assert(problems_view(out@) =~= problems_spec(c, m));
    out
}

/// Problem-count law: when no name is both a conflict and missing, the
/// working set holds one package per distinct conflict name plus one per
/// distinct missing name.
pub proof fn lemma_problem_count(conflicts: Seq<Seq<char>>, missing: Seq<Seq<char>>)
    requires
        conflicts.to_set().disjoint(missing.to_set()),
    ensures
        problems_spec(conflicts, missing).len() == conflicts.to_set().len() + missing.to_set().len(),
{
    let all = conflicts + missing;
    let d = first_occurrences(all);
    lemma_first_occurrences(all);
    d.unique_seq_to_set();
    assert(d.to_set() =~= all.to_set());
    vstd::seq_lib::seq_to_set_distributes_over_add(conflicts, missing);
    vstd::seq_lib::seq_to_set_is_finite(conflicts);
    vstd::seq_lib::seq_to_set_is_finite(missing);
    vstd::set_lib::lemma_set_disjoint_lens(conflicts.to_set(), missing.to_set());
}

/// Problem-count law over the parsers' results: with `conflicts` and
/// `missing` the names as captured (repeats included), the working set
/// holds one package per distinct name, when no name is both.
pub proof fn lemma_parsed_problem_count(conflicts: Seq<Seq<char>>, missing: Seq<Seq<char>>)
    requires
        conflicts.to_set().disjoint(missing.to_set()),
    ensures
        problems_spec(first_occurrences(conflicts), first_occurrences(missing)).len() == conflicts.to_set().len()
            + missing.to_set().len(),
{
    lemma_first_occurrences(conflicts);
    lemma_first_occurrences(missing);
    assert(first_occurrences(conflicts).to_set() =~= conflicts.to_set());
    assert(first_occurrences(missing).to_set() =~= missing.to_set());
    lemma_problem_count(first_occurrences(conflicts), first_occurrences(missing));
}

} // verus!
