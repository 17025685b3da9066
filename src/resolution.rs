//! The resolution run as a state machine. Each method takes what the last
//! action produced (a build result, registry data) and returns the next
//! action; the caller performs it.

use vstd::prelude::*;
use crate::combinations::{
    CandidateList, generate_combinations, enumerable, name_ordered_enumeration, combinations_view, lengths_of,
    product, Assignment, lemma_product_positive,
};
use crate::diagnostics::{
    ProblemKind, ProblemPackage, parse_conflicts, parse_missing_crates, collect_problems,
    problems_view, problems_spec, regex_captures, first_occurrences, CONFLICT_PATTERN,
    CRATE_NOT_FOUND_PATTERN, NOT_IN_REGISTRY_PATTERN,
};
use crate::error::ResolveError;
use crate::versions::{
    RegistryEntry, select_candidates, order_newest_first, candidates_spec, strings_of,
    all_comparable, newest_first, semver_order,
};

verus! {

/// Why a run stopped without trying every combination.
#[derive(Clone, Copy, Debug, PartialEq, Eq, Structural)]
pub enum AbortReason {
    /// The diagnostics name no package.
    NoParseableIssue,
    /// The registry could not be reached or its answer was malformed.
    FetchFailed,
    /// The registry offers no usable version of a package.
    NoCandidates,
    /// The number of combinations does not fit in memory.
    TooManyCombinations,
}

#[derive(Clone, Copy, Debug, PartialEq, Eq, Structural)]
pub enum Phase {
    InitialBuild,
    Fetching,
    Trialing,
    Succeeded,
    Exhausted,
    Aborted(AbortReason),
}

/// What the caller does next.
#[derive(Clone, Copy, Debug, PartialEq, Eq, Structural)]
pub enum Action {
    /// Query the registry for the problem package at this index.
    Fetch(usize),
    /// Build with the combination at this index written to the trial manifest.
    Trial(usize),
    /// Write the combination at this index into the authoritative manifest.
    Persist(usize),
    /// Nothing more to do.
    Stop,
}

pub struct Resolver {
    pub phase: Phase,
    pub problems: Vec<ProblemPackage>,
    pub candidates: Vec<CandidateList>,
    pub combinations: Vec<Vec<Assignment>>,
    pub next_trial: usize,
}

/// The candidate list a package gets from the registry's entries, given
/// how the package failed: the selected versions, reordered newest first for
/// a missing package and as the registry lists them for a conflict.
pub open spec fn list_fits(kind: ProblemKind, entries: Seq<RegistryEntry>, versions: Seq<String>) -> bool {
    if kind == ProblemKind::Missing {
        exists|fetched: Seq<String>|
            strings_of(fetched) == candidates_spec(entries) && #[trigger] fetched.to_multiset()
                == versions.to_multiset() && newest_first(versions)
    } else {
        strings_of(versions) == candidates_spec(entries)
    }
}

/// Every two of the version strings can be compared.
pub open spec fn views_comparable(s: Seq<Seq<char>>) -> bool {
    forall|i: int, j: int| 0 <= i < s.len() && 0 <= j < s.len() ==> #[trigger] semver_order(s[i], s[j]) is Some
}

proof fn lemma_comparable_views(v: Seq<String>)
    ensures
        all_comparable(v) == views_comparable(strings_of(v)),
{
    let s = strings_of(v);
    if all_comparable(v) {
        assert forall|i: int, j: int| 0 <= i < s.len() && 0 <= j < s.len() implies #[trigger] semver_order(s[i], s[j]) is Some by {
            assert(semver_order(v[i]@, v[j]@) is Some);
        }
    }
    if views_comparable(s) {
        assert forall|i: int, j: int| 0 <= i < v.len() && 0 <= j < v.len() implies #[trigger] semver_order(v[i]@, v[j]@) is Some by {
            assert(semver_order(s[i], s[j]) is Some);
        }
    }
}

proof fn lemma_product_suffix(lens: Seq<usize>, k: int, j: int)
    requires
        0 <= k <= j <= lens.len(),
        forall|i: int| 0 <= i < lens.len() ==> lens[i] > 0,
    ensures
        product(lens.skip(j)) <= product(lens.skip(k)),
        product(lens.skip(j)) >= 1,
    decreases j - k + lens.len() - j,
{
    if j < lens.len() {
        lemma_product_suffix(lens, j + 1, j + 1);
        assert(lens.skip(j).drop_first() =~= lens.skip(j + 1));
        let p = product(lens.skip(j + 1));
        assert(lens[j] * p >= 1) by (nonlinear_arith)
            requires
                lens[j] >= 1,
                p >= 1,
        ;
    } else {
        assert(lens.skip(j).len() == 0);
    }
    if k < j {
        lemma_product_suffix(lens, k + 1, j);
        assert(lens.skip(k).drop_first() =~= lens.skip(k + 1));
        let p = product(lens.skip(k + 1));
        assert(lens[k] * p >= p) by (nonlinear_arith)
            requires
                lens[k] >= 1,
                p >= 1,
        ;
    }
}

/// The number of combinations, or `None` when it exceeds `usize::MAX`.
pub fn combination_count(candidates: &Vec<CandidateList>) -> (r: Option<usize>)
    requires
        forall|i: int| 0 <= i < candidates@.len() ==> #[trigger] candidates@[i].versions@.len() > 0,
        forall|i: int| 0 <= i < candidates@.len() ==> #[trigger] candidates@[i].versions@.len() <= usize::MAX,
    ensures
        match r {
            Some(n) => n == product(lengths_of(candidates@)),
            None => product(lengths_of(candidates@)) > usize::MAX,
        },
{
    let ghost lens = lengths_of(candidates@);
    let mut acc: usize = 1;
    let mut i: usize = candidates.len();
    assert(lens.skip(i as int).len() == 0);
    while i > 0
        invariant
            0 <= i <= candidates@.len(),
            lens == lengths_of(candidates@),
            forall|k: int| 0 <= k < candidates@.len() ==> #[trigger] candidates@[k].versions@.len() > 0,
            forall|k: int| 0 <= k < candidates@.len() ==> #[trigger] candidates@[k].versions@.len() <= usize::MAX,
            acc == product(lens.skip(i as int)),
        decreases i,
    {
        let len = candidates[i - 1].versions.len();
        assert(lens.skip(i - 1).drop_first() =~= lens.skip(i as int));
        match acc.checked_mul(len) {
            Some(next) => {
                proof {
                    let p = product(lens.skip(i as int));
                    assert(lens.skip(i - 1)[0] == len);
                    assert(len * p == acc * len) by (nonlinear_arith)
                        requires
                            p == acc,
                    ;
                }
                acc = next;
            },
            None => {
                proof {
                    assert forall|k: int| 0 <= k < lens.len() implies lens[k] > 0 by {
                        assert(candidates@[k].versions@.len() > 0);
                    }
                    let p = product(lens.skip(i as int));
                    assert(len * p == acc * len) by (nonlinear_arith)
                        requires
                            p == acc,
                    ;
                    lemma_product_suffix(lens, 0, i - 1);
                    assert(lens.skip(0) =~= lens);
                }
                return None;
            },
        }
        i = i - 1;
    }
    assert(lens.skip(0) =~= lens);
    Some(acc)
}

impl Resolver {
    /// The resolver's invariant: candidate lists follow the problem packages
    /// one for one, and while trialing the combinations are the full
    /// enumeration of the candidate lists taken in ascending name order.
    pub open spec fn wf(&self) -> bool {
        &&& self.candidates@.len() <= self.problems@.len()
        &&& forall|i: int| 0 <= i < self.candidates@.len() ==> (#[trigger] self.candidates@[i]).package@
            == self.problems@[i].name@
        &&& forall|i: int| 0 <= i < self.candidates@.len() ==> (#[trigger] self.candidates@[i]).versions@.len() > 0
        &&& forall|i: int| 0 <= i < self.candidates@.len() ==> (#[trigger] self.candidates@[i]).versions@.len() <= usize::MAX
        &&& self.phase == Phase::Fetching ==> self.candidates@.len() < self.problems@.len()
        &&& self.phase == Phase::Trialing ==> {
            &&& self.candidates@.len() == self.problems@.len()
            &&& enumerable(self.candidates@)
            &&& name_ordered_enumeration(self.candidates@, combinations_view(self.combinations@))
            &&& self.next_trial < self.combinations@.len()
        }
    }

    /// A run that has not built anything yet.
    pub fn new() -> (r: Resolver)
        ensures
            r.wf(),
            r.phase == Phase::InitialBuild,
            r.problems@.len() == 0,
            r.candidates@.len() == 0,
            r.combinations@.len() == 0,
    {
        Resolver {
            phase: Phase::InitialBuild,
            problems: Vec::new(),
            candidates: Vec::new(),
            combinations: Vec::new(),
            next_trial: 0,
        }
    }

    /// Takes the result of the unmodified build. A successful build ends the
    /// run at once with nothing to write; otherwise the diagnostics decide
    /// between fetching candidates for the first problem package and giving
    /// up for want of a recognisable failure.
    pub fn on_initial_build(&mut self, succeeded: bool, diagnostics: &str) -> (r: Result<Action, ResolveError>)
        requires
            old(self).wf(),
            old(self).phase == Phase::InitialBuild,
            old(self).candidates@.len() == 0,
            old(self).combinations@.len() == 0,
        ensures
            final(self).wf(),
            succeeded ==> r == Ok::<Action, ResolveError>(Action::Stop) && final(self).phase == Phase::Succeeded
                && final(self).combinations@.len() == 0,
            !succeeded ==> match (
                regex_captures(CONFLICT_PATTERN@, diagnostics@),
                regex_captures(CRATE_NOT_FOUND_PATTERN@, diagnostics@),
                regex_captures(NOT_IN_REGISTRY_PATTERN@, diagnostics@),
            ) {
                (Some(c), Some(a), Some(b)) => {
                    &&& problems_view(final(self).problems@) == problems_spec(
                        first_occurrences(c),
                        first_occurrences(a + b),
                    )
                    &&& final(self).candidates@.len() == 0
                    &&& if problems_spec(first_occurrences(c), first_occurrences(a + b)).len() == 0 {
                        r == Ok::<Action, ResolveError>(Action::Stop) && final(self).phase == Phase::Aborted(
                            AbortReason::NoParseableIssue,
                        )
                    } else {
                        r == Ok::<Action, ResolveError>(Action::Fetch(0)) && final(self).phase == Phase::Fetching
                    }
                },
                _ => r == Err::<Action, ResolveError>(ResolveError::DiagnosticPattern) && *final(self) == *old(self),
            },
    {
        if succeeded {
            self.phase = Phase::Succeeded;
            return Ok(Action::Stop);
        }
        let conflicts = match parse_conflicts(diagnostics) {
            Ok(v) => v,
            Err(e) => {
                return Err(e);
            },
        };
        let missing = match parse_missing_crates(diagnostics) {
            Ok(v) => v,
            Err(e) => {
                return Err(e);
            },
        };
        let problems = collect_problems(&conflicts, &missing);
        let empty = problems.len() == 0;
        self.problems = problems;
        if empty {
            self.phase = Phase::Aborted(AbortReason::NoParseableIssue);
            Ok(Action::Stop)
        } else {
            self.phase = Phase::Fetching;
            Ok(Action::Fetch(0))
        }
    }
    /// Takes the registry's entries for the next problem package, or `None`
    /// when the query failed. Records the package's candidate list and asks
    /// for the next package; after the last one, enumerates the combinations
    /// and asks for the first trial.
    pub fn on_fetched(&mut self, entries: Option<Vec<RegistryEntry>>) -> (r: Result<Action, ResolveError>)
        requires
            old(self).wf(),
            old(self).phase == Phase::Fetching,
        ensures
            final(self).wf(),
            final(self).problems@ == old(self).problems@,
            ({
                let i = old(self).candidates@.len() as int;
                let p = old(self).problems@[i];
                match entries {
                    None => r == Ok::<Action, ResolveError>(Action::Stop) && final(self).phase == Phase::Aborted(
                        AbortReason::FetchFailed,
                    ) && final(self).candidates@ == old(self).candidates@,
                    Some(e) => {
                        let sel = candidates_spec(e@);
                        if p.kind == ProblemKind::Missing && !views_comparable(sel) {
                            r == Err::<Action, ResolveError>(ResolveError::UnparsableVersion) && *final(self)
                                == *old(self)
                        } else if sel.len() == 0 {
                            r == Ok::<Action, ResolveError>(Action::Stop) && final(self).phase == Phase::Aborted(
                                AbortReason::NoCandidates,
                            ) && final(self).candidates@ == old(self).candidates@
                        } else {
                            &&& final(self).candidates@.len() == i + 1
                            &&& final(self).candidates@.take(i) == old(self).candidates@
                            &&& final(self).candidates@[i].package@ == p.name@
                            &&& list_fits(p.kind, e@, final(self).candidates@[i].versions@)
                            &&& if i + 1 < old(self).problems@.len() {
                                r == Ok::<Action, ResolveError>(Action::Fetch((i + 1) as usize))
                                    && final(self).phase == Phase::Fetching
                            } else if product(lengths_of(final(self).candidates@)) > usize::MAX {
                                r == Ok::<Action, ResolveError>(Action::Stop) && final(self).phase
                                    == Phase::Aborted(AbortReason::TooManyCombinations)
                            } else {
                                &&& r == Ok::<Action, ResolveError>(Action::Trial(0))
                                &&& final(self).phase == Phase::Trialing
                                &&& final(self).next_trial == 0
                                &&& name_ordered_enumeration(
                                    final(self).candidates@,
                                    combinations_view(final(self).combinations@),
                                )
                            }
                        }
                    },
                }
            }),
    {
        broadcast use vstd::seq_lib::group_to_multiset_ensures;

        let i = self.candidates.len();
        let entries = match entries {
            None => {
                self.phase = Phase::Aborted(AbortReason::FetchFailed);
                return Ok(Action::Stop);
            },
            Some(e) => e,
        };
        let selected = select_candidates(&entries);
        proof {
            lemma_comparable_views(selected@);
        }
        let missing = self.problems[i].kind == ProblemKind::Missing;
        let versions = if missing {
            match order_newest_first(&selected) {
                Ok(v) => v,
                Err(e) => {
                    return Err(e);
                },
            }
        } else {
            selected
        };
        proof {
            if missing {
                assert(versions@.len() == versions@.to_multiset().len());
                assert(selected@.len() == selected@.to_multiset().len());
            }
        }
        if versions.len() == 0 {
            self.phase = Phase::Aborted(AbortReason::NoCandidates);
            return Ok(Action::Stop);
        }
        let ghost fetched = selected@;
        let name = self.problems[i].name.clone();
        self.candidates.push(CandidateList { package: name, versions });
        assert(self.candidates@.take(i as int) =~= old(self).candidates@);
        assert forall|j: int| 0 <= j < self.candidates@.len() implies (#[trigger] self.candidates@[j]).package@
            == self.problems@[j].name@ && self.candidates@[j].versions@.len() > 0
            && self.candidates@[j].versions@.len() <= usize::MAX by {
            if j < i {
                assert(self.candidates@[j] == old(self).candidates@[j]);
            }
        }
        proof {
            if missing {
                assert(strings_of(fetched) == candidates_spec(entries@)
                    && fetched.to_multiset() == self.candidates@[i as int].versions@.to_multiset()
                    && newest_first(self.candidates@[i as int].versions@));
            }
        }
        let n = self.problems.len();
        if i + 1 < n {
            return Ok(Action::Fetch(i + 1));
        }
        match combination_count(&self.candidates) {
            None => {
                self.phase = Phase::Aborted(AbortReason::TooManyCombinations);
                Ok(Action::Stop)
            },
            Some(_) => {
                proof {
                    assert forall|k: int| 0 <= k < lengths_of(self.candidates@).len() implies lengths_of(self.candidates@)[k] > 0 by {
                        assert(self.candidates@[k].versions@.len() > 0);
                    }
                    lemma_product_positive(lengths_of(self.candidates@));
                }
                self.combinations = generate_combinations(&self.candidates);
                self.next_trial = 0;
                self.phase = Phase::Trialing;
                Ok(Action::Trial(0))
            },
        }
    }

    /// Takes the result of the trial build of the current combination. The
    /// first success asks for that combination to be persisted; a failure
    /// moves on to the next combination, or ends the run once all failed.
    pub fn on_trial(&mut self, succeeded: bool) -> (r: Action)
        requires
            old(self).wf(),
            old(self).phase == Phase::Trialing,
        ensures
            final(self).wf(),
            final(self).problems@ == old(self).problems@,
            final(self).candidates@ == old(self).candidates@,
            final(self).combinations@ == old(self).combinations@,
            succeeded ==> r == Action::Persist(old(self).next_trial) && final(self).phase == Phase::Succeeded
                && final(self).next_trial == old(self).next_trial,
            !succeeded && old(self).next_trial + 1 < old(self).combinations@.len() ==> r == Action::Trial(
                (old(self).next_trial + 1) as usize,
            ) && final(self).phase == Phase::Trialing && final(self).next_trial == old(self).next_trial + 1,
            !succeeded && old(self).next_trial + 1 == old(self).combinations@.len() ==> r == Action::Stop
                && final(self).phase == Phase::Exhausted,
    {
        let k = self.next_trial;
        let n = self.combinations.len();
        if succeeded {
            self.phase = Phase::Succeeded;
            Action::Persist(k)
        } else if k + 1 < n {
            self.next_trial = k + 1;
            Action::Trial(k + 1)
        } else {
            self.phase = Phase::Exhausted;
            Action::Stop
        }
    }
}

} // verus!
