//! Turning registry data into an ordered list of candidate versions.

use vstd::prelude::*;
use crate::error::ResolveError;
use core::cmp::Ordering;

verus! {

/// The most candidates kept for one package.
pub const MAX_ROLLBACKS: usize = 5;

/// One published version as the registry lists it.
pub struct RegistryEntry {
    pub num: String,
    pub yanked: bool,
}

/// The version strings of the entries that are not withdrawn, in registry order.
pub open spec fn unyanked(e: Seq<RegistryEntry>) -> Seq<Seq<char>>
    decreases e.len(),
{
    if e.len() == 0 {
        Seq::empty()
    } else if e.last().yanked {
        unyanked(e.drop_last())
    } else {
        unyanked(e.drop_last()).push(e.last().num@)
    }
}

pub open spec fn min_len(a: nat, b: nat) -> nat {
    if a < b { a } else { b }
}

/// The candidates offered for a package: the first few unwithdrawn versions.
pub open spec fn candidates_spec(e: Seq<RegistryEntry>) -> Seq<Seq<char>> {
    unyanked(e).take(min_len(unyanked(e).len(), MAX_ROLLBACKS as nat) as int)
}

pub open spec fn strings_of(v: Seq<String>) -> Seq<Seq<char>> {
    v.map_values(|s: String| s@)
}

proof fn lemma_unyanked_prefix(e: Seq<RegistryEntry>, i: int)
    requires
        0 <= i <= e.len(),
    ensures
        unyanked(e.take(i)).len() <= unyanked(e).len(),
        unyanked(e).take(unyanked(e.take(i)).len() as int) == unyanked(e.take(i)),
    decreases e.len() - i,
{
    if i == e.len() {
        assert(e.take(i) =~= e);
        assert(unyanked(e).take(unyanked(e).len() as int) =~= unyanked(e));
    } else {
        lemma_unyanked_prefix(e, i + 1);
        assert(e.take(i + 1).drop_last() =~= e.take(i));
        let a = unyanked(e.take(i));
        let b = unyanked(e.take(i + 1));
        assert(b.take(a.len() as int) =~= a);
        assert(unyanked(e).take(a.len() as int) =~= b.take(a.len() as int));
    }
}

/// Keeps the first `MAX_ROLLBACKS` versions that are not withdrawn, in the
/// registry's order.
pub fn select_candidates(entries: &Vec<RegistryEntry>) -> (r: Vec<String>)
    ensures
        strings_of(r@) == candidates_spec(entries@),
{
    let ghost e = entries@;
    let mut r: Vec<String> = Vec::new();
    let mut i: usize = 0;
    while i < entries.len() && r.len() < MAX_ROLLBACKS
        invariant
            e == entries@,
            0 <= i <= e.len(),
            r@.len() <= MAX_ROLLBACKS,
            strings_of(r@) == unyanked(e.take(i as int)),
        decreases e.len() - i,
    {
        assert(e.take(i + 1).drop_last() =~= e.take(i as int));
        if !entries[i].yanked {
            r.push(entries[i].num.clone());
        }
        i = i + 1;
        assert(strings_of(r@) =~= unyanked(e.take(i as int)));
    }
    proof {
        lemma_unyanked_prefix(e, i as int);
        if i == e.len() {
            assert(e.take(i as int) =~= e);
        }
        assert(strings_of(r@) =~= candidates_spec(e));
    }
    r
}

/// Cap law: a package never gets more than `MAX_ROLLBACKS` candidates, and
/// each candidate is the version of an entry that is not withdrawn.
pub proof fn lemma_candidates_capped(e: Seq<RegistryEntry>)
    ensures
        candidates_spec(e).len() <= MAX_ROLLBACKS,
        forall|k: int| 0 <= k < candidates_spec(e).len() ==> exists|j: int|
            0 <= j < e.len() && !e[j].yanked && e[j].num@ == #[trigger] candidates_spec(e)[k],
{
    lemma_unyanked_sound(e);
}

proof fn lemma_unyanked_sound(e: Seq<RegistryEntry>)
    ensures
        forall|k: int| 0 <= k < unyanked(e).len() ==> exists|j: int|
            0 <= j < e.len() && !e[j].yanked && e[j].num@ == #[trigger] unyanked(e)[k],
    decreases e.len(),
{
    if e.len() > 0 {
        let t = e.drop_last();
        lemma_unyanked_sound(t);
        assert forall|k: int| 0 <= k < unyanked(e).len() implies exists|j: int|
            0 <= j < e.len() && !e[j].yanked && e[j].num@ == #[trigger] unyanked(e)[k] by {
            if k < unyanked(t).len() {
                let j = choose|j: int| 0 <= j < t.len() && !t[j].yanked && t[j].num@ == unyanked(t)[k];
                assert(e[j] == t[j]);
            } else {
                assert(e[e.len() - 1] == e.last());
            }
        }
    }
}

/// For two version strings: `None` when either is not a valid semantic
/// version, otherwise their order as `semver::Version` values: by
/// precedence, with build metadata breaking ties.
pub uninterp spec fn semver_order(a: Seq<char>, b: Seq<char>) -> Option<Ordering>;

/// Relies on `semver::Version::parse` for both strings and on the `Ord` of
/// `semver::Version`.
#[verifier::external_body]
fn compare_versions(a: &str, b: &str) -> (r: Option<Ordering>)
    ensures
        r == semver_order(a@, b@),
{
    match (semver::Version::parse(a), semver::Version::parse(b)) {
        (Ok(x), Ok(y)) => Some(x.cmp(&y)),
        _ => None,
    }
}

/// Every two of the versions can be compared.
pub open spec fn all_comparable(v: Seq<String>) -> bool {
    forall|i: int, j: int| 0 <= i < v.len() && 0 <= j < v.len() ==> #[trigger] semver_order(v[i]@, v[j]@) is Some
}

/// No version in `s` is newer than `x`.
pub open spec fn dominates(x: String, s: Seq<String>) -> bool {
    forall|y: String| s.contains(y) ==> semver_order(x@, y@) != Some(Ordering::Less)
}

/// `s` has a newest version.
pub open spec fn has_newest(s: Seq<String>) -> bool {
    exists|x: String| s.contains(x) && dominates(x, s)
}

/// Each position holds a newest version of what stands from there on,
/// wherever there is one.
pub open spec fn newest_first(r: Seq<String>) -> bool {
    forall|i: int| 0 <= i < r.len() && has_newest(#[trigger] r.skip(i)) ==> dominates(r[i], r.skip(i))
}

fn comparable(versions: &Vec<String>) -> (ok: bool)
    ensures
        ok == all_comparable(versions@),
{
    let mut i: usize = 0;
    while i < versions.len()
        invariant
            0 <= i <= versions@.len(),
            forall|a: int, b: int| 0 <= a < i && 0 <= b < versions@.len() ==> #[trigger] semver_order(versions@[a]@, versions@[b]@) is Some,
        decreases versions@.len() - i,
    {
        let mut j: usize = 0;
        while j < versions.len()
            invariant
                0 <= i < versions@.len(),
                0 <= j <= versions@.len(),
                forall|a: int, b: int| 0 <= a < i && 0 <= b < versions@.len() ==> #[trigger] semver_order(versions@[a]@, versions@[b]@) is Some,
                forall|b: int| 0 <= b < j ==> #[trigger] semver_order(versions@[i as int]@, versions@[b]@) is Some,
            decreases versions@.len() - j,
        {
            if compare_versions(versions[i].as_str(), versions[j].as_str()).is_none() {
                return false;
            }
            j = j + 1;
        }
        i = i + 1;
    }
    true
}

/// Whether `rem[m]` is at least as new as every version in `rem`.
fn is_newest(rem: &Vec<String>, m: usize) -> (r: bool)
    requires
        m < rem@.len(),
        all_comparable(rem@),
    ensures
        r == dominates(rem@[m as int], rem@),
{
    let mut j: usize = 0;
    while j < rem.len()
        invariant
            m < rem@.len(),
            0 <= j <= rem@.len(),
            forall|b: int| 0 <= b < j ==> semver_order(rem@[m as int]@, (#[trigger] rem@[b])@) != Some(Ordering::Less),
        decreases rem@.len() - j,
    {
        match compare_versions(rem[m].as_str(), rem[j].as_str()) {
            Some(Ordering::Less) => {
                assert(rem@.contains(rem@[j as int]));
                return false;
            },
            _ => {},
        }
        j = j + 1;
    }
    true
}

/// Moving one element from `rem` to the end of `a` keeps the elements of
/// `a + rem`.
proof fn lemma_move_keeps_elements(a: Seq<String>, rem: Seq<String>, p: int)
    requires
        0 <= p < rem.len(),
    ensures
        forall|y: String| (a + rem).contains(y) <==> (a.push(rem[p]) + rem.remove(p)).contains(y),
{
    let s1 = a + rem;
    let s2 = a.push(rem[p]) + rem.remove(p);
    assert forall|y: String| s1.contains(y) <==> s2.contains(y) by {
        if s1.contains(y) {
            let k = choose|k: int| 0 <= k < s1.len() && s1[k] == y;
            if k < a.len() {
                assert(s2[k] == y);
            } else if k - a.len() == p {
                assert(s2[a.len() as int] == y);
            } else if k - a.len() < p {
                assert(s2[k + 1] == y);
            } else {
                assert(s2[k] == y);
            }
        }
        if s2.contains(y) {
            let k = choose|k: int| 0 <= k < s2.len() && s2[k] == y;
            if k < a.len() {
                assert(s1[k] == y);
            } else if k == a.len() {
                assert(s1[a.len() + p] == y);
            } else if k - a.len() - 1 < p {
                assert(s1[k - 1] == y);
            } else {
                assert(s1[k] == y);
            }
        }
    }
}

/// Sequences with the same elements agree on which version is newest.
proof fn lemma_same_elements(s1: Seq<String>, s2: Seq<String>)
    requires
        forall|y: String| s1.contains(y) <==> s2.contains(y),
    ensures
        forall|x: String| dominates(x, s1) == dominates(x, s2),
        has_newest(s1) == has_newest(s2),
{
    assert forall|x: String| dominates(x, s1) == dominates(x, s2) by {
        if dominates(x, s1) {
            assert forall|y: String| s2.contains(y) implies semver_order(x@, y@) != Some(Ordering::Less) by {
                assert(s1.contains(y));
            }
        }
        if dominates(x, s2) {
            assert forall|y: String| s1.contains(y) implies semver_order(x@, y@) != Some(Ordering::Less) by {
                assert(s2.contains(y));
            }
        }
    }
    if has_newest(s1) {
        let x = choose|x: String| s1.contains(x) && dominates(x, s1);
        assert(s2.contains(x) && dominates(x, s2));
    }
    if has_newest(s2) {
        let x = choose|x: String| s2.contains(x) && dominates(x, s2);
        assert(s1.contains(x) && dominates(x, s1));
    }
}

/// Orders versions newest first by semantic-version precedence; ties keep
/// their earlier order. Fails when any version does not parse.
pub fn order_newest_first(versions: &Vec<String>) -> (r: Result<Vec<String>, ResolveError>)
    ensures
        r is Err <==> !all_comparable(versions@),
        r is Err ==> r == Err::<Vec<String>, ResolveError>(ResolveError::UnparsableVersion),
        r matches Ok(o) ==> o@.to_multiset() == versions@.to_multiset() && newest_first(o@),
{
    broadcast use vstd::seq_lib::group_to_multiset_ensures, vstd::multiset::group_multiset_axioms;

    if !comparable(versions) {
        return Err(ResolveError::UnparsableVersion);
    }
    let mut rem: Vec<String> = Vec::new();
    let mut i: usize = 0;
    while i < versions.len()
        invariant
            0 <= i <= versions@.len(),
            rem@ == versions@.take(i as int),
        decreases versions@.len() - i,
    {
        rem.push(versions[i].clone());
        i = i + 1;
        assert(rem@ =~= versions@.take(i as int));
    }
    assert(versions@.take(versions@.len() as int) =~= versions@);
    let mut out: Vec<String> = Vec::new();
    while rem.len() > 0
        invariant
            out@.to_multiset().add(rem@.to_multiset()) == versions@.to_multiset(),
            all_comparable(rem@),
            forall|i: int| 0 <= i < out@.len() && has_newest(#[trigger] out@.skip(i) + rem@)
                ==> dominates(out@[i], out@.skip(i) + rem@),
        decreases rem@.len(),
    {
        let mut pick: usize = 0;
        let mut found = false;
        let mut k: usize = 0;
        while k < rem.len() && !found
            invariant
                0 <= k <= rem@.len(),
                all_comparable(rem@),
                found ==> pick < rem@.len() && dominates(rem@[pick as int], rem@),
                !found ==> pick == 0 && forall|a: int| 0 <= a < k ==> !dominates(#[trigger] rem@[a], rem@),
            decreases rem@.len() - k + (if found { 0int } else { 1int }),
        {
            if is_newest(&rem, k) {
                pick = k;
                found = true;
            } else {
                k = k + 1;
            }
        }
        let ghost old_out = out@;
        let ghost old_rem = rem@;
        proof {
            if !found {
                assert forall|x: String| old_rem.contains(x) implies !dominates(x, old_rem) by {
                    let a = choose|a: int| 0 <= a < old_rem.len() && old_rem[a] == x;
                    assert(!dominates(old_rem[a], old_rem));
                }
            }
        }
        let x = rem.remove(pick);
        out.push(x);
        proof {
            assert(out@ == old_out.push(x));
            assert(rem@ == old_rem.remove(pick as int));
            assert(old_rem[pick as int] == x);
            assert(old_rem.contains(x));
            old_rem.to_multiset_ensures();
            old_out.to_multiset_ensures();
            assert(old_rem.to_multiset().count(x) > 0);
            assert(out@.to_multiset().add(rem@.to_multiset()) =~= old_out.to_multiset().add(old_rem.to_multiset()));
            assert forall|a: int, b: int| 0 <= a < rem@.len() && 0 <= b < rem@.len() implies #[trigger] semver_order(rem@[a]@, rem@[b]@) is Some by {
                let a0 = if a < pick { a } else { a + 1 };
                let b0 = if b < pick { b } else { b + 1 };
                assert(semver_order(old_rem[a0]@, old_rem[b0]@) is Some);
            }
            assert forall|i: int| 0 <= i < out@.len() && has_newest(#[trigger] out@.skip(i) + rem@)
                implies dominates(out@[i], out@.skip(i) + rem@) by {
                let olds = old_out.skip(i);
                assert(out@.skip(i) =~= olds.push(x));
                lemma_move_keeps_elements(olds, old_rem, pick as int);
                lemma_same_elements(olds + old_rem, out@.skip(i) + rem@);
                if i == old_out.len() {
                    assert(olds + old_rem =~= old_rem);
                    assert(out@[i] == x);
                }
            }
        }
    }
    assert forall|i: int| 0 <= i < out@.len() implies #[trigger] out@.skip(i) + rem@ == out@.skip(i) by {
        assert(out@.skip(i) + rem@ =~= out@.skip(i));
    }
    assert(rem@.to_multiset() =~= vstd::multiset::Multiset::empty());
    assert(out@.to_multiset() =~= versions@.to_multiset());
    Ok(out)
}

/// Newest-first law: when the fetched versions have a newest one, the
/// reordered list starts with a newest version.
pub proof fn lemma_newest_tried_first(versions: Seq<String>, ordered: Seq<String>)
    requires
        ordered.to_multiset() == versions.to_multiset(),
        newest_first(ordered),
        has_newest(versions),
        versions.len() > 0,
    ensures
        dominates(ordered[0], versions),
{
    broadcast use vstd::seq_lib::group_to_multiset_ensures, vstd::multiset::group_multiset_axioms;

    assert(ordered.skip(0) =~= ordered);
    ordered.to_multiset_ensures();
    versions.to_multiset_ensures();
    assert forall|y: String| ordered.contains(y) <==> versions.contains(y) by {
        assert(ordered.to_multiset().count(y) == versions.to_multiset().count(y));
        assert(ordered.contains(y) <==> ordered.to_multiset().count(y) > 0);
        assert(versions.contains(y) <==> versions.to_multiset().count(y) > 0);
    }
    lemma_same_elements(ordered, versions);
    assert(ordered.len() > 0) by {
        assert(ordered.len() == ordered.to_multiset().len());
    }
}

} // verus!
