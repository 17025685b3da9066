//! Mixed-radix enumeration of version combinations.
//!
//! A combination picks one version for each package. The lists are first
//! put in ascending order of package name; the index vector is then a
//! counter whose first digit is the least significant: digit `i` runs over
//! the `i`-th list, and a full carry past the last digit ends the
//! enumeration.

use vstd::prelude::*;
use vstd::arithmetic::div_mod::lemma_fundamental_div_mod_converse;
use vstd::string::StrSliceExecFns;

verus! {

/// The ordered candidate versions of one package.
pub struct CandidateList {
    pub package: String,
    pub versions: Vec<String>,
}

/// One package pinned to one version.
pub struct Assignment {
    pub package: String,
    pub version: String,
}

/// Product of all radices; the number of counter values.
pub open spec fn product(lens: Seq<usize>) -> int
    decreases lens.len(),
{
    if lens.len() == 0 {
        1
    } else {
        lens[0] * product(lens.drop_first())
    }
}

pub open spec fn all_positive(lens: Seq<usize>) -> bool {
    forall|i: int| 0 <= i < lens.len() ==> lens[i] > 0
}

/// Every digit is below its radix.
pub open spec fn in_bounds(digits: Seq<usize>, lens: Seq<usize>) -> bool {
    &&& digits.len() == lens.len()
    &&& forall|i: int| 0 <= i < lens.len() ==> digits[i] < lens[i]
}

/// The number that a digit vector stands for, first digit least significant.
pub open spec fn counter_value(digits: Seq<usize>, lens: Seq<usize>) -> int
    decreases digits.len(),
{
    if digits.len() == 0 || lens.len() == 0 {
        0
    } else {
        digits[0] + lens[0] * counter_value(digits.drop_first(), lens.drop_first())
    }
}

/// The digit vector of counter value `k`.
pub open spec fn decode(k: nat, lens: Seq<usize>) -> Seq<usize>
    decreases lens.len(),
{
    if lens.len() == 0 || lens[0] == 0 {
        Seq::empty()
    } else {
        seq![(k % (lens[0] as nat)) as usize] + decode(k / (lens[0] as nat), lens.drop_first())
    }
}

/// The radices of a candidate mapping: the length of each list.
pub open spec fn lengths_of(c: Seq<CandidateList>) -> Seq<usize> {
    Seq::new(c.len(), |i: int| c[i].versions@.len() as usize)
}

/// Every package has at least one candidate, and the number of
/// combinations fits in memory.
pub open spec fn enumerable(c: Seq<CandidateList>) -> bool {
    &&& forall|i: int| 0 <= i < c.len() ==> #[trigger] c[i].versions@.len() > 0
    &&& forall|i: int| 0 <= i < c.len() ==> #[trigger] c[i].versions@.len() <= usize::MAX
    &&& product(lengths_of(c)) <= usize::MAX
}

/// The combination that picks candidate `digits[i]` for package `i`.
pub open spec fn combination_at(c: Seq<CandidateList>, digits: Seq<usize>) -> Seq<(Seq<char>, Seq<char>)> {
    Seq::new(c.len(), |i: int| (c[i].package@, c[i].versions@[digits[i] as int]@))
}

/// All combinations, in enumeration order.
pub open spec fn enumeration(c: Seq<CandidateList>) -> Seq<Seq<(Seq<char>, Seq<char>)>> {
    Seq::new(
        product(lengths_of(c)) as nat,
        |k: int| combination_at(c, decode(k as nat, lengths_of(c))),
    )
}

pub open spec fn versions_view(l: CandidateList) -> Seq<Seq<char>> {
    l.versions@.map_values(|v: String| v@)
}

/// The position in the enumeration of the combination that picks candidate
/// `j` for package `i` and the first candidate for every other package.
pub open spec fn position_choosing(c: Seq<CandidateList>, i: int, j: int) -> int {
    counter_value(
        Seq::new(c.len(), |x: int| if x == i { j as usize } else { 0usize }),
        lengths_of(c),
    )
}

pub open spec fn assignments_view(a: Seq<Assignment>) -> Seq<(Seq<char>, Seq<char>)> {
    a.map_values(|x: Assignment| (x.package@, x.version@))
}

pub open spec fn combinations_view(r: Seq<Vec<Assignment>>) -> Seq<Seq<(Seq<char>, Seq<char>)>> {
    r.map_values(|v: Vec<Assignment>| assignments_view(v@))
}

pub proof fn lemma_product_positive(lens: Seq<usize>)
    requires
        all_positive(lens),
    ensures
        product(lens) >= 1,
    decreases lens.len(),
{
    if lens.len() > 0 {
        lemma_product_positive(lens.drop_first());
        let p = product(lens.drop_first());
        let l = lens[0] as int;
        assert(l * p >= 1) by (nonlinear_arith)
            requires
                l >= 1,
                p >= 1,
        ;
    }
}

/// A digit vector in bounds stands for a value below the product.
proof fn lemma_value_bounds(digits: Seq<usize>, lens: Seq<usize>)
    requires
        in_bounds(digits, lens),
    ensures
        0 <= counter_value(digits, lens) < product(lens),
    decreases digits.len(),
{
    if digits.len() > 0 {
        lemma_value_bounds(digits.drop_first(), lens.drop_first());
        let v = counter_value(digits.drop_first(), lens.drop_first());
        let p = product(lens.drop_first());
        let d = digits[0] as int;
        let l = lens[0] as int;
        assert(0 <= d + l * v < l * p) by (nonlinear_arith)
            requires
                0 <= v < p,
                0 <= d < l,
        ;
    }
}

/// Decoding undoes the value of a digit vector in bounds.
proof fn lemma_decode_value(digits: Seq<usize>, lens: Seq<usize>)
    requires
        in_bounds(digits, lens),
    ensures
        decode(counter_value(digits, lens) as nat, lens) == digits,
    decreases digits.len(),
{
    lemma_value_bounds(digits, lens);
    if digits.len() > 0 {
        let rest = counter_value(digits.drop_first(), lens.drop_first());
        lemma_value_bounds(digits.drop_first(), lens.drop_first());
        lemma_decode_value(digits.drop_first(), lens.drop_first());
        let x = counter_value(digits, lens);
        let l = lens[0] as int;
        let d = digits[0] as int;
        assert(x == rest * l + d) by (nonlinear_arith)
            requires
                x == d + l * rest,
        ;
        lemma_fundamental_div_mod_converse(x, lens[0] as int, rest, digits[0] as int);
        assert(decode(x as nat, lens) =~= digits);
    }
}

/// The value of the decoded digits is the counter value itself.
proof fn lemma_value_decode(k: nat, lens: Seq<usize>)
    requires
        all_positive(lens),
        k < product(lens),
    ensures
        in_bounds(decode(k, lens), lens),
        counter_value(decode(k, lens), lens) == k,
    decreases lens.len(),
{
    if lens.len() > 0 {
        let l = lens[0] as int;
        let p = product(lens.drop_first());
        let q = k as int / l;
        let r = k as int % l;
        assert(k == l * q + r && 0 <= r < l) by (nonlinear_arith)
            requires
                l > 0,
                q == k as int / l,
                r == k as int % l,
        ;
        assert(q < p) by (nonlinear_arith)
            requires
                k == l * q + r,
                0 <= r,
                k < l * p,
                l > 0,
        ;
        lemma_value_decode(q as nat, lens.drop_first());
        let d = decode(k, lens);
        assert(d.drop_first() =~= decode(q as nat, lens.drop_first()));
    }
}

/// Incrementing a digit after a run of maximal digits that wrap to zero
/// adds one to the value.
proof fn lemma_carry(old: Seq<usize>, new: Seq<usize>, lens: Seq<usize>, i: int)
    requires
        in_bounds(old, lens),
        new.len() == old.len(),
        0 <= i < lens.len(),
        forall|j: int| 0 <= j < i ==> old[j] + 1 == lens[j] && new[j] == 0,
        new[i] == old[i] + 1,
        forall|j: int| i < j < lens.len() ==> new[j] == old[j],
    ensures
        counter_value(new, lens) == counter_value(old, lens) + 1,
    decreases i,
{
    if i == 0 {
        assert(new.drop_first() =~= old.drop_first());
    } else {
        lemma_carry(old.drop_first(), new.drop_first(), lens.drop_first(), i - 1);
        let vo = counter_value(old.drop_first(), lens.drop_first());
        let l = lens[0] as int;
        assert(l * (vo + 1) == l * vo + l) by (nonlinear_arith);
    }
}

/// All digits at their maximum stand for the last value.
proof fn lemma_all_max(digits: Seq<usize>, lens: Seq<usize>)
    requires
        digits.len() == lens.len(),
        forall|j: int| 0 <= j < lens.len() ==> digits[j] + 1 == lens[j],
    ensures
        counter_value(digits, lens) + 1 == product(lens),
    decreases digits.len(),
{
    if digits.len() > 0 {
        lemma_all_max(digits.drop_first(), lens.drop_first());
        let v = counter_value(digits.drop_first(), lens.drop_first());
        let l = lens[0] as int;
        assert((l - 1) + l * v + 1 == l * (v + 1)) by (nonlinear_arith);
    }
}

proof fn lemma_all_zero(digits: Seq<usize>, lens: Seq<usize>)
    requires
        digits.len() == lens.len(),
        forall|j: int| 0 <= j < lens.len() ==> digits[j] == 0,
    ensures
        counter_value(digits, lens) == 0,
    decreases digits.len(),
{
    if digits.len() > 0 {
        lemma_all_zero(digits.drop_first(), lens.drop_first());
    }
}

/// Advances the index vector by one step of the mixed-radix counter.
/// Returns `true` when the carry runs past the last digit, in which case
/// every digit is back at zero.
pub fn advance_indices(indices: &mut Vec<usize>, lengths: &Vec<usize>) -> (wrapped: bool)
    requires
        in_bounds(old(indices)@, lengths@),
        all_positive(lengths@),
    ensures
        in_bounds(final(indices)@, lengths@),
        wrapped <==> counter_value(old(indices)@, lengths@) + 1 == product(lengths@),
        counter_value(final(indices)@, lengths@)
            == (counter_value(old(indices)@, lengths@) + 1) % product(lengths@),
{
    let ghost start = indices@;
    proof {
        lemma_value_bounds(start, lengths@);
    }
    let mut i: usize = 0;
    loop
        invariant
            0 <= i <= lengths.len(),
            in_bounds(indices@, lengths@),
            start == old(indices)@,
            in_bounds(start, lengths@),
            all_positive(lengths@),
            0 <= counter_value(start, lengths@) < product(lengths@),
            forall|j: int| 0 <= j < i ==> start[j] + 1 == lengths[j] && indices[j] == 0,
            forall|j: int| i <= j < lengths.len() ==> indices[j] == start[j],
        decreases lengths.len() - i,
    {
        if i == lengths.len() {
            proof {
                lemma_all_max(start, lengths@);
                lemma_all_zero(indices@, lengths@);
                let p = product(lengths@);
                lemma_fundamental_div_mod_converse(p, p, 1, 0);
            }
            return true;
        }
        if indices[i] + 1 < lengths[i] {
            let next = indices[i] + 1;
            indices.set(i, next);
            proof {
                lemma_carry(start, indices@, lengths@, i as int);
                lemma_value_bounds(indices@, lengths@);
                let v = counter_value(start, lengths@) + 1;
                assert(v % product(lengths@) == v) by {
                    lemma_fundamental_div_mod_converse(v, product(lengths@), 0, v);
                }
            }
            return false;
        }
        indices.set(i, 0);
        i = i + 1;
    }
}

/// The combination that the index vector currently selects.
pub fn combination_for(candidates: &Vec<CandidateList>, indices: &Vec<usize>) -> (combo: Vec<Assignment>)
    requires
        in_bounds(indices@, lengths_of(candidates@)),
    ensures
        assignments_view(combo@) == combination_at(candidates@, indices@),
{
    let mut combo: Vec<Assignment> = Vec::new();
    let mut i: usize = 0;
    while i < candidates.len()
        invariant
            0 <= i <= candidates.len(),
            in_bounds(indices@, lengths_of(candidates@)),
            combo@.len() == i,
            forall|j: int| 0 <= j < i ==> (#[trigger] combo@[j]).package@ == candidates@[j].package@
                && combo@[j].version@ == candidates@[j].versions@[indices@[j] as int]@,
        decreases candidates.len() - i,
    {
        let list = &candidates[i];
        assert(indices[i as int] < list.versions@.len());
        let a = Assignment { package: list.package.clone(), version: list.versions[indices[i]].clone() };
        combo.push(a);
        i = i + 1;
    }
    assert(assignments_view(combo@) =~= combination_at(candidates@, indices@));
    combo
}

/// Every combination of the candidate lists, in the lists' own order.
fn enumerate_in_order(candidates: &Vec<CandidateList>) -> (combos: Vec<Vec<Assignment>>)
    requires
        enumerable(candidates@),
    ensures
        combinations_view(combos@) == enumeration(candidates@),
{
    let ghost c = candidates@;
    let mut lengths: Vec<usize> = Vec::new();
    let mut indices: Vec<usize> = Vec::new();
    let mut i: usize = 0;
    while i < candidates.len()
        invariant
            0 <= i <= candidates.len(),
            c == candidates@,
            enumerable(c),
            lengths@.len() == i,
            indices@.len() == i,
            forall|j: int| 0 <= j < i ==> lengths@[j] == lengths_of(c)[j],
            forall|j: int| 0 <= j < i ==> indices@[j] == 0,
        decreases candidates.len() - i,
    {
        lengths.push(candidates[i].versions.len());
        indices.push(0);
        i = i + 1;
    }
    assert(lengths@ =~= lengths_of(c));
    let ghost lens = lengths@;
    proof {
        lemma_product_positive(lens);
        lemma_all_zero(indices@, lens);
    }
    let mut combos: Vec<Vec<Assignment>> = Vec::new();
    loop
        invariant_except_break
            counter_value(indices@, lens) == combos@.len(),
            combos@.len() < product(lens),
        invariant
            c == candidates@,
            lens == lengths@,
            lens == lengths_of(c),
            enumerable(c),
            all_positive(lens),
            in_bounds(indices@, lens),
            forall|k: int| 0 <= k < combos@.len() ==> assignments_view((#[trigger] combos@[k])@)
                == combination_at(c, decode(k as nat, lens)),
        ensures
            combos@.len() == product(lens),
            forall|k: int| 0 <= k < combos@.len() ==> assignments_view((#[trigger] combos@[k])@)
                == combination_at(c, decode(k as nat, lens)),
        decreases product(lens) - combos@.len(),
    {
        proof {
            lemma_decode_value(indices@, lens);
        }
        let combo = combination_for(candidates, &indices);
        combos.push(combo);
        let wrapped = advance_indices(&mut indices, &lengths);
        if wrapped {
            break;
        }
        proof {
            let v = combos@.len() as int;
            lemma_value_bounds(indices@, lens);
            lemma_fundamental_div_mod_converse(v, product(lens), 0, v);
        }
    }
    assert(combinations_view(combos@) =~= enumeration(c));
    combos
}

/// Strict order of package names: character by character, a proper prefix
/// first.
pub open spec fn name_lt(a: Seq<char>, b: Seq<char>) -> bool
    decreases a.len(),
{
    if b.len() == 0 {
        false
    } else if a.len() == 0 {
        true
    } else if a[0] != b[0] {
        (a[0] as u32) < (b[0] as u32)
    } else {
        name_lt(a.drop_first(), b.drop_first())
    }
}

/// `b` does not sort before `a`.
pub open spec fn name_le(a: Seq<char>, b: Seq<char>) -> bool {
    !name_lt(b, a)
}

proof fn lemma_name_lt_trans(a: Seq<char>, b: Seq<char>, c: Seq<char>)
    requires
        name_lt(a, b),
        name_lt(b, c),
    ensures
        name_lt(a, c),
    decreases a.len(),
{
    if a.len() > 0 && a[0] == b[0] && b[0] == c[0] {
        lemma_name_lt_trans(a.drop_first(), b.drop_first(), c.drop_first());
    }
}

proof fn lemma_name_lt_irreflexive(a: Seq<char>)
    ensures
        !name_lt(a, a),
    decreases a.len(),
{
    if a.len() > 0 {
        lemma_name_lt_irreflexive(a.drop_first());
    }
}

/// Whether package name `a` sorts strictly before `b`.
pub fn name_less(a: &String, b: &String) -> (r: bool)
    ensures
        r == name_lt(a@, b@),
{
    let sa = a.as_str();
    let sb = b.as_str();
    let la = sa.unicode_len();
    let lb = sb.unicode_len();
    let mut i: usize = 0;
    assert(a@.skip(0) =~= a@);
    assert(b@.skip(0) =~= b@);
    while i < la && i < lb
        invariant
            sa@ == a@,
            sb@ == b@,
            la == a@.len(),
            lb == b@.len(),
            0 <= i <= la,
            i <= lb,
            name_lt(a@, b@) == name_lt(a@.skip(i as int), b@.skip(i as int)),
        decreases la - i,
    {
        let ca = sa.get_char(i);
        let cb = sb.get_char(i);
        if ca != cb {
            return (ca as u32) < (cb as u32);
        }
        assert(a@.skip(i as int).drop_first() =~= a@.skip(i + 1));
        assert(b@.skip(i as int).drop_first() =~= b@.skip(i + 1));
        i = i + 1;
    }
    i < lb
}

/// The lists' names ascend.
pub open spec fn names_ascending(c: Seq<CandidateList>) -> bool {
    forall|i: int, j: int| 0 <= i < j < c.len() ==> name_le(c[i].package@, c[j].package@)
}

/// `perm` lists each index below `n` exactly once.
pub open spec fn is_permutation(perm: Seq<int>, n: nat) -> bool {
    &&& perm.len() == n
    &&& perm.no_duplicates()
    &&& forall|k: int| 0 <= k < perm.len() ==> 0 <= #[trigger] perm[k] < n
}

pub open spec fn permuted(c: Seq<CandidateList>, perm: Seq<int>) -> Seq<CandidateList> {
    Seq::new(perm.len(), |k: int| c[perm[k]])
}

/// The two sequences hold lists with the same names and versions.
pub open spec fn same_lists(s: Seq<CandidateList>, t: Seq<CandidateList>) -> bool {
    &&& s.len() == t.len()
    &&& forall|k: int| 0 <= k < s.len() ==> (#[trigger] s[k]).package@ == t[k].package@ && s[k].versions@
        == t[k].versions@
}

/// The combinations, in the enumeration of the lists taken in ascending
/// name order.
pub open spec fn name_ordered_enumeration(
    c: Seq<CandidateList>,
    e: Seq<Seq<(Seq<char>, Seq<char>)>>,
) -> bool {
    exists|perm: Seq<int>|
        is_permutation(perm, c.len()) && names_ascending(#[trigger] permuted(c, perm)) && e == enumeration(
            permuted(c, perm),
        )
}

proof fn lemma_product_insert(s: Seq<usize>, j: int, x: usize)
    requires
        0 <= j <= s.len(),
    ensures
        product(s.insert(j, x)) == x * product(s),
    decreases j,
{
    let t = s.insert(j, x);
    if j == 0 {
        assert(t.drop_first() =~= s);
    } else {
        assert(t.drop_first() =~= s.drop_first().insert(j - 1, x));
        lemma_product_insert(s.drop_first(), j - 1, x);
        let p = product(s.drop_first());
        assert(s[0] * (x * p) == x * (s[0] * p)) by (nonlinear_arith);
    }
}

proof fn lemma_same_lists_enumeration(s: Seq<CandidateList>, t: Seq<CandidateList>)
    requires
        same_lists(s, t),
    ensures
        lengths_of(s) == lengths_of(t),
        enumeration(s) == enumeration(t),
{
    assert(lengths_of(s) =~= lengths_of(t));
    assert forall|k: int| 0 <= k < enumeration(s).len() implies enumeration(s)[k] == enumeration(t)[k] by {
        let d = decode(k as nat, lengths_of(s));
        assert(combination_at(s, d) =~= combination_at(t, d));
    }
    assert(enumeration(s) =~= enumeration(t));
}

/// A copy of a candidate list.
fn copy_list(l: &CandidateList) -> (r: CandidateList)
    ensures
        r.package@ == l.package@,
        r.versions@ == l.versions@,
{
    let mut versions: Vec<String> = Vec::new();
    let mut i: usize = 0;
    while i < l.versions.len()
        invariant
            0 <= i <= l.versions@.len(),
            versions@ == l.versions@.take(i as int),
        decreases l.versions@.len() - i,
    {
        versions.push(l.versions[i].clone());
        i = i + 1;
        assert(versions@ =~= l.versions@.take(i as int));
    }
    assert(l.versions@.take(i as int) =~= l.versions@);
    CandidateList { package: l.package.clone(), versions }
}

/// The lists in ascending name order; lists with equal names keep their
/// relative order.
fn sort_by_name(c: &Vec<CandidateList>) -> (r: Vec<CandidateList>)
    requires
        enumerable(c@),
    ensures
        enumerable(r@),
        names_ascending(r@),
        exists|perm: Seq<int>| is_permutation(perm, c@.len()) && #[trigger] same_lists(r@, permuted(c@, perm)),
{
    let mut out: Vec<CandidateList> = Vec::new();
    let ghost mut perm: Seq<int> = Seq::empty();
    let mut i: usize = 0;
    assert(lengths_of(out@) =~= lengths_of(c@).take(0));
    while i < c.len()
        invariant
            0 <= i <= c@.len(),
            enumerable(c@),
            perm.len() == out@.len() == i,
            perm.no_duplicates(),
            forall|k: int| 0 <= k < perm.len() ==> 0 <= #[trigger] perm[k] < i,
            same_lists(out@, permuted(c@, perm)),
            names_ascending(out@),
            lengths_of(out@).len() == i,
            product(lengths_of(out@)) == product(lengths_of(c@).take(i as int)),
        decreases c@.len() - i,
    {
        let x = copy_list(&c[i]);
        let mut j: usize = 0;
        while j < out.len() && !name_less(&x.package, &out[j].package)
            invariant
                0 <= j <= out@.len(),
                forall|k: int| 0 <= k < j ==> !name_lt(x.package@, (#[trigger] out@[k]).package@),
            decreases out@.len() - j,
        {
            j = j + 1;
        }
        let ghost old_out = out@;
        let ghost xv = x;
        out.insert(j, x);
        proof {
            old_out.insert_ensures(j as int, xv);
            let old_perm = perm;
            perm = perm.insert(j as int, i as int);
            old_perm.insert_ensures(j as int, i as int);
            assert(out@ == old_out.insert(j as int, xv));
            assert forall|a: int, b: int| 0 <= a < b < perm.len() implies perm[a] != perm[b] by {
                let a0 = if a < j { a } else { a - 1 };
                let b0 = if b < j { b } else { b - 1 };
                if a != j as int && b != j as int {
                    assert(perm[a] == old_perm[a0] && perm[b] == old_perm[b0]);
                }
            }
            assert forall|k: int| 0 <= k < perm.len() implies 0 <= #[trigger] perm[k] < i + 1 by {
                if k < j {
                    assert(perm[k] == old_perm[k]);
                } else if k > j {
                    assert(perm[k] == old_perm[k - 1]);
                }
            }
            assert forall|k: int| 0 <= k < out@.len() implies (#[trigger] out@[k]).package@ == permuted(
                c@,
                perm,
            )[k].package@ && out@[k].versions@ == permuted(c@, perm)[k].versions@ by {
                if k < j {
                    assert(out@[k] == old_out[k] && perm[k] == old_perm[k]);
                } else if k > j {
                    assert(out@[k] == old_out[k - 1] && perm[k] == old_perm[k - 1]);
                }
            }
            assert forall|a: int, b: int| 0 <= a < b < out@.len() implies name_le(
                out@[a].package@,
                out@[b].package@,
            ) by {
                let xn = xv.package@;
                if a == j as int {
                    let y = old_out[b - 1].package@;
                    let z = old_out[j as int].package@;
                    assert(out@[b] == old_out[b - 1]);
                    assert(name_lt(xn, z));
                    if name_lt(y, xn) {
                        lemma_name_lt_trans(y, xn, z);
                        lemma_name_lt_irreflexive(y);
                        if b - 1 > j {
                            assert(name_le(z, y));
                        }
                    }
                } else if b == j as int {
                    assert(out@[a] == old_out[a]);
                    assert(!name_lt(xn, old_out[a].package@));
                } else {
                    let a0 = if a < j { a } else { a - 1 };
                    let b0 = if b < j { b } else { b - 1 };
                    assert(out@[a] == old_out[a0] && out@[b] == old_out[b0]);
                }
            }
            lemma_product_insert(lengths_of(old_out), j as int, xv.versions@.len() as usize);
            assert(lengths_of(out@) =~= lengths_of(old_out).insert(j as int, xv.versions@.len() as usize));
            lemma_product_insert(lengths_of(c@).take(i as int), i as int, xv.versions@.len() as usize);
            assert(lengths_of(c@).take(i + 1) =~= lengths_of(c@).take(i as int).insert(
                i as int,
                xv.versions@.len() as usize,
            ));
        }
        i = i + 1;
    }
    proof {
        assert(lengths_of(c@).take(i as int) =~= lengths_of(c@));
        assert forall|k: int| 0 <= k < out@.len() implies #[trigger] out@[k].versions@.len() > 0
            && out@[k].versions@.len() <= usize::MAX by {
            assert(out@[k].versions@ == c@[perm[k]].versions@);
        }
        assert(is_permutation(perm, c@.len()));
        assert(same_lists(out@, permuted(c@, perm)));
    }
    out
}

/// Every combination of the candidate lists, each exactly once, in
/// mixed-radix order over the lists taken in ascending name order, the
/// first of them varying fastest.
pub fn generate_combinations(candidates: &Vec<CandidateList>) -> (combos: Vec<Vec<Assignment>>)
    requires
        enumerable(candidates@),
    ensures
        name_ordered_enumeration(candidates@, combinations_view(combos@)),
        combos@.len() >= 1,
{
    let sorted = sort_by_name(candidates);
    let combos = enumerate_in_order(&sorted);
    proof {
        let perm = choose|perm: Seq<int>| is_permutation(perm, candidates@.len()) && #[trigger] same_lists(
            sorted@,
            permuted(candidates@, perm),
        );
        let pc = permuted(candidates@, perm);
        lemma_same_lists_enumeration(sorted@, pc);
        assert forall|a: int, b: int| 0 <= a < b < pc.len() implies name_le(pc[a].package@, pc[b].package@) by {
            assert(sorted@[a].package@ == pc[a].package@ && sorted@[b].package@ == pc[b].package@);
        }
        assert(names_ascending(pc));
        assert forall|k: int| 0 <= k < lengths_of(sorted@).len() implies lengths_of(sorted@)[k] > 0 by {
            assert(sorted@[k].versions@.len() > 0);
        }
        lemma_product_positive(lengths_of(sorted@));
        assert(combinations_view(combos@).len() == combos@.len());
    }
    combos
}

/// Enumeration law: the number of combinations is the product of the list
/// lengths; distinct positions choose distinct candidate indices, and so
/// distinct combinations when no list repeats a version; and the versions
/// chosen for each package across all combinations are exactly that
/// package's candidate list.
pub proof fn lemma_enumeration_exact(c: Seq<CandidateList>)
    requires
        enumerable(c),
    ensures
        enumeration(c).len() == product(lengths_of(c)),
        forall|k1: int, k2: int|
            0 <= k1 < k2 < enumeration(c).len() ==> #[trigger] decode(k1 as nat, lengths_of(c))
                != #[trigger] decode(k2 as nat, lengths_of(c)),
        (forall|i: int| 0 <= i < c.len() ==> versions_view(#[trigger] c[i]).no_duplicates())
            ==> forall|k1: int, k2: int|
            0 <= k1 < k2 < enumeration(c).len() ==> #[trigger] enumeration(c)[k1]
                != #[trigger] enumeration(c)[k2],
        forall|k: int, i: int|
            0 <= k < enumeration(c).len() && 0 <= i < c.len() ==> (#[trigger] enumeration(c)[k][i]).0
                == c[i].package@ && versions_view(c[i]).contains(enumeration(c)[k][i].1),
        forall|i: int, j: int|
            0 <= i < c.len() && 0 <= j < c[i].versions@.len() ==> {
                let k = #[trigger] position_choosing(c, i, j);
                0 <= k < enumeration(c).len() && enumeration(c)[k][i].1 == versions_view(c[i])[j]
            },
{
    let lens = lengths_of(c);
    let e = enumeration(c);
    assert(all_positive(lens));
    lemma_product_positive(lens);
    assert forall|k1: int, k2: int| 0 <= k1 < k2 < e.len() implies #[trigger] decode(k1 as nat, lens)
        != #[trigger] decode(k2 as nat, lens) by {
        lemma_value_decode(k1 as nat, lens);
        lemma_value_decode(k2 as nat, lens);
    }
    if forall|i: int| 0 <= i < c.len() ==> versions_view(#[trigger] c[i]).no_duplicates() {
        assert forall|k1: int, k2: int| 0 <= k1 < k2 < e.len() implies #[trigger] e[k1] != #[trigger] e[k2] by {
            let d1 = decode(k1 as nat, lens);
            let d2 = decode(k2 as nat, lens);
            lemma_value_decode(k1 as nat, lens);
            lemma_value_decode(k2 as nat, lens);
            if e[k1] == e[k2] {
                assert forall|i: int| 0 <= i < c.len() implies d1[i] == d2[i] by {
                    let vs = versions_view(c[i]);
                    assert(e[k1][i] == e[k2][i]);
                    assert(vs[d1[i] as int] == vs[d2[i] as int]);
                }
                assert(d1 =~= d2);
            }
        }
    }
    assert forall|k: int, i: int| 0 <= k < e.len() && 0 <= i < c.len() implies (#[trigger] e[k][i]).0
        == c[i].package@ && versions_view(c[i]).contains(e[k][i].1) by {
        lemma_value_decode(k as nat, lens);
        let j = decode(k as nat, lens)[i] as int;
        assert(versions_view(c[i])[j] == e[k][i].1);
    }
    assert forall|i: int, j: int| 0 <= i < c.len() && 0 <= j < c[i].versions@.len() implies {
        let k = #[trigger] position_choosing(c, i, j);
        0 <= k < e.len() && e[k][i].1 == versions_view(c[i])[j]
    } by {
        let d = Seq::new(c.len(), |x: int| if x == i { j as usize } else { 0usize });
        assert(in_bounds(d, lens));
        lemma_value_bounds(d, lens);
        lemma_decode_value(d, lens);
        let k = counter_value(d, lens);
        assert(e[k][i].1 == versions_view(c[i])[j]);
    }
}

} // verus!
