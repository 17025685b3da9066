//! Writing a combination into the manifest text.

use vstd::prelude::*;
use crate::combinations::{Assignment, assignments_view};
use crate::error::ResolveError;

verus! {

/// For a manifest text, a package name and a version: `None` when the text is
/// not a valid document or its `dependencies` entry cannot hold keys,
/// otherwise the document with `dependencies.<name>` set to the version and
/// everything else kept as written.
pub uninterp spec fn manifest_with_dependency(text: Seq<char>, name: Seq<char>, version: Seq<char>) -> Option<Seq<char>>;

/// Relies on parsing a `toml_edit::DocumentMut`, on `Item::get_mut` to reach
/// `dependencies.<name>` (absent when `dependencies` is not a table), on
/// `toml_edit::value` for the new string and on the document's rendering.
#[verifier::external_body]
fn set_dependency(text: &str, name: &str, version: &str) -> (r: Option<String>)
    ensures
        match r {
            Some(t) => manifest_with_dependency(text@, name@, version@) == Some(t@),
            None => manifest_with_dependency(text@, name@, version@) is None,
        },
{
    let mut doc = text.parse::<toml_edit::DocumentMut>().ok()?;
    let slot = doc["dependencies"].get_mut(name)?;
    *slot = toml_edit::value(version);
    Some(doc.to_string())
}

/// The manifest after each assignment is written in turn.
pub open spec fn applied(text: Seq<char>, a: Seq<(Seq<char>, Seq<char>)>) -> Option<Seq<char>>
    decreases a.len(),
{
    if a.len() == 0 {
        Some(text)
    } else {
        match applied(text, a.drop_last()) {
            Some(t) => manifest_with_dependency(t, a.last().0, a.last().1),
            None => None,
        }
    }
}

/// The trial manifest for one combination: the authoritative manifest with
/// each package of the combination pinned to its chosen version.
pub fn apply_combination(manifest: &str, combo: &Vec<Assignment>) -> (r: Result<String, ResolveError>)
    ensures
        match applied(manifest@, assignments_view(combo@)) {
            Some(t) => r is Ok && r->Ok_0@ == t,
            None => r == Err::<String, ResolveError>(ResolveError::ManifestEdit),
        },
{
    let ghost a = assignments_view(combo@);
    let mut text = manifest.to_string();
    let mut i: usize = 0;
    while i < combo.len()
        invariant
            0 <= i <= combo@.len(),
            a == assignments_view(combo@),
            applied(manifest@, a.take(i as int)) == Some(text@),
        decreases combo@.len() - i,
    {
        assert(a.take(i + 1).drop_last() =~= a.take(i as int));
        match set_dependency(text.as_str(), combo[i].package.as_str(), combo[i].version.as_str()) {
            Some(t) => {
                text = t;
            },
            None => {
                proof {
                    lemma_applied_fails(manifest@, a, i as int + 1);
                    assert(a.take(a.len() as int) =~= a);
                }
                return Err(ResolveError::ManifestEdit);
            },
        }
        i = i + 1;
    }
    assert(a.take(a.len() as int) =~= a);
    Ok(text)
}

/// Once a prefix of the assignments fails, so does every longer prefix.
proof fn lemma_applied_fails(text: Seq<char>, a: Seq<(Seq<char>, Seq<char>)>, i: int)
    requires
        0 <= i <= a.len(),
        applied(text, a.take(i)) is None,
    ensures
        applied(text, a) is None,
    decreases a.len() - i,
{
    if i == a.len() {
        assert(a.take(i) =~= a);
    } else {
        assert(a.take(i + 1).drop_last() =~= a.take(i));
        lemma_applied_fails(text, a, i + 1);
    }
}

} // verus!
