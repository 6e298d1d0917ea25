//! The file-name test of the search for files by extension: a file is kept
//! when its name ends in the extension and is longer than it.

use vstd::prelude::*;
use vstd::string::StringSliceAdditionalSpecFns;

verus! {

/// Whether the file name `name` ends in `ext` and is longer than it, both
/// taken as bytes.
pub open spec fn ends_with_extension(name: Seq<u8>, ext: Seq<u8>) -> bool {
    name.len() > ext.len() && name.subrange(name.len() - ext.len(), name.len() as int) == ext
}

/// A name ends in an extension exactly when it is some non-empty stem
/// followed by the extension: the extension must stand at the very end.
pub proof fn lemma_extension_is_suffix(name: Seq<u8>, ext: Seq<u8>)
    ensures
        ends_with_extension(name, ext) <==> exists|stem: Seq<u8>|
            stem.len() > 0 && name == #[trigger] (stem + ext),
{
    if ends_with_extension(name, ext) {
        let stem = name.subrange(0, name.len() - ext.len());
        assert(name =~= stem + ext);
    }
    assert forall|stem: Seq<u8>| stem.len() > 0 && name == #[trigger] (stem + ext) implies ends_with_extension(
        name,
        ext,
    ) by {
        assert(name.subrange(name.len() - ext.len(), name.len() as int) =~= ext);
    }
}

/// Whether the file name `name` (its bytes) ends in the extension `ext` and
/// is longer than it.
pub fn has_extension(name: &[u8], ext: &str) -> (r: bool)
    ensures
        r == ends_with_extension(name@, ext.spec_bytes()),
{
    let e = ext.as_bytes();
    if name.len() <= e.len() {
        return false;
    }
    let offset = name.len() - e.len();
    let mut k: usize = 0;
    while k < e.len()
        invariant
            offset + e@.len() == name@.len(),
            e@.len() == e.len(),
            name@.len() == name.len(),
            e@ == ext.spec_bytes(),
            k <= e@.len(),
            forall|j: int| 0 <= j < k ==> name@[offset + j] == e@[j],
        decreases e@.len() - k,
    {
        if name[offset + k] != e[k] {
            assert(name@.subrange(offset as int, name@.len() as int)[k as int] != e@[k as int]);
            return false;
        }
        k += 1;
    }
    assert(name@.subrange(offset as int, name@.len() as int) =~= e@);
    true
}

/// What a walk of a directory tree does with an entry.
#[derive(Clone, Copy, Debug, PartialEq, Eq, Structural)]
pub enum WalkAction {
    /// Walk the entries of this directory.
    Descend,
    /// Keep this file.
    Keep,
    /// Pass over this entry.
    Skip,
}

/// The walk's decision for an entry: a directory is walked into; a file
/// whose name (its bytes) ends in `ext` and is longer than it is kept;
/// anything else is passed over. (`is_file` is not consulted for a directory.)
pub fn classify_entry(is_dir: bool, is_file: bool, name: &[u8], ext: &str) -> (a: WalkAction)
    ensures
        a == (if is_dir {
            WalkAction::Descend
        } else if is_file && ends_with_extension(name@, ext.spec_bytes()) {
            WalkAction::Keep
        } else {
            WalkAction::Skip
        }),
{
    if is_dir {
        WalkAction::Descend
    } else if is_file && has_extension(name, ext) {
        WalkAction::Keep
    } else {
        WalkAction::Skip
    }
}

} // verus!
