//! The recently-opened-directories list: most recent first, duplicates by
//! path collapse to the front, capped at a fixed length.

use vstd::prelude::*;

use crate::model::PickedDirectory;
use crate::strutil::str_eq;

verus! {

/// How many recent directories are remembered.
pub const MAX_RECENT: usize = 5;

/// The retained entries among the first `k`: those whose path differs
/// from the newly opened one, in order.
pub open spec fn retained_upto(
    list: Seq<PickedDirectory>,
    path: Seq<char>,
    k: int,
) -> Seq<PickedDirectory>
    decreases k,
{
    if k <= 0 {
        Seq::empty()
    } else {
        retained_upto(list, path, k - 1) + (if list[k - 1].path@ == path {
            Seq::empty()
        } else {
            seq![list[k - 1]]
        })
    }
}

/// The updated list: the new entry in front, previous entries with the
/// same path dropped, truncated to the cap.
pub open spec fn updated_recents(
    list: Seq<PickedDirectory>,
    directory: PickedDirectory,
) -> Seq<PickedDirectory> {
    let merged = seq![directory] + retained_upto(list, directory.path@, list.len() as int);
    if merged.len() <= MAX_RECENT {
        merged
    } else {
        merged.subrange(0, MAX_RECENT as int)
    }
}

/// Moves a directory to the front of the recents list, dropping any older
/// entry with the same path and keeping at most the cap.
pub fn update_recent_directories(
    list: Vec<PickedDirectory>,
    directory: PickedDirectory,
) -> (r: Vec<PickedDirectory>)
    ensures
        r@ == updated_recents(list@, directory),
{
    let ghost dirpath = directory.path@;
    let mut out: Vec<PickedDirectory> = Vec::new();
    out.push(directory);
    let ghost dir0 = out@[0];
    let mut k: usize = 0;
    while k < list.len()
        invariant
            k <= list@.len(),
            out@ == seq![dir0] + retained_upto(list@, dirpath, k as int),
            dir0.path@ == dirpath,
        decreases list@.len() - k,
    {
        if !str_eq(list[k].path.as_str(), out[0].path.as_str()) {
            let entry = PickedDirectory {
                name: list[k].name.clone(),
                path: list[k].path.clone(),
                pretty_path: list[k].pretty_path.clone(),
            };
            proof {
                assert(entry == list@[k as int]);
            }
            out.push(entry);
        }
        proof {
            assert(out@ =~= seq![dir0] + retained_upto(list@, dirpath, k + 1));
        }
        k = k + 1;
    }
    if out.len() > MAX_RECENT {
        out.truncate(MAX_RECENT);
    }
    proof {
        assert(out@ =~= updated_recents(list@, dir0));
    }
    out
}

} // verus!
