//! Choosing a directory: the dialog itself is outside the engine, behind a
//! trait the application implements; the engine derives the display name
//! and the shortened path from whatever the dialog returned.

use vstd::prelude::*;

use crate::model::PickedDirectory;
use crate::strutil::{chars_to_string, pretty_directory_path, pretty_of, str_chars};

verus! {

/// A source of one picked directory path; the application implements it
/// over its dialog, tests implement it over fixed values.  Nothing is
/// assumed about what it returns.
pub trait DirectoryPicker {
    /// Asks for a directory; `None` when the user cancelled.
    fn pick_folder(&self) -> Option<String>;
}

/// The index one past the last separator, or zero when there is none.
pub open spec fn after_last_slash(p: Seq<char>) -> int
    decreases p.len(),
{
    if p.len() == 0 {
        0
    } else if p[p.len() - 1] == '/' {
        p.len() as int
    } else {
        after_last_slash(p.drop_last())
    }
}

/// The display name of a path: what follows the last separator, or the
/// whole path when that would be empty.
pub open spec fn base_name_of(p: Seq<char>) -> Seq<char> {
    let tail = p.subrange(after_last_slash(p), p.len() as int);
    if tail.len() == 0 {
        p
    } else {
        tail
    }
}

/// The display name of a path.
pub fn base_name(path: &str) -> (r: String)
    ensures
        r@ == base_name_of(path@),
{
    let cs = str_chars(path);
    let mut cut: usize = cs.len();
    proof {
        assert(path@.subrange(0, path@.len() as int) =~= path@);
    }
    while cut > 0
        invariant
            cs@ == path@,
            cut <= cs@.len(),
            after_last_slash(path@) == after_last_slash(path@.subrange(0, cut as int)),
        ensures
            cs@ == path@,
            cut <= cs@.len(),
            after_last_slash(path@) == cut as int,
        decreases cut,
    {
        proof {
            assert(path@.subrange(0, cut as int).drop_last() =~= path@.subrange(
                0,
                cut as int - 1,
            ));
        }
        if cs[cut - 1] == '/' {
            proof {
                assert(path@.subrange(0, cut as int)[cut as int - 1] == path@[cut as int - 1]);
                assert(after_last_slash(path@.subrange(0, cut as int)) == cut as int);
            }
            break ;
        }
        cut = cut - 1;
    }
    proof {
        assert(after_last_slash(path@) == cut as int);
    }
    if cut == cs.len() {
        return path.to_owned();
    }
    let mut out: Vec<char> = Vec::new();
    let mut k: usize = cut;
    while k < cs.len()
        invariant
            cs@ == path@,
            cut <= k <= cs@.len(),
            out@ == path@.subrange(cut as int, k as int),
        decreases cs@.len() - k,
    {
        out.push(cs[k]);
        proof {
            assert(out@ =~= path@.subrange(cut as int, k + 1));
        }
        k = k + 1;
    }
    proof {
        assert(out@ =~= path@.subrange(after_last_slash(path@), path@.len() as int));
        assert(out@.len() > 0);
    }
    chars_to_string(&out)
}

/// Asks the picker for a directory and derives the record the UI shows:
/// whatever path came back, the name is what follows its last separator
/// and the pretty path is its home-shortened form.
pub fn pick_directory_with_picker<P: DirectoryPicker>(picker: &P, home: Option<&String>) -> (r:
    Option<PickedDirectory>)
    ensures
        r matches Some(d) ==> d.name@ == base_name_of(d.path@) && d.pretty_path@ == pretty_of(
            d.path@,
            match home {
                Option::Some(h) => Option::Some(h@),
                Option::None => Option::None,
            },
        ),
{
    match picker.pick_folder() {
        Some(path) => {
            let name = base_name(path.as_str());
            let pretty = pretty_directory_path(path.as_str(), home);
            Some(PickedDirectory { name, path, pretty_path: pretty })
        },
        None => None,
    }
}

} // verus!
