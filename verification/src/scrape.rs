//! Deriving a display title from a saved page's markdown: the first line
//! with visible content, with a heading's marker characters stripped.

use vstd::prelude::*;

use crate::strutil::{chars_to_string, str_chars, trim_str, trimmed_of};

verus! {

/// The position of the first newline, or a negative value when there is
/// none.
pub open spec fn first_nl(p: Seq<char>) -> int
    decreases p.len(),
{
    if p.len() == 0 {
        -1
    } else if p[0] == '\n' {
        0
    } else {
        let r = first_nl(p.drop_first());
        if r < 0 {
            -1
        } else {
            r + 1
        }
    }
}

/// The text split at newlines; a trailing newline yields a final empty
/// line, which the title scan skips anyway.
pub open spec fn split_lines(p: Seq<char>) -> Seq<Seq<char>>
    decreases p.len(),
{
    let k = first_nl(p);
    if 0 <= k < p.len() {
        seq![p.subrange(0, k)] + split_lines(p.subrange(k + 1, p.len() as int))
    } else {
        seq![p]
    }
}

/// A line's leading heading markers removed.
pub open spec fn strip_hashes(t: Seq<char>) -> Seq<char>
    decreases t.len(),
{
    if t.len() > 0 && t[0] == '#' {
        strip_hashes(t.drop_first())
    } else {
        t
    }
}

/// The title the lines yield: the first line whose trimmed form is
/// non-empty; a heading contributes its text after the markers, and a
/// heading with no text is skipped like a blank line.
pub open spec fn title_of_lines(ls: Seq<Seq<char>>) -> Option<Seq<char>>
    decreases ls.len(),
{
    if ls.len() == 0 {
        Option::None
    } else {
        let t = trimmed_of(ls[0]);
        if t.len() == 0 {
            title_of_lines(ls.drop_first())
        } else if t[0] == '#' {
            let h = trimmed_of(strip_hashes(t));
            if h.len() > 0 {
                Option::Some(h)
            } else {
                title_of_lines(ls.drop_first())
            }
        } else {
            Option::Some(t)
        }
    }
}

/// The title of a markdown text.
pub open spec fn title_of(markdown: Seq<char>) -> Option<Seq<char>> {
    title_of_lines(split_lines(markdown))
}

/// The first newline at or after `lo` is at `j`; `j` at the end means
/// there is none.
proof fn lemma_first_nl_at(p: Seq<char>, j: int)
    requires
        0 <= j <= p.len(),
        forall|t: int| 0 <= t < j ==> p[t] != '\n',
        j < p.len() ==> p[j] == '\n',
    ensures
        first_nl(p) == if j == p.len() {
            -1int
        } else {
            j
        },
    decreases p.len(),
{
    if p.len() > 0 && p[0] != '\n' {
        assert(j > 0);
        let rest = p.drop_first();
        assert forall|t: int| 0 <= t < j - 1 implies rest[t] != '\n' by {
            assert(rest[t] == p[t + 1]);
        }
        lemma_first_nl_at(rest, j - 1);
    }
}

/// Scans one line of the text starting at `lo`, returning its end (the
/// newline position, or the end of the text).
fn line_end(cs: &Vec<char>, lo: usize) -> (j: usize)
    requires
        lo <= cs@.len(),
    ensures
        lo <= j <= cs@.len(),
        forall|t: int| lo <= t < j ==> cs@[t] != '\n',
        (j as int) < cs@.len() ==> cs@[j as int] == '\n',
{
    let mut j: usize = lo;
    while j < cs.len()
        invariant
            lo <= j <= cs@.len(),
            forall|t: int| lo <= t < j ==> cs@[t] != '\n',
        decreases cs@.len() - j,
    {
        if cs[j] == '\n' {
            return j;
        }
        j = j + 1;
    }
    j
}

/// Copies `cs[lo..hi]` into a string.
fn slice_to_string(cs: &Vec<char>, lo: usize, hi: usize) -> (r: String)
    requires
        lo <= hi <= cs@.len(),
    ensures
        r@ == cs@.subrange(lo as int, hi as int),
{
    let mut out: Vec<char> = Vec::new();
    let mut k: usize = lo;
    while k < hi
        invariant
            lo <= k <= hi <= cs@.len(),
            out@ == cs@.subrange(lo as int, k as int),
        decreases hi - k,
    {
        out.push(cs[k]);
        proof {
            assert(out@ =~= cs@.subrange(lo as int, k + 1));
        }
        k = k + 1;
    }
    chars_to_string(&out)
}

/// Extracts the display title of a markdown text: the first line with
/// visible content, a heading stripped of its markers; `None` when every
/// line is blank or an empty heading.
pub fn extract_title(markdown: &str) -> (r: Option<String>)
    ensures
        match (r, title_of(markdown@)) {
            (Option::Some(s), Option::Some(v)) => s@ == v,
            (Option::None, Option::None) => true,
            _ => false,
        },
{
    let cs = str_chars(markdown);
    let total = cs.len();
    let mut p: usize = 0;
    let mut done = false;
    proof {
        assert(cs@.subrange(0, cs@.len() as int) =~= cs@);
    }
    while !done
        invariant
            cs@ == markdown@,
            total == cs@.len(),
            p <= total,
            !done ==> title_of(markdown@) == title_of_lines(
                split_lines(cs@.subrange(p as int, total as int)),
            ),
            done ==> title_of(markdown@) is None,
        decreases total - p, (if done {
            0int
        } else {
            1int
        }),
    {
        let ghost suffix = cs@.subrange(p as int, total as int);
        let j = line_end(&cs, p);
        proof {
            assert forall|t: int| 0 <= t < (j - p) implies suffix[t] != '\n' by {
                assert(suffix[t] == cs@[p + t]);
            }
            if (j as int) < total as int {
                assert(suffix[j - p] == cs@[j as int]);
            }
            lemma_first_nl_at(suffix, j - p);
        }
        let line = slice_to_string(&cs, p, j);
        proof {
            if (j as int) == total as int {
                assert(first_nl(suffix) == -1);
                assert(split_lines(suffix) =~= seq![suffix]);
                assert(line@ =~= suffix);
            } else {
                assert(first_nl(suffix) == j - p);
                assert(suffix.subrange(0, j - p) =~= line@);
                assert(suffix.subrange(j - p + 1, suffix.len() as int) =~= cs@.subrange(
                    j + 1,
                    total as int,
                ));
            }
        }
        let trimmed: String = trim_str(line.as_str()).to_owned();
        let ghost t = trimmed_of(line@);
        if !trimmed.as_str().is_empty() {
            let tc = str_chars(trimmed.as_str());
            if tc[0] == '#' {
                let mut h0: usize = 0;
                proof {
                    assert(t.subrange(0, t.len() as int) =~= t);
                }
                while h0 < tc.len() && tc[h0] == '#'
                    invariant
                        tc@ == t,
                        h0 <= tc@.len(),
                        strip_hashes(t) == strip_hashes(t.subrange(h0 as int, t.len() as int)),
                    decreases tc@.len() - h0,
                {
                    proof {
                        let cur = t.subrange(h0 as int, t.len() as int);
                        assert(cur[0] == t[h0 as int]);
                        assert(cur.drop_first() =~= t.subrange(h0 + 1, t.len() as int));
                    }
                    h0 = h0 + 1;
                }
                proof {
                    let cur = t.subrange(h0 as int, t.len() as int);
                    if cur.len() > 0 {
                        assert(cur[0] == t[h0 as int]);
                    }
                    assert(strip_hashes(cur) == cur);
                    assert(strip_hashes(t) =~= cur);
                }
                let tail = slice_of_chars(&tc, h0);
                let heading: String = trim_str(tail.as_str()).to_owned();
                if !heading.as_str().is_empty() {
                    proof {
                        assert(title_of(markdown@) matches Some(v) && v == heading@);
                    }
                    return Some(heading);
                }
            } else {
                proof {
                    assert(title_of(markdown@) matches Some(v) && v == t);
                }
                return Some(trimmed);
            }
        }
        if j == total {
            done = true;
            p = total;
            proof {
                assert(split_lines(suffix).drop_first() =~= Seq::<Seq<char>>::empty());
                assert(title_of_lines(Seq::<Seq<char>>::empty()) is None);
            }
        } else {
            p = j + 1;
            proof {
                assert(split_lines(suffix).drop_first() =~= split_lines(
                    cs@.subrange(p as int, total as int),
                ));
            }
        }
    }
    None
}

/// Copies the characters from `lo` on into a string.
fn slice_of_chars(tc: &Vec<char>, lo: usize) -> (r: String)
    requires
        lo <= tc@.len(),
    ensures
        r@ == tc@.subrange(lo as int, tc@.len() as int),
{
    let mut out: Vec<char> = Vec::new();
    let mut k: usize = lo;
    while k < tc.len()
        invariant
            lo <= k <= tc@.len(),
            out@ == tc@.subrange(lo as int, k as int),
        decreases tc@.len() - k,
    {
        out.push(tc[k]);
        proof {
            assert(out@ =~= tc@.subrange(lo as int, k + 1));
        }
        k = k + 1;
    }
    chars_to_string(&out)
}

} // verus!
