//! String primitives the engine is built on: trusted bridges to the
//! standard library's Unicode operations (lowercasing, trimming, substring
//! search), a verified string equality test, byte-wise lexicographic
//! ordering, and hexadecimal rendering of 64-bit values.

use vstd::prelude::*;
use vstd::string::StringSliceAdditionalSpecFns;

verus! {

/// What `str::to_lowercase` returns; it depends on the characters alone.
pub uninterp spec fn lower_of(s: Seq<char>) -> Seq<char>;

/// What `str::trim` returns; it depends on the characters alone.
pub uninterp spec fn trimmed_of(s: Seq<char>) -> Seq<char>;

/// Relies on str::to_lowercase: the result is a function of the input
/// characters, and an empty string stays empty.
#[verifier::external_body]
pub fn lower_str(s: &str) -> (r: String)
    ensures
        r@ == lower_of(s@),
        s@.len() == 0 ==> r@.len() == 0,
{
    s.to_lowercase()
}

/// Relies on str::trim: the result is a function of the input characters,
/// and an empty string stays empty.
#[verifier::external_body]
pub fn trim_str(s: &str) -> (r: &str)
    ensures
        r@ == trimmed_of(s@),
        s@.len() == 0 ==> r@.len() == 0,
{
    s.trim()
}

/// `needle` occurs in `hay` starting at position `p`.
pub open spec fn is_substring_at(hay: Seq<char>, needle: Seq<char>, p: int) -> bool {
    0 <= p && p + needle.len() <= hay.len() && hay.subrange(p, p + needle.len()) == needle
}

/// `needle` occurs somewhere in `hay`.
pub open spec fn spec_contains(hay: Seq<char>, needle: Seq<char>) -> bool {
    exists|p: int| is_substring_at(hay, needle, p)
}

/// Relies on str::contains with a `&str` pattern: true exactly when the
/// needle's characters occur contiguously in the hay.
#[verifier::external_body]
pub fn contains_sub(hay: &str, needle: &str) -> (r: bool)
    ensures
        r == spec_contains(hay@, needle@),
{
    hay.contains(needle)
}

/// What encoding a text with the `cl100k_base` tokenizer yields; the count
/// depends on the text alone (the token table ships inside the library).
pub uninterp spec fn token_count_of(text: Seq<char>) -> usize;

/// Relies on tiktoken_rs::cl100k_base and CoreBPE::encode: both are
/// deterministic functions of the text (the rank table is a fixed,
/// embedded asset), so the count they produce has a name.  A tokenizer
/// construction failure or an encode error (the tokenizer's regex gives
/// up on pathological inputs) is counted as zero, as the callers expect,
/// so the call returns on every string.
#[verifier::external_body]
pub fn count_tokens_for_text(text: &str) -> (r: usize)
    ensures
        r == token_count_of(text@),
{
    if let Ok(enc) = tiktoken_rs::cl100k_base() {
        let allowed = enc.special_tokens();
        match enc.encode(text, &allowed) {
            Ok((tokens, _)) => tokens.len(),
            Err(_) => 0,
        }
    } else {
        0
    }
}

/// String equality by content, through the specified `String` comparison.
pub fn str_eq(a: &str, b: &str) -> (r: bool)
    ensures
        r == (a@ == b@),
{
    let sa: String = a.to_owned();
    let sb: String = b.to_owned();
    sa == sb
}

/// The lowercase hexadecimal digit for a value below 16.
pub open spec fn hex_digit(d: int) -> char {
    if d == 0 {
        '0'
    } else if d == 1 {
        '1'
    } else if d == 2 {
        '2'
    } else if d == 3 {
        '3'
    } else if d == 4 {
        '4'
    } else if d == 5 {
        '5'
    } else if d == 6 {
        '6'
    } else if d == 7 {
        '7'
    } else if d == 8 {
        '8'
    } else if d == 9 {
        '9'
    } else if d == 10 {
        'a'
    } else if d == 11 {
        'b'
    } else if d == 12 {
        'c'
    } else if d == 13 {
        'd'
    } else if d == 14 {
        'e'
    } else {
        'f'
    }
}

/// The last `digits` hexadecimal digits of `v`, most significant first.
pub open spec fn hex_of_rec(v: nat, digits: nat) -> Seq<char>
    decreases digits,
{
    if digits == 0 {
        Seq::empty()
    } else {
        hex_of_rec(v / 16, (digits - 1) as nat).push(hex_digit((v % 16) as int))
    }
}

/// A `u64` as exactly 16 lowercase hexadecimal digits, zero padded.
pub open spec fn hex16_of(v: u64) -> Seq<char> {
    hex_of_rec(v as nat, 16)
}

/// Relies on the standard formatter: `{:016x}` prints a `u64` as exactly 16
/// zero-padded lowercase hexadecimal digits, most significant first.
#[verifier::external_body]
pub fn format_hex16(v: u64) -> (r: String)
    ensures
        r@ == hex16_of(v),
{
    format!("{:016x}", v)
}

/// Relies on str::chars: the iterator yields exactly the string's
/// characters in order.
#[verifier::external_body]
pub fn str_chars(s: &str) -> (r: Vec<char>)
    ensures
        r@ == s@,
{
    s.chars().collect()
}

/// Relies on String's FromIterator over characters: collecting characters
/// builds the string with exactly those characters.
#[verifier::external_body]
pub fn chars_to_string(v: &Vec<char>) -> (r: String)
    ensures
        r@ == v@,
{
    v.iter().collect()
}

/// Whether `hc` is a prefix of `pc`.
pub fn chars_prefix(pc: &Vec<char>, hc: &Vec<char>) -> (r: bool)
    ensures
        r == (pc@.len() >= hc@.len() && pc@.subrange(0, hc@.len() as int) == hc@),
{
    if pc.len() < hc.len() {
        return false;
    }
    let mut k: usize = 0;
    while k < hc.len()
        invariant
            k <= hc@.len() <= pc@.len(),
            pc@.subrange(0, k as int) == hc@.subrange(0, k as int),
        decreases hc@.len() - k,
    {
        if pc[k] != hc[k] {
            proof {
                assert(pc@.subrange(0, hc@.len() as int)[k as int] != hc@[k as int]);
            }
            return false;
        }
        proof {
            assert(pc@.subrange(0, k + 1) =~= pc@.subrange(0, k as int).push(pc@[k as int]));
            assert(hc@.subrange(0, k + 1) =~= hc@.subrange(0, k as int).push(hc@[k as int]));
        }
        k = k + 1;
    }
    proof {
        assert(pc@.subrange(0, hc@.len() as int) =~= hc@.subrange(0, hc@.len() as int));
        assert(hc@.subrange(0, hc@.len() as int) =~= hc@);
    }
    true
}

/// The home-shortened form of a path: the home prefix replaced by `~` when
/// the path is the home directory or sits beneath it.
pub open spec fn pretty_of(p: Seq<char>, home: Option<Seq<char>>) -> Seq<char> {
    match home {
        Option::Some(h) => if p == h {
            seq!['~']
        } else if p.len() > h.len() && p.subrange(0, h.len() as int) == h && p[h.len() as int]
            == '/' {
            seq!['~'] + p.subrange(h.len() as int, p.len() as int)
        } else {
            p
        },
        Option::None => p,
    }
}

/// Shortens a path for display: the home directory becomes `~`, paths under
/// it keep their tail, anything else is returned unchanged.
pub fn pretty_directory_path(path: &str, home: Option<&String>) -> (r: String)
    ensures
        r@ == pretty_of(
            path@,
            match home {
                Option::Some(h) => Option::Some(h@),
                Option::None => Option::None,
            },
        ),
{
    let h = match home {
        Some(h) => h,
        None => {
            return path.to_owned();
        },
    };
    let pc = str_chars(path);
    let hc = str_chars(h.as_str());
    if !chars_prefix(&pc, &hc) {
        proof {
            assert(path@ != h@) by {
                if path@ == h@ {
                    assert(path@.subrange(0, h@.len() as int) =~= h@);
                }
            }
        }
        return path.to_owned();
    }
    if pc.len() == hc.len() {
        proof {
            assert(path@.subrange(0, h@.len() as int) =~= path@);
            assert(path@ =~= h@);
        }
        let tilde: String = String::from_str("~");
        proof {
            reveal_strlit("~");
            assert(tilde@ =~= seq!['~']);
        }
        return tilde;
    }
    if pc[hc.len()] == '/' {
        let mut out: Vec<char> = Vec::new();
        out.push('~');
        let mut k: usize = hc.len();
        while k < pc.len()
            invariant
                hc@.len() <= k <= pc@.len(),
                pc@ == path@,
                out@ == seq!['~'] + pc@.subrange(hc@.len() as int, k as int),
            decreases pc@.len() - k,
        {
            out.push(pc[k]);
            proof {
                assert(out@ =~= seq!['~'] + pc@.subrange(hc@.len() as int, k + 1));
            }
            k = k + 1;
        }
        proof {
            assert(out@ =~= seq!['~'] + path@.subrange(hc@.len() as int, path@.len() as int));
        }
        return chars_to_string(&out);
    }
    path.to_owned()
}

/// Byte-wise lexicographic order: the order `str::cmp` documents.
pub open spec fn bytes_le(a: Seq<u8>, b: Seq<u8>) -> bool
    decreases a.len(),
{
    if a.len() == 0 {
        true
    } else if b.len() == 0 {
        false
    } else if a[0] < b[0] {
        true
    } else if a[0] > b[0] {
        false
    } else {
        bytes_le(a.subrange(1, a.len() as int), b.subrange(1, b.len() as int))
    }
}

/// Byte-wise lexicographic comparison of two strings, the basis for the
/// engine's deterministic orderings.
pub fn str_le(a: &str, b: &str) -> (r: bool)
    ensures
        r == bytes_le(a.spec_bytes(), b.spec_bytes()),
{
    let ab = a.as_bytes();
    let bb = b.as_bytes();
    let mut i: usize = 0;
    proof {
        assert(ab@.subrange(0, ab@.len() as int) =~= ab@);
        assert(bb@.subrange(0, bb@.len() as int) =~= bb@);
        assert(ab@.subrange(0, 0) =~= bb@.subrange(0, 0));
    }
    loop
        invariant
            i <= ab@.len(),
            i <= bb@.len(),
            ab@ == a.spec_bytes(),
            bb@ == b.spec_bytes(),
            ab@.subrange(0, i as int) == bb@.subrange(0, i as int),
            bytes_le(a.spec_bytes(), b.spec_bytes()) == bytes_le(
                ab@.subrange(i as int, ab@.len() as int),
                bb@.subrange(i as int, bb@.len() as int),
            ),
        decreases ab@.len() - i,
    {
        if i >= ab.len() {
            assert(bytes_le(ab@.subrange(i as int, ab@.len() as int), bb@.subrange(i as int, bb@.len() as int)));
            return true;
        }
        if i >= bb.len() {
            assert(ab@.subrange(i as int, ab@.len() as int).len() > 0);
            assert(!bytes_le(ab@.subrange(i as int, ab@.len() as int), bb@.subrange(i as int, bb@.len() as int)));
            return false;
        }
        let ca = ab[i];
        let cb = bb[i];
        if ca < cb {
            assert(bytes_le(ab@.subrange(i as int, ab@.len() as int), bb@.subrange(i as int, bb@.len() as int)));
            return true;
        }
        if ca > cb {
            assert(!bytes_le(ab@.subrange(i as int, ab@.len() as int), bb@.subrange(i as int, bb@.len() as int)));
            return false;
        }
        proof {
            let sa = ab@.subrange(i as int, ab@.len() as int);
            let sb = bb@.subrange(i as int, bb@.len() as int);
            assert(sa[0] == sb[0]);
            assert(sa.subrange(1, sa.len() as int) == ab@.subrange(i + 1, ab@.len() as int));
            assert(sb.subrange(1, sb.len() as int) == bb@.subrange(i + 1, bb@.len() as int));
            assert(ab@.subrange(0, i + 1) == bb@.subrange(0, i + 1)) by {
                assert(ab@.subrange(0, i + 1) =~= ab@.subrange(0, i as int).push(ab@[i as int]));
                assert(bb@.subrange(0, i + 1) =~= bb@.subrange(0, i as int).push(bb@[i as int]));
            }
        }
        i = i + 1;
    }
}

} // verus!
