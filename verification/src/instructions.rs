//! Instruction entries: the user-supplied and stored instruction records
//! that the clipboard assembly formats into sections.

use vstd::prelude::*;

use crate::strutil::{chars_to_string, str_chars};

verus! {

/// Anything with a display name and a body that the clipboard assembly can
/// format.  Implementations state exactly which characters they expose.
pub trait InstructionEntry {
    /// The characters the name accessor yields.
    spec fn spec_name(&self) -> Seq<char>;

    /// The characters the content accessor yields.
    spec fn spec_content(&self) -> Seq<char>;

    /// The entry's display name.
    fn name(&self) -> (r: &str)
        ensures
            r@ == self.spec_name(),
    ;

    /// The entry's body.
    fn content(&self) -> (r: &str)
        ensures
            r@ == self.spec_content(),
    ;
}

/// A user-supplied instruction, passed along with a clipboard request.
pub struct Instruction {
    pub name: String,
    pub content: String,
}

impl InstructionEntry for Instruction {
    open spec fn spec_name(&self) -> Seq<char> {
        self.name@
    }

    open spec fn spec_content(&self) -> Seq<char> {
        self.content@
    }

    fn name(&self) -> (r: &str) {
        self.name.as_str()
    }

    fn content(&self) -> (r: &str) {
        self.content.as_str()
    }
}

/// A stored instruction, persisted per root directory.
pub struct SavedInstruction {
    pub id: String,
    pub name: String,
    pub content: String,
    pub token_count: Option<usize>,
    pub added_at: Option<u64>,
    pub updated_at: Option<u64>,
}

impl InstructionEntry for SavedInstruction {
    open spec fn spec_name(&self) -> Seq<char> {
        self.name@
    }

    open spec fn spec_content(&self) -> Seq<char> {
        self.content@
    }

    fn name(&self) -> (r: &str) {
        self.name.as_str()
    }

    fn content(&self) -> (r: &str) {
        self.content.as_str()
    }
}

/// Whether stored instruction bodies are delivered whole or shortened for
/// listings.
pub enum ContentLengthMode {
    Full,
    Truncated,
}

/// How many characters a truncated listing keeps.
pub const TRUNCATED_CONTENT_CHARS: usize = 256;

/// The delivered form of a stored body under a length mode: whole, or the
/// first characters up to the listing limit.
pub open spec fn content_under_mode(c: Seq<char>, mode: ContentLengthMode) -> Seq<char> {
    match mode {
        ContentLengthMode::Full => c,
        ContentLengthMode::Truncated => if c.len() <= TRUNCATED_CONTENT_CHARS {
            c
        } else {
            c.subrange(0, TRUNCATED_CONTENT_CHARS as int)
        },
    }
}

/// Applies a length mode to an instruction body.
pub fn truncate_content(content: &str, mode: &ContentLengthMode) -> (r: String)
    ensures
        r@ == content_under_mode(content@, *mode),
{
    match mode {
        ContentLengthMode::Full => content.to_owned(),
        ContentLengthMode::Truncated => {
            let cs = str_chars(content);
            if cs.len() <= TRUNCATED_CONTENT_CHARS {
                proof {
                    assert(content_under_mode(content@, ContentLengthMode::Truncated)
                        == content@);
                }
                content.to_owned()
            } else {
                let mut out: Vec<char> = Vec::new();
                let mut k: usize = 0;
                while k < TRUNCATED_CONTENT_CHARS
                    invariant
                        cs@ == content@,
                        TRUNCATED_CONTENT_CHARS < cs@.len(),
                        k <= TRUNCATED_CONTENT_CHARS,
                        out@ == content@.subrange(0, k as int),
                    decreases TRUNCATED_CONTENT_CHARS - k,
                {
                    out.push(cs[k]);
                    proof {
                        assert(out@ =~= content@.subrange(0, k + 1));
                    }
                    k = k + 1;
                }
                chars_to_string(&out)
            }
        },
    }
}

} // verus!
