//! Configuration: how much context to keep and how changed context lines are shown.
use vstd::prelude::*;
use vstd::string::StringSliceAdditionalSpecFns;

verus! {

/// How a run of changed atoms is summarised by the character-class renderer.
#[derive(Clone, Copy, PartialEq, Eq, Debug, Structural)]
pub enum CharacterClassExpansion {
    /// One class symbol followed by `+`, absorbing compatible neighbours.
    Narrow,
    /// One class symbol followed by the counts of removed and added bytes.
    Wide,
}

/// How a changed context line (equal under the selector, different in bytes) is shown.
#[derive(Clone, Copy, PartialEq, Eq, Debug, Structural)]
pub enum ContextLineFormat {
    CC(CharacterClassExpansion),
    Wdiff,
    Old,
    New,
}

/// The atom on which the intra-line differ runs.
#[derive(Clone, Copy, PartialEq, Eq, Debug, Structural)]
pub enum ContextLineTokenization {
    Char,
    Word,
}

/// The format that a command-line value names, if any.
pub open spec fn format_of(b: Seq<u8>) -> Option<ContextLineFormat> {
    if b =~= seq![99u8, 99u8] {
        Some(ContextLineFormat::CC(CharacterClassExpansion::Narrow))
    } else if b =~= seq![99u8, 99u8, 119u8, 105u8, 100u8, 101u8] {
        Some(ContextLineFormat::CC(CharacterClassExpansion::Wide))
    } else if b =~= seq![119u8, 100u8, 105u8, 102u8, 102u8] {
        Some(ContextLineFormat::Wdiff)
    } else if b =~= seq![111u8, 108u8, 100u8] {
        Some(ContextLineFormat::Old)
    } else if b =~= seq![110u8, 101u8, 119u8] {
        Some(ContextLineFormat::New)
    } else {
        None
    }
}

fn bytes_are(b: &[u8], lit: &[u8]) -> (r: bool)
    ensures
        r == (b@ =~= lit@),
{
    if b.len() != lit.len() {
        return false;
    }
    let mut i: usize = 0;
    while i < b.len()
        invariant
            b@.len() == lit@.len(),
            0 <= i <= b@.len(),
            b@.subrange(0, i as int) =~= lit@.subrange(0, i as int),
        decreases b@.len() - i,
    {
        if b[i] != lit[i] {
            assert(b@[i as int] != lit@[i as int]);
            return false;
        }
        i = i + 1;
    }
    assert(b@ =~= b@.subrange(0, i as int));
    assert(lit@ =~= lit@.subrange(0, i as int));
    true
}

impl ContextLineFormat {
    /// The values that `new` accepts.
    pub fn allowed_values() -> (r: Vec<&'static str>)
        ensures
            r@.len() == 5,
            r@[0]@ == "cc"@,
            r@[1]@ == "ccwide"@,
            r@[2]@ == "wdiff"@,
            r@[3]@ == "old"@,
            r@[4]@ == "new"@,
    {
        vec!["cc", "ccwide", "wdiff", "old", "new"]
    }

    /// Parses a format name: `cc` (narrow classes), `ccwide`, `wdiff`, `old` or `new`.
    pub fn new(s: &str) -> (r: ContextLineFormat)
        requires
            format_of(s.spec_bytes()).is_some(),
        ensures
            Some(r) == format_of(s.spec_bytes()),
    {
        let b = s.as_bytes();
        if bytes_are(b, &[99u8, 99u8]) {
            ContextLineFormat::CC(CharacterClassExpansion::Narrow)
        } else if bytes_are(b, &[99u8, 99u8, 119u8, 105u8, 100u8, 101u8]) {
            ContextLineFormat::CC(CharacterClassExpansion::Wide)
        } else if bytes_are(b, &[119u8, 100u8, 105u8, 102u8, 102u8]) {
            ContextLineFormat::Wdiff
        } else if bytes_are(b, &[111u8, 108u8, 100u8]) {
            ContextLineFormat::Old
        } else {
            ContextLineFormat::New
        }
    }
}

/// The comparison and rendering options.
#[derive(Clone, Copy, PartialEq, Eq, Debug, Structural)]
pub struct Conf {
    pub debug: bool,
    /// Number of unchanged records kept on each side of a change.
    pub context: usize,
    /// Prefix a changed context line with `!` instead of a space.
    pub mark_changed_context: bool,
    pub context_format: ContextLineFormat,
    pub context_tokenization: ContextLineTokenization,
    /// Show the projected keys instead of the lines themselves.
    pub display_selected: bool,
}

impl Conf {
    /// Three lines of context, wdiff rendering over single bytes, nothing marked.
    pub fn default() -> (r: Conf)
        ensures
            r == (Conf {
                debug: false,
                context: 3,
                mark_changed_context: false,
                context_format: ContextLineFormat::Wdiff,
                context_tokenization: ContextLineTokenization::Char,
                display_selected: false,
            }),
    {
        Conf {
            debug: false,
            context: 3,
            mark_changed_context: false,
            context_format: ContextLineFormat::Wdiff,
            context_tokenization: ContextLineTokenization::Char,
            display_selected: false,
        }
    }
}

} // verus!
