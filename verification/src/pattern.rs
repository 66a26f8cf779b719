//! Shell-style patterns. Compiling and matching are done by the `glob` crate;
//! this module states what the rest of the library relies on.

use vstd::prelude::*;
use vstd::string::StringExecFns;

verus! {

/// The error that `glob::Pattern::new` gives for a pattern text, as its
/// position and message, or `None` where the text compiles.
pub uninterp spec fn glob_syntax_error(pattern: Seq<char>) -> Option<(usize, Seq<char>)>;

/// Whether `glob::Pattern::matches` finds that a name matches the pattern
/// compiled from a text.
pub uninterp spec fn glob_matches(pattern: Seq<char>, name: Seq<char>) -> bool;

/// Whether a text compiles to a pattern.
pub open spec fn glob_compiles(pattern: Seq<char>) -> bool {
    glob_syntax_error(pattern) is None
}

/// A text without `[` and without two `*` in a row.
pub open spec fn is_simple_pattern(pattern: Seq<char>) -> bool {
    forall|i: int|
        0 <= i < pattern.len() ==> {
            &&& #[trigger] pattern[i] != '['
            &&& !(pattern[i] == '*' && i + 1 < pattern.len() && pattern[i + 1] == '*')
        }
}

/// Calls `glob::Pattern::new` and keeps only the error, as its position and
/// message.
///
/// Trusted: the result is the one named by [`glob_syntax_error`]. The source
/// rejects a text in three places only: more than two `*` in a row, `**` that
/// is not a whole path component, and `[` without a matching `]`; so a text
/// without `[` and without two adjacent `*` always compiles.
#[verifier::external_body]
fn syntax_error_of(pattern: &str) -> (error: Option<(usize, String)>)
    ensures
        match error {
            Some((position, message)) => glob_syntax_error(pattern@) == Some(
                (position, message@),
            ),
            None => glob_syntax_error(pattern@) is None,
        },
        is_simple_pattern(pattern@) ==> error is None,
{
    match glob::Pattern::new(pattern) {
        Ok(_) => None,
        Err(e) => Some((e.pos, e.msg.to_string())),
    }
}

/// Compiles `pattern` with `glob::Pattern::new` and calls
/// `glob::Pattern::matches` on `name`.
///
/// Trusted: for a text that compiles, the result is the one named by
/// [`glob_matches`]. Matching uses the crate's default options only, so it
/// depends on the two texts alone.
#[verifier::external_body]
fn compiled_matches(pattern: &str, name: &str) -> (matched: bool)
    requires
        glob_compiles(pattern@),
    ensures
        matched == glob_matches(pattern@, name@),
{
    match glob::Pattern::new(pattern) {
        Ok(compiled) => compiled.matches(name),
        Err(_) => false,
    }
}

/// Why a text is no pattern.
#[derive(Debug)]
pub struct PatternSyntaxError {
    /// Roughly the index of the character at which compiling gave up.
    pub position: usize,
    pub message: String,
}

/// A shell-style pattern that is known to compile.
#[derive(Debug)]
pub struct GlobPattern {
    text: String,
}

impl View for GlobPattern {
    type V = Seq<char>;

    closed spec fn view(&self) -> Seq<char> {
        self.text@
    }
}

impl Clone for GlobPattern {
    fn clone(&self) -> (res: Self)
        ensures
            res@ == self@,
    {
        proof {
            use_type_invariant(self);
        }
        GlobPattern { text: self.text.clone() }
    }
}

impl GlobPattern {
    #[verifier::type_invariant]
    spec fn compiles(self) -> bool {
        glob_compiles(self.text@)
    }

    /// Compiles `text`. Fails exactly when `glob` rejects the text, with the
    /// position and message that it gives.
    pub fn new(text: &str) -> (result: Result<GlobPattern, PatternSyntaxError>)
        ensures
            match result {
                Ok(pattern) => glob_compiles(text@) && pattern@ == text@,
                Err(e) => glob_syntax_error(text@) == Some((e.position, e.message@)),
            },
            is_simple_pattern(text@) ==> result is Ok,
    {
        match syntax_error_of(text) {
            Some((position, message)) => Err(PatternSyntaxError { position, message }),
            None => Ok(GlobPattern { text: String::from_str(text) }),
        }
    }

    /// The text that the pattern was compiled from.
    pub fn as_str(&self) -> (text: &str)
        ensures
            text@ == self@,
    {
        self.text.as_str()
    }

    /// Whether `name` matches the pattern.
    pub fn matches(&self, name: &str) -> (matched: bool)
        ensures
            matched == glob_matches(self@, name@),
    {
        proof {
            use_type_invariant(self);
        }
        compiled_matches(self.text.as_str(), name)
    }
}

} // verus!
