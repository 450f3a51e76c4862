//! Directives attached to a resource declaration.
use vstd::prelude::*;

use crate::path::{AttrPath, PathAugment};

verus! {

/// One directive on a resource: a path, and for the `name = "literal"` shape
/// the text of its value as written (quotes included).
#[derive(Debug, Clone)]
pub struct Attribute {
    pub path: AttrPath,
    pub value: Option<String>,
}

/// Why a declaration cannot be turned into a builder.
#[derive(Debug, Clone, Copy, PartialEq, Eq)]
pub enum ConfigError {
    /// A directive that needs a value was written without `= "..."`.
    MalformedDirective,
    /// The declared type does not match the wrapper pattern and no inner
    /// type was given.
    TypeExtractionError,
}

/// The text `s` without its spaces and double quotes.
pub open spec fn strip_blanks(s: Seq<char>) -> Seq<char>
    decreases s.len(),
{
    if s.len() == 0 {
        s
    } else {
        let rest = strip_blanks(s.drop_last());
        let c = s.last();
        if c == ' ' || c == '"' {
            rest
        } else {
            rest.push(c)
        }
    }
}

/// The text `s` without its spaces.
pub open spec fn strip_spaces(s: Seq<char>) -> Seq<char>
    decreases s.len(),
{
    if s.len() == 0 {
        s
    } else {
        let rest = strip_spaces(s.drop_last());
        let c = s.last();
        if c == ' ' {
            rest
        } else {
            rest.push(c)
        }
    }
}

/// Relies on `String::push`: the character is appended at the end.
#[verifier::external_body]
pub(crate) fn push_char(s: &mut String, c: char)
    ensures
        final(s)@ == old(s)@.push(c),
{
    s.push(c)
}

/// Copies `s`, leaving out spaces, and double quotes too where `quotes` holds.
pub fn strip_text(s: &str, quotes: bool) -> (r: String)
    ensures
        quotes ==> r@ == strip_blanks(s@),
        !quotes ==> r@ == strip_spaces(s@),
{
    let n = s.unicode_len();
    let mut out = String::new();
    let mut i: usize = 0;
    while i < n
        invariant
            n == s@.len(),
            i <= n,
            quotes ==> out@ == strip_blanks(s@.subrange(0, i as int)),
            !quotes ==> out@ == strip_spaces(s@.subrange(0, i as int)),
        decreases n - i,
    {
        let c = s.get_char(i);
        proof {
            let p = s@.subrange(0, i as int + 1);
            assert(p.drop_last() =~= s@.subrange(0, i as int));
            assert(p.last() == c);
        }
        if c != ' ' && !(quotes && c == '"') {
            push_char(&mut out, c);
        }
        i = i + 1;
    }
    assert(s@.subrange(0, n as int) =~= s@);
    out
}

pub trait AttributeAugment {
    /// The value of a `name = "literal"` directive, without spaces and quotes.
    fn extract_val(&self) -> (r: Result<String, ConfigError>)
        ensures
            self.value_text() is None ==> r == Err::<String, ConfigError>(
                ConfigError::MalformedDirective,
            ),
            self.value_text() is Some ==> r is Ok && r->Ok_0@ == strip_blanks(
                self.value_text()->Some_0,
            ),
    ;

    /// Whether the directive's path reads exactly as `s`.
    fn str_equals(&self, s: &str) -> (r: bool)
        ensures
            r == (self.name_text() == s@),
    ;

    spec fn value_text(&self) -> Option<Seq<char>>;

    spec fn name_text(&self) -> Seq<char>;
}

impl AttributeAugment for Attribute {
    fn extract_val(&self) -> (r: Result<String, ConfigError>) {
        match &self.value {
            Some(v) => Ok(strip_text(v.as_str(), true)),
            None => Err(ConfigError::MalformedDirective),
        }
    }

    fn str_equals(&self, s: &str) -> (r: bool) {
        self.path.str_equals(s)
    }

    open spec fn value_text(&self) -> Option<Seq<char>> {
        match self.value {
            Some(v) => Some(v@),
            None => None,
        }
    }

    open spec fn name_text(&self) -> Seq<char> {
        self.path.text@
    }
}

} // verus!
