//! Resource declarations and their classification.
use vstd::prelude::*;

use crate::attribute::{strip_blanks, strip_spaces, strip_text, Attribute, AttributeAugment, ConfigError};
use crate::path::PathAugment;
use crate::{ASYNC, DEFAULT_OUTER_TYPE, EXCLUDE, INCLUDE, INNER_TYPE, LOCK_METHOD, OUTER_TYPE, RESULT};

verus! {

/// One declared resource of an aggregate: its name, its type as written, and
/// its directives in the order they were written.
#[derive(Debug, Clone)]
pub struct Field {
    pub name: String,
    pub ty: String,
    pub attrs: Vec<Attribute>,
}

/// What a resource's acquisition needs, once classified.
#[derive(Debug, Clone)]
pub struct Descriptor {
    pub name: String,
    pub inner_type: String,
    pub lock_method: String,
    pub is_async: bool,
    pub is_result: bool,
}

/// The first capture group of the leftmost match of `pattern` in `text`;
/// `None` where the pattern is invalid, does not match, or has no such group.
pub uninterp spec fn first_capture(pattern: Seq<char>, text: Seq<char>) -> Option<Seq<char>>;

/// Relies on `regex::Regex::new` and `regex::Regex::captures`: the pattern is
/// compiled and the text of group 1 of the leftmost match is returned.
#[verifier::external_body]
fn capture_inner(pattern: &str, text: &str) -> (r: Option<String>)
    ensures
        r is None ==> first_capture(pattern@, text@) is None,
        r is Some ==> first_capture(pattern@, text@) == Some(r->Some_0@),
{
    let re = regex::Regex::new(pattern).ok()?;
    let caps = re.captures(text)?;
    caps.get(1).map(|m| m.as_str().to_string())
}

/// Whether directive `a` is named `d`.
pub open spec fn named(a: Attribute, d: Seq<char>) -> bool {
    a.path.text@ == d
}

/// Whether some directive of `f` is named `d`.
pub open spec fn has_directive(f: Field, d: Seq<char>) -> bool {
    exists|i: int| 0 <= i < f.attrs@.len() && named(#[trigger] f.attrs@[i], d)
}

/// The position of the first directive in `attrs` named `d`.
pub open spec fn first_named(attrs: Seq<Attribute>, d: Seq<char>) -> Option<int>
    decreases attrs.len(),
{
    if attrs.len() == 0 {
        None
    } else {
        match first_named(attrs.drop_last(), d) {
            Some(i) => Some(i),
            None => if named(attrs.last(), d) {
                Some(attrs.len() - 1)
            } else {
                None
            },
        }
    }
}

/// The position of the last directive in `attrs` named `d`.
pub open spec fn last_named(attrs: Seq<Attribute>, d: Seq<char>) -> Option<int>
    decreases attrs.len(),
{
    if attrs.len() == 0 {
        None
    } else if named(attrs.last(), d) {
        Some(attrs.len() - 1)
    } else {
        last_named(attrs.drop_last(), d)
    }
}

/// The value a directive holds: stripped of spaces and quotes, or an error
/// where it has none.
pub open spec fn value_of(a: Attribute) -> Result<Seq<char>, ConfigError> {
    match a.value {
        Some(v) => Ok(strip_blanks(v@)),
        None => Err(ConfigError::MalformedDirective),
    }
}

/// The acquisition expression of `f`.
pub open spec fn lock_method_of(f: Field) -> Result<Seq<char>, ConfigError> {
    match last_named(f.attrs@, LOCK_METHOD@) {
        Some(i) => value_of(f.attrs@[i]),
        None => if has_directive(f, ASYNC@) {
            Ok("lock().await"@)
        } else {
            Ok("lock()"@)
        },
    }
}

/// The wrapper pattern stripped from the declared type of `f`.
pub open spec fn outer_pattern_of(f: Field) -> Result<Seq<char>, ConfigError> {
    match last_named(f.attrs@, OUTER_TYPE@) {
        Some(i) => value_of(f.attrs@[i]),
        None => Ok(DEFAULT_OUTER_TYPE@),
    }
}

/// The value type behind the lock of `f`.
pub open spec fn return_type_of(f: Field) -> Result<Seq<char>, ConfigError> {
    match first_named(f.attrs@, INNER_TYPE@) {
        Some(i) => value_of(f.attrs@[i]),
        None => match outer_pattern_of(f) {
            Err(e) => Err(e),
            Ok(p) => match first_capture(p, strip_spaces(f.ty@)) {
                Some(inner) => Ok(inner),
                None => Err(ConfigError::TypeExtractionError),
            },
        },
    }
}

proof fn lemma_first_named(attrs: Seq<Attribute>, d: Seq<char>, n: int)
    requires
        0 <= n < attrs.len(),
    ensures
        first_named(attrs.subrange(0, n + 1), d) == (match first_named(attrs.subrange(0, n), d) {
            Some(i) => Some(i),
            None => if named(attrs[n], d) {
                Some(n)
            } else {
                None
            },
        }),
{
    assert(attrs.subrange(0, n + 1).drop_last() =~= attrs.subrange(0, n));
}

proof fn lemma_first_named_prefix(attrs: Seq<Attribute>, d: Seq<char>, n: int)
    requires
        0 <= n <= attrs.len(),
        first_named(attrs.subrange(0, n), d) is Some,
    ensures
        first_named(attrs, d) == first_named(attrs.subrange(0, n), d),
    decreases attrs.len(),
{
    if n == attrs.len() {
        assert(attrs.subrange(0, n) =~= attrs);
    } else {
        assert(attrs.drop_last().subrange(0, n) =~= attrs.subrange(0, n));
        lemma_first_named_prefix(attrs.drop_last(), d, n);
    }
}

proof fn lemma_first_named_range(attrs: Seq<Attribute>, d: Seq<char>)
    ensures
        match first_named(attrs, d) {
            Some(i) => 0 <= i < attrs.len() && named(attrs[i], d),
            None => forall|j: int| 0 <= j < attrs.len() ==> !named(#[trigger] attrs[j], d),
        },
    decreases attrs.len(),
{
    if attrs.len() > 0 {
        lemma_first_named_range(attrs.drop_last(), d);
        assert forall|j: int| 0 <= j < attrs.len() - 1 implies attrs.drop_last()[j] == attrs[j] by {}
    }
}

proof fn lemma_last_named_range(attrs: Seq<Attribute>, d: Seq<char>)
    ensures
        match last_named(attrs, d) {
            Some(i) => 0 <= i < attrs.len() && named(attrs[i], d),
            None => forall|j: int| 0 <= j < attrs.len() ==> !named(#[trigger] attrs[j], d),
        },
    decreases attrs.len(),
{
    if attrs.len() > 0 {
        lemma_last_named_range(attrs.drop_last(), d);
        assert forall|j: int| 0 <= j < attrs.len() - 1 implies attrs.drop_last()[j] == attrs[j] by {}
    }
}

/// Finds the first directive of `attrs` named `d`.
fn find_first(attrs: &Vec<Attribute>, d: &str) -> (r: Option<usize>)
    ensures
        match r {
            Some(i) => first_named(attrs@, d@) == Some(i as int) && i < attrs@.len(),
            None => first_named(attrs@, d@) is None,
        },
{
    proof {
        lemma_first_named_range(attrs@, d@);
    }
    let mut i: usize = 0;
    while i < attrs.len()
        invariant
            i <= attrs@.len(),
            first_named(attrs@.subrange(0, i as int), d@) is None,
        decreases attrs@.len() - i,
    {
        proof {
            lemma_first_named(attrs@, d@, i as int);
        }
        if attrs[i].str_equals(d) {
            proof {
                lemma_first_named_prefix(attrs@, d@, i as int + 1);
            }
            return Some(i);
        }
        i = i + 1;
    }
    assert(attrs@.subrange(0, i as int) =~= attrs@);
    None
}

/// Finds the last directive of `attrs` named `d`.
fn find_last(attrs: &Vec<Attribute>, d: &str) -> (r: Option<usize>)
    ensures
        match r {
            Some(i) => last_named(attrs@, d@) == Some(i as int) && i < attrs@.len(),
            None => last_named(attrs@, d@) is None,
        },
{
    proof {
        lemma_last_named_range(attrs@, d@);
    }
    let mut i: usize = attrs.len();
    assert(attrs@.subrange(0, i as int) =~= attrs@);
    while i > 0
        invariant
            i <= attrs@.len(),
            last_named(attrs@, d@) is Some ==> last_named(attrs@, d@)->Some_0 < attrs@.len(),
            last_named(attrs@, d@) == last_named(attrs@.subrange(0, i as int), d@),
        decreases i,
    {
        let sub = Ghost(attrs@.subrange(0, i as int));
        assert(sub@.drop_last() =~= attrs@.subrange(0, i - 1));
        if attrs[i - 1].str_equals(d) {
            return Some(i - 1);
        }
        i = i - 1;
    }
    None
}

/// Classification of one resource from its directives.
pub trait FieldAugment {
    /// The declaration classified.
    spec fn declaration(&self) -> Field;

    /// Whether acquisition of this resource suspends.
    fn is_async(&self) -> (r: bool)
        ensures
            r == has_directive(self.declaration(), ASYNC@),
    ;

    /// Whether acquisition of this resource may fail.
    fn is_result(&self) -> (r: bool)
        ensures
            r == has_directive(self.declaration(), RESULT@),
    ;

    /// Whether this resource is selected explicitly.
    fn is_included(&self) -> (r: bool)
        ensures
            r == has_directive(self.declaration(), INCLUDE@),
    ;

    /// Whether this resource is left out.
    fn is_excluded(&self) -> (r: bool)
        ensures
            r == has_directive(self.declaration(), EXCLUDE@),
    ;

    /// How a guard of this resource is obtained: the last `lock_method`
    /// directive, else `lock()`, followed by `.await` for a suspending one.
    fn lock_method(&self) -> (r: Result<String, ConfigError>)
        ensures
            match r {
                Ok(s) => lock_method_of(self.declaration()) == Ok::<Seq<char>, ConfigError>(s@),
                Err(e) => lock_method_of(self.declaration()) == Err::<Seq<char>, ConfigError>(e),
            },
    ;

    /// The value type the caller reads and writes through the lock: the first
    /// `inner_type` directive verbatim, else what the wrapper pattern captures
    /// from the declared type.
    fn return_type(&self) -> (r: Result<String, ConfigError>)
        ensures
            match r {
                Ok(s) => return_type_of(self.declaration()) == Ok::<Seq<char>, ConfigError>(s@),
                Err(e) => return_type_of(self.declaration()) == Err::<Seq<char>, ConfigError>(e),
            },
    ;
}

impl FieldAugment for Field {
    open spec fn declaration(&self) -> Field {
        *self
    }

    fn is_async(&self) -> (r: bool) {
        self.has_directive(ASYNC)
    }

    fn is_result(&self) -> (r: bool) {
        self.has_directive(RESULT)
    }

    fn is_included(&self) -> (r: bool) {
        self.has_directive(INCLUDE)
    }

    fn is_excluded(&self) -> (r: bool) {
        self.has_directive(EXCLUDE)
    }

    fn lock_method(&self) -> (r: Result<String, ConfigError>) {
        match find_last(&self.attrs, LOCK_METHOD) {
            Some(i) => self.attrs[i].extract_val(),
            None => if self.is_async() {
                Ok(String::from_str("lock().await"))
            } else {
                Ok(String::from_str("lock()"))
            },
        }
    }

    fn return_type(&self) -> (r: Result<String, ConfigError>) {
        if let Some(i) = find_first(&self.attrs, INNER_TYPE) {
            return self.attrs[i].extract_val();
        }
        let pattern = match find_last(&self.attrs, OUTER_TYPE) {
            Some(i) => self.attrs[i].extract_val()?,
            None => String::from_str(DEFAULT_OUTER_TYPE),
        };
        let text = strip_text(self.ty.as_str(), false);
        match capture_inner(pattern.as_str(), text.as_str()) {
            Some(inner) => Ok(inner),
            None => Err(ConfigError::TypeExtractionError),
        }
    }
}

impl Field {
    /// Whether `d` is among the directives.
    pub fn has_directive(&self, d: &str) -> (r: bool)
        ensures
            r == has_directive(*self, d@),
    {
        let r = find_first(&self.attrs, d);
        proof {
            lemma_first_named_range(self.attrs@, d@);
        }
        r.is_some()
    }

    /// Classifies this resource.
    pub fn describe(&self) -> (r: Result<Descriptor, ConfigError>)
        ensures
            match r {
                Ok(d) => d.name@ == self.name@ && return_type_of(*self) == Ok::<Seq<char>, ConfigError>(d.inner_type@)
                    && lock_method_of(*self) == Ok::<Seq<char>, ConfigError>(d.lock_method@)
                    && d.is_async == has_directive(*self, ASYNC@)
                    && d.is_result == has_directive(*self, RESULT@),
                Err(e) => return_type_of(*self) == Err::<Seq<char>, ConfigError>(e)
                    || (return_type_of(*self) is Ok && lock_method_of(*self) == Err::<Seq<char>, ConfigError>(e)),
            },
    {
        let inner_type = self.return_type()?;
        let lock_method = self.lock_method()?;
        Ok(Descriptor {
            name: self.name.clone(),
            inner_type,
            lock_method,
            is_async: self.is_async(),
            is_result: self.is_result(),
        })
    }
}

/// Whether some resource of `fs` is selected explicitly.
pub open spec fn any_included(fs: Seq<Field>) -> bool {
    exists|i: int| 0 <= i < fs.len() && has_directive(#[trigger] fs[i], INCLUDE@)
}

/// Whether the `i`-th resource of `fs` takes part in the builder: where some
/// resource is selected explicitly, exactly the selected ones do; otherwise
/// all but those left out.
pub open spec fn participates(fs: Seq<Field>, i: int) -> bool {
    if any_included(fs) {
        has_directive(fs[i], INCLUDE@)
    } else {
        !has_directive(fs[i], EXCLUDE@)
    }
}

/// The positions among the first `n` of `fs` that take part, in order.
pub open spec fn participants_upto(fs: Seq<Field>, n: int) -> Seq<usize>
    decreases n,
{
    if n <= 0 {
        Seq::empty()
    } else if participates(fs, n - 1) {
        participants_upto(fs, n - 1).push((n - 1) as usize)
    } else {
        participants_upto(fs, n - 1)
    }
}

/// The positions of `fs` that take part, in declaration order.
pub open spec fn participants(fs: Seq<Field>) -> Seq<usize> {
    participants_upto(fs, fs.len() as int)
}

/// The positions of the resources that take part in the builder, in
/// declaration order.
pub fn participating(fields: &Vec<Field>) -> (r: Vec<usize>)
    ensures
        r@ == participants(fields@),
{
    let mut any = false;
    let mut i: usize = 0;
    while i < fields.len()
        invariant
            i <= fields@.len(),
            any == exists|m: int| 0 <= m < i && has_directive(#[trigger] fields@[m], INCLUDE@),
        decreases fields@.len() - i,
    {
        if fields[i].is_included() {
            any = true;
        }
        i = i + 1;
    }
    let mut r: Vec<usize> = Vec::new();
    let mut i: usize = 0;
    while i < fields.len()
        invariant
            i <= fields@.len(),
            any == any_included(fields@),
            r@ == participants_upto(fields@, i as int),
        decreases fields@.len() - i,
    {
        let takes_part = if any {
            fields[i].is_included()
        } else {
            !fields[i].is_excluded()
        };
        if takes_part {
            r.push(i);
        }
        i = i + 1;
    }
    r
}

proof fn lemma_participants_agree(a: Seq<Field>, b: Seq<Field>, n: int)
    requires
        0 <= n <= a.len(),
        a.len() == b.len(),
        forall|i: int| 0 <= i < a.len() ==> participates(a, i) == participates(b, i),
    ensures
        participants_upto(a, n) == participants_upto(b, n),
    decreases n,
{
    if n > 0 {
        lemma_participants_agree(a, b, n - 1);
    }
}

/// Leaving resources out and selecting the others explicitly give the same
/// participating resources, hence the same root state and the same lattice.
pub proof fn lemma_include_exclude_duality(by_exclusion: Seq<Field>, by_inclusion: Seq<Field>)
    requires
        by_exclusion.len() == by_inclusion.len(),
        !any_included(by_exclusion),
        any_included(by_inclusion),
        forall|i: int|
            0 <= i < by_exclusion.len() ==> has_directive(#[trigger] by_inclusion[i], INCLUDE@)
                == !has_directive(by_exclusion[i], EXCLUDE@),
    ensures
        participants(by_exclusion) == participants(by_inclusion),
{
    lemma_participants_agree(by_exclusion, by_inclusion, by_exclusion.len() as int);
}

/// With an `inner_type` directive the declared type plays no part: two
/// resources with the same directives classify to the same value type,
/// whatever types they were declared with, and that type is the directive's
/// value.
pub proof fn lemma_inner_type_override(f: Field, g: Field)
    requires
        f.attrs@ == g.attrs@,
        has_directive(f, INNER_TYPE@),
    ensures
        return_type_of(f) == return_type_of(g),
        return_type_of(f) == value_of(f.attrs@[first_named(f.attrs@, INNER_TYPE@)->Some_0]),
{
    lemma_first_named_range(f.attrs@, INNER_TYPE@);
}

} // verus!
