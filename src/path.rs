//! The path of a directive, such as `inner_type` in `#[inner_type = "usize"]`.
use vstd::prelude::*;

verus! {

/// A directive's path, held as the text of its tokens.
#[derive(Debug, Clone)]
pub struct AttrPath {
    pub text: String,
}

pub trait PathAugment {
    /// Whether the path reads exactly as `s`.
    fn str_equals(&self, s: &str) -> (r: bool)
        ensures
            r == (self.path_text() == s@),
    ;

    spec fn path_text(&self) -> Seq<char>;
}

impl PathAugment for AttrPath {
    fn str_equals(&self, s: &str) -> (r: bool) {
        let t: &str = self.text.as_str();
        let n = t.unicode_len();
        let m = s.unicode_len();
        if n != m {
            proof {
                if t@ == s@ {
                    assert(t@.len() == s@.len());
                }
            }
            return false;
        }
        let mut i: usize = 0;
        while i < n
            invariant
                n == t@.len(),
                m == s@.len(),
                n == m,
                i <= n,
                t@ == self.text@,
                forall|j: int| 0 <= j < i ==> t@[j] == s@[j],
            decreases n - i,
        {
            if t.get_char(i) != s.get_char(i) {
                return false;
            }
            i = i + 1;
        }
        assert(t@ =~= s@);
        true
    }

    open spec fn path_text(&self) -> Seq<char> {
        self.text@
    }
}

} // verus!
