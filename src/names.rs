//! Names of builder states.
use vstd::prelude::*;

verus! {

/// The upper-case form of `c`, which may be more than one character.
pub uninterp spec fn upper_of(c: char) -> Seq<char>;

/// Relies on `char::to_uppercase`: the upper-case mapping of one character,
/// collected into a string.
#[verifier::external_body]
fn upper(c: char) -> (r: String)
    ensures
        r@ == upper_of(c),
{
    c.to_uppercase().collect()
}

/// The upper-case form of the ASCII lower-case letter `c`.
pub open spec fn ascii_upper(c: char) -> char {
    ((c as u8) - 32) as u8 as char
}

/// The upper-case form of `c`: an ASCII lower-case letter becomes the ASCII
/// upper-case one, anything else follows the Unicode mapping.
pub open spec fn upper_text(c: char) -> Seq<char> {
    if 'a' <= c <= 'z' {
        seq![ascii_upper(c)]
    } else {
        upper_of(c)
    }
}

/// The text that the `i`-th character of the resource name `n` becomes: a
/// separator `_` is spelt out as `Underscore`, and the first character and each
/// one after a separator are upper-cased.
pub open spec fn piece(n: Seq<char>, i: int) -> Seq<char> {
    if n[i] == '_' {
        "Underscore"@
    } else if i == 0 || n[i - 1] == '_' {
        upper_text(n[i])
    } else {
        seq![n[i]]
    }
}

/// The word for the first `k` characters of the resource name `n`.
pub open spec fn word_upto(n: Seq<char>, k: int) -> Seq<char>
    decreases k,
{
    if k <= 0 {
        Seq::empty()
    } else {
        word_upto(n, k - 1) + piece(n, k - 1)
    }
}

/// The word that the resource name `n` contributes to a state's name.
pub open spec fn word(n: Seq<char>) -> Seq<char> {
    word_upto(n, n.len() as int)
}

/// Whether `n` is a name of lower-case ASCII letters and digits that starts
/// with a letter: a name whose word has its one upper-case letter in front.
pub open spec fn plain_name(n: Seq<char>) -> bool {
    &&& n.len() > 0
    &&& 'a' <= n[0] <= 'z'
    &&& forall|i: int| 1 <= i < n.len() ==> ('a' <= #[trigger] n[i] <= 'z' || '0' <= n[i] <= '9')
}

/// Whether `c` is an ASCII upper-case letter.
pub open spec fn is_upper(c: char) -> bool {
    'A' <= c <= 'Z'
}

proof fn lemma_word_upto_plain(n: Seq<char>, k: int)
    requires
        plain_name(n),
        1 <= k <= n.len(),
    ensures
        word_upto(n, k) == seq![ascii_upper(n[0])] + n.subrange(1, k),
    decreases k,
{
    if k == 1 {
        assert(word_upto(n, 0) == Seq::<char>::empty());
        assert(word_upto(n, 1) =~= seq![ascii_upper(n[0])] + n.subrange(1, 1));
    } else {
        lemma_word_upto_plain(n, k - 1);
        assert(n[k - 2] != '_');
        assert(n[k - 1] != '_');
        assert(piece(n, k - 1) == seq![n[k - 1]]);
        assert(word_upto(n, k) =~= seq![ascii_upper(n[0])] + n.subrange(1, k));
    }
}

/// The word of a plain name: its upper-cased first letter, then the rest of it
/// unchanged; so only its first character is upper case.
pub proof fn lemma_plain_word(n: Seq<char>)
    requires
        plain_name(n),
    ensures
        word(n).len() == n.len(),
        is_upper(word(n)[0]),
        forall|i: int| 1 <= i < n.len() ==> !is_upper(#[trigger] word(n)[i]) && word(n)[i] == n[i],
        word(n)[0] == ascii_upper(n[0]),
{
    lemma_word_upto_plain(n, n.len() as int);
}

/// Appends the word of the resource name `n` to `out`.
pub fn push_word(out: &mut String, n: &str)
    ensures
        final(out)@ == old(out)@ + word(n@),
{
    let len = n.unicode_len();
    let mut i: usize = 0;
    let mut prev: char = ' ';
    while i < len
        invariant
            len == n@.len(),
            i <= len,
            i > 0 ==> prev == n@[i - 1],
            out@ == old(out)@ + word_upto(n@, i as int),
        decreases len - i,
    {
        let c = n.get_char(i);
        if c == '_' {
            out.append("Underscore");
        } else if i == 0 || prev == '_' {
            if 'a' <= c && c <= 'z' {
                let u: char = ((c as u8) - 32) as char;
                crate::attribute::push_char(out, u);
                assert(out@ =~= old(out)@ + word_upto(n@, i as int) + seq![u]);
            } else {
                let u = upper(c);
                out.append(u.as_str());
            }
        } else {
            crate::attribute::push_char(out, c);
            assert(out@ =~= old(out)@ + word_upto(n@, i as int) + seq![c]);
        }
        proof {
            assert(word_upto(n@, i + 1) == word_upto(n@, i as int) + piece(n@, i as int));
        }
        assert(out@ =~= old(out)@ + word_upto(n@, i + 1));
        prev = c;
        i = i + 1;
    }
}

} // verus!
