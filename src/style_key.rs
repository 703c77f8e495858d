//! Style selector identifiers: a non-empty string that starts with an
//! alphabetic character and goes on with alphanumerics and dashes.

use vstd::prelude::*;
use vstd::string::StrSliceExecFns;

verus! {

/// What `char::is_alphabetic` answers for a character (Unicode `Alphabetic`).
pub uninterp spec fn alphabetic(c: char) -> bool;

/// What `char::is_alphanumeric` answers for a character (Unicode
/// `Alphabetic` or `Numeric`).
pub uninterp spec fn alphanumeric(c: char) -> bool;

/// Relies on `char::is_alphabetic`, which depends on the character alone.
#[verifier::external_body]
fn char_is_alphabetic(c: char) -> (r: bool)
    ensures
        r == alphabetic(c),
{
    c.is_alphabetic()
}

/// Relies on `char::is_alphanumeric`, which depends on the character alone.
#[verifier::external_body]
fn char_is_alphanumeric(c: char) -> (r: bool)
    ensures
        r == alphanumeric(c),
{
    c.is_alphanumeric()
}

/// May `c` stand after the first character of a style key?
pub open spec fn is_tail_char(c: char) -> bool {
    alphanumeric(c) || c == '-'
}

/// The first position after the head that holds a character no style key
/// may hold there, if any.
pub open spec fn has_bad_tail(s: Seq<char>) -> bool {
    exists|i: int| 1 <= i < s.len() && !is_tail_char(#[trigger] s[i])
}

/// Is `s` a valid style key?
pub open spec fn valid_style_key(s: Seq<char>) -> bool {
    &&& s.len() > 0
    &&& alphabetic(s[0])
    &&& !has_bad_tail(s)
}

/// A valid style selector, such as `root` or `button-primary`.
#[derive(Clone, PartialEq, Eq, PartialOrd, Ord, Hash, Debug)]
pub struct StyleKey(String);

impl View for StyleKey {
    type V = Seq<char>;

    closed spec fn view(&self) -> Seq<char> {
        self.0@
    }
}

/// Message for an empty key.
pub const EMPTY_KEY: &'static str = "style keys cannot be empty";

/// Message for a key whose first character is not alphabetic.
pub const BAD_HEAD: &'static str = "style keys must start with an alphabetic character";

/// Message for a key holding a character other than an alphanumeric or a dash.
pub const BAD_TAIL: &'static str = "style keys can only contain alphanumerics (dash included)";

impl StyleKey {
    /// Checks `id` and wraps it; the error names the first rule it breaks.
    pub fn try_new(id: String) -> (r: Result<StyleKey, &'static str>)
        ensures
            valid_style_key(id@) <==> r is Ok,
            r is Ok ==> r->Ok_0@ == id@,
            id@.len() == 0 ==> r == Err::<StyleKey, &'static str>(EMPTY_KEY),
            id@.len() > 0 && !alphabetic(id@[0]) ==> r == Err::<StyleKey, &'static str>(
                BAD_HEAD,
            ),
            id@.len() > 0 && alphabetic(id@[0]) && has_bad_tail(id@) ==> r == Err::<
                StyleKey,
                &'static str,
            >(BAD_TAIL),
    {
        let s = id.as_str();
        let n = s.unicode_len();
        if n == 0 {
            return Err(EMPTY_KEY);
        }
        if !char_is_alphabetic(s.get_char(0)) {
            return Err(BAD_HEAD);
        }
        let mut i: usize = 1;
        while i < n
            invariant
                1 <= i <= n,
                n == id@.len(),
                s@ == id@,
                alphabetic(id@[0]),
                forall|j: int| 1 <= j < i ==> is_tail_char(#[trigger] id@[j]),
            decreases n - i,
        {
            let c = s.get_char(i);
            if !char_is_alphanumeric(c) && c != '-' {
                return Err(BAD_TAIL);
            }
            i = i + 1;
        }
        Ok(StyleKey(id))
    }

    /// Wraps a key that the caller knows to be valid.
    pub fn new(id: String) -> (r: StyleKey)
        requires
            valid_style_key(id@),
        ensures
            r@ == id@,
    {
        match StyleKey::try_new(id) {
            Ok(k) => k,
            Err(_) => StyleKey(String::new()),
        }
    }

    /// The selector every registered root is styled with.
    pub fn root() -> (r: StyleKey)
        ensures
            r@ == "root"@,
    {
        StyleKey(String::from_str("root"))
    }

    /// A second key with the same text.
    pub fn copy(&self) -> (r: StyleKey)
        ensures
            r@ == self@,
    {
        StyleKey(self.0.clone())
    }

    pub fn as_str(&self) -> (r: &str)
        ensures
            r@ == self@,
    {
        self.0.as_str()
    }
}

} // verus!
