//! Validated entry names.
//!
//! A [`Name`] is an identifier that is safe to use as a filesystem path
//! component: it is non-empty, contains no path separators, reserved
//! punctuation, whitespace or control characters, and does not begin with
//! `'.'`, so it can never collide with the hidden version subtree.

use vstd::prelude::*;

verus! {

/// True if `c` may appear in a [`Name`].
///
/// Control characters, whitespace, the path separator and shell/URI
/// metacharacters are all refused.
pub open spec fn valid_name_char(c: char) -> bool {
    &&& c as u32 >= 0x21
    &&& c != '/'
    &&& c != '~'
    &&& c != '$'
    &&& c != '`'
    &&& c != '&'
    &&& c != '|'
    &&& c != '='
    &&& c != '^'
    &&& c != '{'
    &&& c != '}'
    &&& c != '<'
    &&& c != '>'
    &&& c != '\''
    &&& c != '"'
    &&& c != '?'
    &&& c != ':'
    &&& c != '@'
    &&& c != '#'
    &&& c != '('
    &&& c != ')'
}

/// True if the character sequence `s` is a valid entry name: non-empty, made
/// of valid characters only, and not beginning with `'.'` (hidden names are
/// reserved for the version subtree).
pub open spec fn valid_name(s: Seq<char>) -> bool {
    &&& s.len() > 0
    &&& s[0] != '.'
    &&& forall|i: int| 0 <= i < s.len() ==> valid_name_char(#[trigger] s[i])
}

/// True if `s` names a hidden filesystem entry (one beginning with `'.'`),
/// which is never exposed as a user entry.
pub open spec fn hidden_name(s: Seq<char>) -> bool {
    s.len() > 0 && s[0] == '.'
}

/// A validated name of an entry in a transactional directory.
#[derive(Debug)]
pub struct Name {
    inner: String,
}

impl View for Name {
    type V = Seq<char>;

    closed spec fn view(&self) -> Seq<char> {
        self.inner@
    }
}

fn valid_name_char_exec(c: char) -> (r: bool)
    ensures
        r == valid_name_char(c),
{
    c as u32 >= 0x21 && c != '/' && c != '~' && c != '$' && c != '`' && c != '&' && c != '|'
        && c != '=' && c != '^' && c != '{' && c != '}' && c != '<' && c != '>' && c != '\''
        && c != '"' && c != '?' && c != ':' && c != '@' && c != '#' && c != '(' && c != ')'
}

/// Decide whether `s` is a valid entry name.
pub fn is_valid_name(s: &str) -> (r: bool)
    ensures
        r == valid_name(s@),
{
    let len = s.unicode_len();
    if len == 0 {
        return false;
    }
    if s.get_char(0) == '.' {
        return false;
    }
    let mut i: usize = 0;
    while i < len
        invariant
            0 < len == s@.len(),
            i <= len,
            s@[0] != '.',
            forall|j: int| 0 <= j < i ==> valid_name_char(#[trigger] s@[j]),
        decreases len - i,
    {
        let c = s.get_char(i);
        if !valid_name_char_exec(c) {
            return false;
        }
        i = i + 1;
    }
    true
}

impl Name {
    /// Validate `s` and wrap it as a [`Name`].
    ///
    /// Returns `Some` exactly when `s` is a valid entry name.
    pub fn new(s: String) -> (r: Option<Name>)
        ensures
            match r {
                Some(n) => valid_name(s@) && n@ == s@,
                None => !valid_name(s@),
            },
    {
        if is_valid_name(s.as_str()) {
            Some(Name { inner: s })
        } else {
            None
        }
    }

    /// Borrow the string underlying this [`Name`].
    pub fn as_str(&self) -> (r: &str)
        ensures
            r@ == self@,
    {
        self.inner.as_str()
    }

    /// Well-formedness: the wrapped string is a valid entry name.
    pub open spec fn wf(&self) -> bool {
        valid_name(self@)
    }

    /// Compare two names for equality without consuming either.
    pub fn eq_name(&self, other: &Name) -> (r: bool)
        ensures
            r == (self@ == other@),
    {
        self.inner.eq(&other.inner)
    }

    /// Copy this [`Name`].
    pub fn duplicate(&self) -> (r: Name)
        ensures
            r@ == self@,
    {
        Name { inner: self.inner.clone() }
    }
}

} // verus!
