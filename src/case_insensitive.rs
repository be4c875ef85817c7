//! Comparison of strings that ignores ASCII case, without copying them.
use vstd::prelude::*;
use vstd::string::StrSliceExecFns;
use vstd::utf8::encode_utf8;
use core::cmp::Ordering;

verus! {

/// `c` with an ASCII capital letter turned into its small one.
pub open spec fn lower(c: char) -> char {
    if 'A' <= c && c <= 'Z' {
        ((c as u32) + 32) as char
    } else {
        c
    }
}

/// The number of UTF-8 bytes of `s`.
pub open spec fn byte_len(s: Seq<char>) -> nat {
    encode_utf8(s).len()
}

/// `a` and `b` have as many bytes, and agree but for ASCII case on every
/// character that both have.
pub open spec fn ci_eq(a: Seq<char>, b: Seq<char>) -> bool {
    &&& byte_len(a) == byte_len(b)
    &&& forall|i: int| 0 <= i < a.len() && i < b.len() ==> lower(#[trigger] a[i]) == lower(b[i])
}

/// The order of `a` and `b` from position `i` on, comparing characters but
/// for ASCII case, as far as both go.
pub open spec fn ci_lex(a: Seq<char>, b: Seq<char>, i: int) -> Ordering
    decreases a.len() - i,
{
    if i < 0 || i >= a.len() || i >= b.len() {
        Ordering::Equal
    } else if lower(a[i]) < lower(b[i]) {
        Ordering::Less
    } else if lower(a[i]) > lower(b[i]) {
        Ordering::Greater
    } else {
        ci_lex(a, b, i + 1)
    }
}

/// The shorter string in bytes comes first; strings of equal byte length are
/// ordered by their characters but for ASCII case.
pub open spec fn ci_cmp(a: Seq<char>, b: Seq<char>) -> Ordering {
    if byte_len(a) < byte_len(b) {
        Ordering::Less
    } else if byte_len(a) > byte_len(b) {
        Ordering::Greater
    } else {
        ci_lex(a, b, 0)
    }
}

fn to_lower(c: char) -> (r: char)
    ensures
        r == lower(c),
{
    if 'A' <= c && c <= 'Z' {
        ((c as u8) + 32) as char
    } else {
        c
    }
}

/// A string slice that compares (`==`, `<`, ...) ignoring ASCII case.
pub struct CaseInsensitive<'a>(pub &'a str);

impl<'a> CaseInsensitive<'a> {
    pub fn as_str(&self) -> (r: &'a str)
        ensures
            r@ == self.0@,
    {
        self.0
    }
}

impl<'a> PartialEq for CaseInsensitive<'a> {
    fn eq(&self, other: &CaseInsensitive<'a>) -> (r: bool)
        ensures
            r == ci_eq(self.0@, other.0@),
    {
        let a = self.0;
        let b = other.0;
        let n = a.unicode_len();
        let m = b.unicode_len();
        let mut i: usize = 0;
        while i < n && i < m
            invariant
                a@ == self.0@,
                b@ == other.0@,
                n == a@.len(),
                m == b@.len(),
                i <= n,
                i <= m,
                forall|k: int| 0 <= k < i ==> lower(#[trigger] a@[k]) == lower(b@[k]),
            decreases n - i,
        {
            let x = to_lower(a.get_char(i));
            let y = to_lower(b.get_char(i));
            if x != y {
                assert(lower(a@[i as int]) != lower(b@[i as int]));
                return false;
            }
            i = i + 1;
        }
        a.as_bytes().len() == b.as_bytes().len()
    }
}

impl<'a> vstd::std_specs::cmp::PartialEqSpecImpl for CaseInsensitive<'a> {
    open spec fn obeys_eq_spec() -> bool {
        true
    }

    open spec fn eq_spec(&self, other: &CaseInsensitive<'a>) -> bool {
        ci_eq(self.0@, other.0@)
    }
}

impl<'a> PartialOrd for CaseInsensitive<'a> {
    fn partial_cmp(&self, other: &CaseInsensitive<'a>) -> (r: Option<Ordering>)
        ensures
            r == Some(ci_cmp(self.0@, other.0@)),
    {
        let a = self.0;
        let b = other.0;
        let la = a.as_bytes().len();
        let lb = b.as_bytes().len();
        if la < lb {
            return Some(Ordering::Less);
        }
        if la > lb {
            return Some(Ordering::Greater);
        }
        let n = a.unicode_len();
        let m = b.unicode_len();
        let mut i: usize = 0;
        while i < n && i < m
            invariant
                a@ == self.0@,
                b@ == other.0@,
                n == a@.len(),
                m == b@.len(),
                i <= n,
                i <= m,
                byte_len(a@) == byte_len(b@),
                ci_lex(a@, b@, 0) == ci_lex(a@, b@, i as int),
            decreases n - i,
        {
            let x = to_lower(a.get_char(i));
            let y = to_lower(b.get_char(i));
            assert(x == lower(a@[i as int]) && y == lower(b@[i as int]));
            if x < y {
                assert(ci_lex(a@, b@, i as int) == Ordering::Less);
                return Some(Ordering::Less);
            }
            if x > y {
                assert(ci_lex(a@, b@, i as int) == Ordering::Greater);
                return Some(Ordering::Greater);
            }
            i = i + 1;
        }
        Some(Ordering::Equal)
    }
}

impl<'a> vstd::std_specs::cmp::PartialOrdSpecImpl for CaseInsensitive<'a> {
    open spec fn obeys_partial_cmp_spec() -> bool {
        true
    }

    open spec fn partial_cmp_spec(&self, other: &CaseInsensitive<'a>) -> Option<Ordering> {
        Some(ci_cmp(self.0@, other.0@))
    }
}

} // verus!
