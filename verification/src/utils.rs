use vstd::prelude::*;
use vstd::string::StrSliceExecFns;
use vstd::utf8::{encode_utf8, encode_scalar};

verus! {

/// The cleansed form of a path: a leading "./" relative-directory marker
/// is removed, even from the bare marker itself; paths of one character or
/// none, and paths that begin otherwise, stay as they are.
pub open spec fn cleanse_spec(s: Seq<char>) -> Seq<char> {
    if s.len() > 1 && s[0] == '.' && s[1] == '/' {
        s.skip(2)
    } else {
        s
    }
}

/// Strips a leading "./" relative-directory marker, if present; any other
/// path comes back unchanged.
pub fn cleanse_path(path: &str) -> (r: String)
    ensures
        r@ == cleanse_spec(path@),
{
    let n: usize = path.unicode_len();
    if n > 1 && path.get_char(0) == '.' && path.get_char(1) == '/' {
        let rest: &str = path.substring_char(2, n);
        proof {
            assert(path@.subrange(2, n as int) =~= path@.skip(2));
        }
        rest.to_owned()
    } else {
        path.to_owned()
    }
}

/// A word character in the sense of the path conventions: an ASCII letter,
/// digit or underscore.
pub open spec fn is_word_char(c: char) -> bool {
    (97 <= c as u32 && c as u32 <= 122) || (65 <= c as u32 && c as u32 <= 90)
        || (48 <= c as u32 && c as u32 <= 57) || c as u32 == 95
}

pub fn word_char(c: char) -> (r: bool)
    ensures
        r == is_word_char(c),
{
    let u: u32 = c as u32;
    (97 <= u && u <= 122) || (65 <= u && u <= 90) || (48 <= u && u <= 57) || u == 95
}

/// The characters of a string, in order, as a vector.
pub fn chars_of(s: &str) -> (v: Vec<char>)
    ensures
        v@ == s@,
{
    let n: usize = s.unicode_len();
    let mut v: Vec<char> = Vec::new();
    let mut i: usize = 0;
    while i < n
        invariant
            i <= n,
            n == s@.len(),
            v@ =~= s@.take(i as int),
        decreases n - i,
    {
        v.push(s.get_char(i));
        i = i + 1;
    }
    proof {
        assert(s@.take(n as int) =~= s@);
    }
    v
}

/// Whether the characters of cs from position at onwards spell out lit;
/// false as well when lit would not fit there.
pub fn range_matches(cs: &Vec<char>, at: usize, lit: &str) -> (r: bool)
    ensures
        r == (at + lit@.len() <= cs@.len()
            && cs@.subrange(at as int, at + lit@.len()) == lit@),
{
    let ml: usize = lit.unicode_len();
    let nn: usize = cs.len();
    if at > nn || nn - at < ml {
        return false;
    }
    let mut j: usize = 0;
    while j < ml
        invariant
            j <= ml,
            ml == lit@.len(),
            at + ml <= nn,
            nn == cs@.len(),
            forall|u: int| 0 <= u < j ==> cs@[at + u] == lit@[u],
        decreases ml - j,
    {
        if cs[at + j] != lit.get_char(j) {
            return false;
        }
        j = j + 1;
    }
    proof {
        assert(cs@.subrange(at as int, at + lit@.len()) =~= lit@);
    }
    true
}

/// Character-for-character equality of two string slices.
pub fn str_eq(a: &str, b: &str) -> (r: bool)
    ensures
        r == (a@ == b@),
{
    let n: usize = a.unicode_len();
    let m: usize = b.unicode_len();
    if n != m {
        return false;
    }
    let mut i: usize = 0;
    while i < n
        invariant
            i <= n,
            n == a@.len(),
            n == b@.len(),
            forall|j: int| 0 <= j < i ==> a@[j] == b@[j],
        decreases n - i,
    {
        if a.get_char(i) != b.get_char(i) {
            return false;
        }
        i = i + 1;
    }
    proof {
        assert(a@ =~= b@);
    }
    true
}

/// The UTF-8 encoding of a string takes between one and four bytes per
/// character; callers use this to meet the scoring functions' byte-length
/// bounds from a character count.
pub proof fn lemma_encode_utf8_len(s: Seq<char>)
    ensures
        s.len() <= encode_utf8(s).len() <= 4 * s.len(),
    decreases s.len(),
{
    if s.len() > 0 {
        lemma_encode_utf8_len(s.drop_first());
        assert(1 <= encode_scalar(s[0] as u32).len() <= 4);
    }
}

/// Cleansing never lengthens the byte encoding: it removes two one-byte
/// characters or nothing.
pub proof fn lemma_cleanse_bytes_len(s: Seq<char>)
    ensures
        encode_utf8(cleanse_spec(s)).len() <= encode_utf8(s).len(),
{
    if s.len() > 1 && s[0] == '.' && s[1] == '/' {
        let s1 = s.drop_first();
        assert(encode_utf8(s) == encode_scalar(s[0] as u32) + encode_utf8(s1));
        assert(encode_utf8(s1) == encode_scalar(s1[0] as u32) + encode_utf8(s1.drop_first()));
        assert(s.skip(2) =~= s1.drop_first());
    }
}

} // verus!
