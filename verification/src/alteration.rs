use vstd::prelude::*;
use vstd::string::{StrSliceExecFns, StringExecFns};
use crate::utils::{is_word_char, word_char, chars_of, range_matches};

verus! {

/// The start of the maximal run of word characters ending just before
/// position end: end itself when no word character stands there.
pub open spec fn word_run_start(s: Seq<char>, end: int) -> int
    decreases end,
{
    if end <= 0 {
        0
    } else if is_word_char(s[end - 1]) {
        word_run_start(s, end - 1)
    } else {
        end
    }
}

/// m is a proper suffix of a: a ends with m and keeps at least one
/// character of its own.
pub open spec fn ends_with_marker(a: Seq<char>, m: Seq<char>) -> bool {
    m.len() < a.len() && a.skip(a.len() - m.len()) == m
}

/// The name with its one trailing test marker removed: the longest of the
/// known markers that is a proper suffix, or the name itself when none
/// fits. Properness keeps the retained core non-empty, so only one marker
/// ever comes off and "foo_rake_spec" yields "foo", not "foo_rake".
pub open spec fn marker_stripped(a: Seq<char>) -> Seq<char> {
    if ends_with_marker(a, "_rake_spec"@) {
        a.take(a.len() - 10)
    } else if ends_with_marker(a, "_rake_test"@) {
        a.take(a.len() - 10)
    } else if ends_with_marker(a, "UITests"@) {
        a.take(a.len() - 7)
    } else if ends_with_marker(a, "UISpecs"@) {
        a.take(a.len() - 7)
    } else if ends_with_marker(a, "_steps"@) {
        a.take(a.len() - 6)
    } else if ends_with_marker(a, "_spec"@) {
        a.take(a.len() - 5)
    } else if ends_with_marker(a, "_test"@) {
        a.take(a.len() - 5)
    } else if ends_with_marker(a, "Tests"@) {
        a.take(a.len() - 5)
    } else if ends_with_marker(a, "Specs"@) {
        a.take(a.len() - 5)
    } else if ends_with_marker(a, "Suite"@) {
        a.take(a.len() - 5)
    } else if ends_with_marker(a, "Test"@) {
        a.take(a.len() - 4)
    } else if ends_with_marker(a, "Spec"@) {
        a.take(a.len() - 4)
    } else {
        a
    }
}

/// The name with a leading "test_" marker removed, when something follows
/// the marker.
pub open spec fn prefix_stripped(a: Seq<char>) -> Seq<char> {
    if a.len() > 5 && a.take(5) == "test_"@ {
        a.skip(5)
    } else {
        a
    }
}

/// What stripping leaves of a filename. The filename's core is its last
/// run of word characters, or the run just before the final dotted
/// extension when one follows; a name that ends in no word character has
/// no core and passes through whole. Everything outside the core stays,
/// the extension dropped; within the core a leading "test_" marker and
/// then one trailing marker are removed.
pub open spec fn strip_spec(s: Seq<char>) -> Seq<char> {
    let t = word_run_start(s, s.len() as int);
    if t == s.len() {
        s
    } else if t >= 2 && s[t - 1] == '.' && is_word_char(s[t - 2]) {
        let c = word_run_start(s, t - 1);
        s.take(c) + marker_stripped(prefix_stripped(s.subrange(c, t - 1)))
    } else {
        s.take(t) + marker_stripped(prefix_stripped(s.subrange(t, s.len() as int)))
    }
}

/// Whether the characters of cs in [lo, hi) end with lit as a proper
/// suffix.
fn ends_marker(cs: &Vec<char>, lo: usize, hi: usize, lit: &str) -> (r: bool)
    requires
        lo <= hi <= cs@.len(),
    ensures
        r == ends_with_marker(cs@.subrange(lo as int, hi as int), lit@),
{
    let ml: usize = lit.unicode_len();
    if hi - lo <= ml {
        return false;
    }
    let r: bool = range_matches(cs, hi - ml, lit);
    proof {
        let a = cs@.subrange(lo as int, hi as int);
        assert(a.skip(a.len() - lit@.len()) =~= cs@.subrange(hi - ml, hi as int));
    }
    r
}

/// Strips the test-framework markers from a bare filename: a leading
/// "test_", one trailing marker from the fixed set, and the extension, as
/// strip_spec lays down; a filename bearing none of them loses only its
/// extension, and one with no word-character core passes through whole.
#[verifier::rlimit(100)]
pub fn strip_test_words(filename: &String) -> (r: String)
    ensures
        r@ == strip_spec(filename@),
{
    let s: &str = filename.as_str();
    let cs: Vec<char> = chars_of(s);
    let n: usize = cs.len();

    // the trailing word run begins at t
    let mut t: usize = n;
    while t > 0 && word_char(cs[t - 1])
        invariant
            t <= n,
            n == cs@.len(),
            cs@ == filename@,
            word_run_start(cs@, n as int) == word_run_start(cs@, t as int),
        decreases t,
    {
        t = t - 1;
    }
    assert(t as int == word_run_start(filename@, n as int));
    if t == n {
        return filename.clone();
    }

    // the core: the run before a dotted extension, or the trailing run
    let has_ext: bool = t >= 2 && cs[t - 1] == '.' && word_char(cs[t - 2]);
    let c0: usize;
    let c1: usize;
    if has_ext {
        let mut c: usize = t - 1;
        while c > 0 && word_char(cs[c - 1])
            invariant
                c <= t - 1,
                t <= n,
                n == cs@.len(),
                cs@ == filename@,
                word_run_start(cs@, t as int - 1) == word_run_start(cs@, c as int),
            decreases c,
        {
            c = c - 1;
        }
        assert(c as int == word_run_start(filename@, t as int - 1));
        c0 = c;
        c1 = t - 1;
    } else {
        c0 = t;
        c1 = n;
    }

    // a leading "test_" marker comes off when something follows it
    let core_start: usize = if c1 - c0 > 5 && range_matches(&cs, c0, "test_") {
        c0 + 5
    } else {
        c0
    };
    proof {
        reveal_strlit("test_");
        let a = filename@.subrange(c0 as int, c1 as int);
        if c1 - c0 > 5 {
            assert(a.take(5) =~= filename@.subrange(c0 as int, c0 as int + 5));
        }
        assert(prefix_stripped(a) =~= filename@.subrange(core_start as int, c1 as int));
    }

    // the longest trailing marker that leaves a non-empty core comes off
    let cut: usize = if ends_marker(&cs, core_start, c1, "_rake_spec") {
        10
    } else if ends_marker(&cs, core_start, c1, "_rake_test") {
        10
    } else if ends_marker(&cs, core_start, c1, "UITests") {
        7
    } else if ends_marker(&cs, core_start, c1, "UISpecs") {
        7
    } else if ends_marker(&cs, core_start, c1, "_steps") {
        6
    } else if ends_marker(&cs, core_start, c1, "_spec") {
        5
    } else if ends_marker(&cs, core_start, c1, "_test") {
        5
    } else if ends_marker(&cs, core_start, c1, "Tests") {
        5
    } else if ends_marker(&cs, core_start, c1, "Specs") {
        5
    } else if ends_marker(&cs, core_start, c1, "Suite") {
        5
    } else if ends_marker(&cs, core_start, c1, "Test") {
        4
    } else if ends_marker(&cs, core_start, c1, "Spec") {
        4
    } else {
        0
    };
    proof {
        reveal_strlit("_rake_spec");
        reveal_strlit("_rake_test");
        reveal_strlit("UITests");
        reveal_strlit("UISpecs");
        reveal_strlit("_steps");
        reveal_strlit("_spec");
        reveal_strlit("_test");
        reveal_strlit("Tests");
        reveal_strlit("Specs");
        reveal_strlit("Suite");
        reveal_strlit("Test");
        reveal_strlit("Spec");
    }
    let core_end: usize = c1 - cut;
    proof {
        let ap = prefix_stripped(filename@.subrange(c0 as int, c1 as int));
        assert(marker_stripped(ap) =~= filename@.subrange(core_start as int, core_end as int));
    }

    let prefix: &str = s.substring_char(0, c0);
    let core: &str = s.substring_char(core_start, core_end);
    let mut out: String = prefix.to_owned();
    out.append(core);
    proof {
        assert(filename@.take(c0 as int) =~= filename@.subrange(0, c0 as int));
    }
    out
}

} // verus!
