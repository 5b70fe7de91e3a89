use vstd::prelude::*;
use crate::utils::{is_word_char, word_char, chars_of, range_matches};

verus! {

pub open spec fn starts_with(s: Seq<char>, p: Seq<char>) -> bool {
    p.len() <= s.len() && s.subrange(0, p.len() as int) == p
}

/// The first segment of the path ends in "Tests" at separator position k:
/// everything before k is one separator-free segment whose last five
/// characters are "Tests".
pub open spec fn tests_root_at(s: Seq<char>, k: int) -> bool {
    5 <= k < s.len() && s[k] == '/' && s.subrange(k - 5, k) == "Tests"@
        && (forall|j: int| 0 <= j < k ==> s[j] != '/')
}

/// A directory segment exactly "test" or "spec" begins at position i.
pub open spec fn test_seg_at(s: Seq<char>, i: int) -> bool {
    0 <= i && i + 5 <= s.len() && (i == 0 || s[i - 1] == '/')
        && (s.subrange(i, i + 5) == "test/"@ || s.subrange(i, i + 5) == "spec/"@)
}

/// The filename ends in ".spec.&lt;ext&gt;" or ".test.&lt;ext&gt;": a non-empty
/// trailing run of word characters starts at t, ".spec." or ".test."
/// stands right before it, and at least one character precedes that.
pub open spec fn test_ext_at(s: Seq<char>, t: int) -> bool {
    7 <= t < s.len()
        && (s.subrange(t - 6, t) == ".spec."@ || s.subrange(t - 6, t) == ".test."@)
        && (forall|j: int| t <= j < s.len() ==> is_word_char(s[j]))
}

/// The classification: a path names a test artifact when it begins with
/// one of the fixed test-root directories or with a first segment ending
/// in "Tests", or holds a directory segment exactly "test" or "spec" at
/// any depth, or its filename carries a ".spec" or ".test" mark before the
/// extension. Case-sensitive, and false for empty or separator-free
/// implementation paths.
pub open spec fn is_test_path(s: Seq<char>) -> bool {
    ||| starts_with(s, "features/step_definitions/"@)
    ||| starts_with(s, "test/"@)
    ||| starts_with(s, "tests/"@)
    ||| starts_with(s, "spec/"@)
    ||| starts_with(s, "specs/"@)
    ||| starts_with(s, "src/test/"@)
    ||| exists|k: int| tests_root_at(s, k)
    ||| exists|i: int| test_seg_at(s, i)
    ||| exists|t: int| test_ext_at(s, t)
}

/// Whether the path denotes a test artifact under the fixed set of
/// directory and filename conventions that is_test_path spells out.
pub fn is_test_file(path: &str) -> (r: bool)
    ensures
        r == is_test_path(path@),
{
    let cs: Vec<char> = chars_of(path);
    let n: usize = cs.len();

    // fixed test-root directories
    if range_matches(&cs, 0, "features/step_definitions/") {
        return true;
    }
    if range_matches(&cs, 0, "test/") {
        return true;
    }
    if range_matches(&cs, 0, "tests/") {
        return true;
    }
    if range_matches(&cs, 0, "spec/") {
        return true;
    }
    if range_matches(&cs, 0, "specs/") {
        return true;
    }
    if range_matches(&cs, 0, "src/test/") {
        return true;
    }

    // a first segment ending in "Tests": its separator is the first one
    let mut fs: usize = 0;
    while fs < n && cs[fs] != '/'
        invariant
            fs <= n,
            n == cs@.len(),
            cs@ == path@,
            forall|j: int| 0 <= j < fs ==> cs@[j] != '/',
        decreases n - fs,
    {
        fs = fs + 1;
    }
    if fs < n && fs >= 5 && range_matches(&cs, fs - 5, "Tests") {
        proof {
            reveal_strlit("Tests");
            assert(tests_root_at(path@, fs as int));
        }
        return true;
    }
    proof {
        reveal_strlit("Tests");
        assert forall|k: int| !tests_root_at(path@, k) by {
            if tests_root_at(path@, k) {
                if k < fs {
                    assert(path@[k] != '/');
                } else if k > fs {
                    assert(fs < n && path@[fs as int] == '/');
                    assert(path@[fs as int] != '/');
                } else {
                    assert(path@.subrange(k - 5, k) == "Tests"@);
                }
            }
        }
    }

    // a "test" or "spec" directory segment at any depth
    let mut i: usize = 0;
    while i < n
        invariant
            i <= n,
            n == cs@.len(),
            cs@ == path@,
            forall|ii: int| 0 <= ii < i ==> !test_seg_at(path@, ii),
        decreases n - i,
    {
        if i == 0 || cs[i - 1] == '/' {
            if range_matches(&cs, i, "test/") || range_matches(&cs, i, "spec/") {
                proof {
                    reveal_strlit("test/");
                    reveal_strlit("spec/");
                    assert(test_seg_at(path@, i as int));
                }
                return true;
            }
        }
        proof {
            reveal_strlit("test/");
            reveal_strlit("spec/");
            assert(!test_seg_at(path@, i as int));
        }
        i = i + 1;
    }
    proof {
        assert forall|ii: int| !test_seg_at(path@, ii) by {
            if 0 <= ii < n {
            }
        }
    }

    // a ".spec." or ".test." mark before the trailing extension
    let mut wt: usize = n;
    while wt > 0 && word_char(cs[wt - 1])
        invariant
            wt <= n,
            n == cs@.len(),
            cs@ == path@,
            forall|j: int| wt <= j < n ==> is_word_char(cs@[j]),
        decreases wt,
    {
        wt = wt - 1;
    }
    if wt < n && wt >= 7
        && (range_matches(&cs, wt - 6, ".spec.") || range_matches(&cs, wt - 6, ".test.")) {
        proof {
            reveal_strlit(".spec.");
            reveal_strlit(".test.");
            assert(test_ext_at(path@, wt as int));
        }
        return true;
    }
    proof {
        reveal_strlit(".spec.");
        reveal_strlit(".test.");
        assert forall|t: int| !test_ext_at(path@, t) by {
            if test_ext_at(path@, t) {
                assert(path@[t - 1] == path@.subrange(t - 6, t)[5]);
                assert(path@[t - 1] == '.');
                assert(!is_word_char('.'));
                if t < wt as int {
                    assert(is_word_char(path@[wt - 1]));
                } else if t > wt as int {
                    assert(is_word_char(path@[t - 1]));
                }
            }
        }
    }
    false
}

} // verus!
