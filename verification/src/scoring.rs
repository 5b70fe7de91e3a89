use vstd::prelude::*;
use vstd::string::StringSliceAdditionalSpecFns;
use vstd::slice::slice_subrange;
use crate::ratio::{Frac, frac_zero, frac_one, frac_wf, frac_lt, frac_eq, frac_add, frac_mul, Ratio};
use crate::utils::{cleanse_spec, cleanse_path, str_eq, lemma_cleanse_bytes_len};
use vstd::utf8::encode_utf8;

verus! {

/// s1 and s2 share a common contiguous run of n bytes.
pub open spec fn has_common_run(s1: Seq<u8>, s2: Seq<u8>, n: nat) -> bool {
    exists|i: int, j: int|
        #![trigger s1.subrange(i, i + n), s2.subrange(j, j + n)]
        0 <= i && i + n <= s1.len() && 0 <= j && j + n <= s2.len()
            && s1.subrange(i, i + n) == s2.subrange(j, j + n)
}

pub open spec fn largest_common_upto(s1: Seq<u8>, s2: Seq<u8>, bound: nat) -> nat
    decreases bound,
{
    if bound == 0 {
        0
    } else if has_common_run(s1, s2, bound) {
        bound
    } else {
        largest_common_upto(s1, s2, (bound - 1) as nat)
    }
}

/// The length of the longest common substring of s1 and s2: the largest n,
/// up to the length of the shorter input, for which the two share a run of
/// n bytes.
pub open spec fn lcs_len(s1: Seq<u8>, s2: Seq<u8>) -> nat {
    largest_common_upto(s1, s2, if s1.len() <= s2.len() { s1.len() } else { s2.len() })
}

/// Length of the common run of s1 and s2 that ends exactly at positions
/// i and j: the quantity the dynamic program tabulates.
spec fn run_ending_at(s1: Seq<u8>, s2: Seq<u8>, i: nat, j: nat) -> nat
    decreases i + j,
{
    if s1[i as int] != s2[j as int] {
        0
    } else if i == 0 || j == 0 {
        1
    } else {
        1 + run_ending_at(s1, s2, (i - 1) as nat, (j - 1) as nat)
    }
}

proof fn lemma_run_ending_le(s1: Seq<u8>, s2: Seq<u8>, i: nat, j: nat)
    requires
        i < s1.len(),
        j < s2.len(),
    ensures
        run_ending_at(s1, s2, i, j) <= i + 1,
        run_ending_at(s1, s2, i, j) <= j + 1,
    decreases i + j,
{
    if s1[i as int] == s2[j as int] && i > 0 && j > 0 {
        lemma_run_ending_le(s1, s2, (i - 1) as nat, (j - 1) as nat);
    }
}

/// The run ending at i, j really is a common run: the two subranges of that
/// length ending just past i and j are equal.
proof fn lemma_run_ending_subranges(s1: Seq<u8>, s2: Seq<u8>, i: nat, j: nat)
    requires
        i < s1.len(),
        j < s2.len(),
    ensures
        s1.subrange(i + 1 - run_ending_at(s1, s2, i, j), i as int + 1)
            =~= s2.subrange(j + 1 - run_ending_at(s1, s2, i, j), j as int + 1),
    decreases i + j,
{
    lemma_run_ending_le(s1, s2, i, j);
    let k = run_ending_at(s1, s2, i, j);
    if k == 0 {
    } else if i == 0 || j == 0 {
    } else {
        lemma_run_ending_subranges(s1, s2, (i - 1) as nat, (j - 1) as nat);
        lemma_run_ending_le(s1, s2, (i - 1) as nat, (j - 1) as nat);
    }
}

/// Exhibiting one aligned pair of equal subranges establishes a common run.
proof fn lemma_common_run_intro(s1: Seq<u8>, s2: Seq<u8>, n: nat, i: int, j: int)
    requires
        0 <= i && i + n <= s1.len(),
        0 <= j && j + n <= s2.len(),
        s1.subrange(i, i + n) == s2.subrange(j, j + n),
    ensures
        has_common_run(s1, s2, n),
{
}

proof fn lemma_run_ending_common(s1: Seq<u8>, s2: Seq<u8>, i: nat, j: nat)
    requires
        i < s1.len(),
        j < s2.len(),
    ensures
        has_common_run(s1, s2, run_ending_at(s1, s2, i, j)),
{
    lemma_run_ending_le(s1, s2, i, j);
    lemma_run_ending_subranges(s1, s2, i, j);
    let k = run_ending_at(s1, s2, i, j);
    lemma_common_run_intro(s1, s2, k, i + 1 - k, j + 1 - k);
}

/// A common run of n bytes aligned at i, j makes the tabulated run ending
/// at its last positions at least n long.
proof fn lemma_aligned_run(s1: Seq<u8>, s2: Seq<u8>, i: int, j: int, n: nat)
    requires
        n >= 1,
        0 <= i && i + n <= s1.len(),
        0 <= j && j + n <= s2.len(),
        s1.subrange(i, i + n) == s2.subrange(j, j + n),
    ensures
        run_ending_at(s1, s2, (i + n - 1) as nat, (j + n - 1) as nat) >= n,
    decreases n,
{
    assert(s1[i + n - 1] == s1.subrange(i, i + n)[n - 1]);
    assert(s2[j + n - 1] == s2.subrange(j, j + n)[n - 1]);
    if n > 1 {
        assert(s1.subrange(i, i + n - 1) =~= s2.subrange(j, j + n - 1)) by {
            assert forall|k: int|
                #![trigger s1.subrange(i, i + n - 1)[k]]
                0 <= k < n - 1 implies
                s1.subrange(i, i + n - 1)[k] == s2.subrange(j, j + n - 1)[k] by {
                assert(s1.subrange(i, i + n)[k] == s2.subrange(j, j + n)[k]);
            }
        }
        lemma_aligned_run(s1, s2, i, j, (n - 1) as nat);
    }
}

proof fn lemma_common_le_largest(s1: Seq<u8>, s2: Seq<u8>, n: nat, bound: nat)
    requires
        has_common_run(s1, s2, n),
        n <= bound,
    ensures
        largest_common_upto(s1, s2, bound) >= n,
    decreases bound,
{
    if bound > 0 && !has_common_run(s1, s2, bound) {
        lemma_common_le_largest(s1, s2, n, (bound - 1) as nat);
    }
}

proof fn lemma_common_run_bounded(s1: Seq<u8>, s2: Seq<u8>, n: nat)
    requires
        has_common_run(s1, s2, n),
    ensures
        n <= s1.len(),
        n <= s2.len(),
{
    let (i, j): (int, int) = choose|i: int, j: int|
        #![trigger s1.subrange(i, i + n), s2.subrange(j, j + n)]
        0 <= i && i + n <= s1.len() && 0 <= j && j + n <= s2.len()
            && s1.subrange(i, i + n) == s2.subrange(j, j + n);
}

/// The defining facts of lcs_len: it is itself a common run length, and no
/// common run is longer.
pub proof fn lemma_lcs_len_props(s1: Seq<u8>, s2: Seq<u8>)
    ensures
        has_common_run(s1, s2, lcs_len(s1, s2)),
        forall|n: nat| has_common_run(s1, s2, n) ==> n <= lcs_len(s1, s2),
        lcs_len(s1, s2) <= s1.len(),
        lcs_len(s1, s2) <= s2.len(),
{
    let bound = if s1.len() <= s2.len() { s1.len() } else { s2.len() };
    lemma_largest_is_common(s1, s2, bound);
    assert forall|n: nat| has_common_run(s1, s2, n) implies n <= lcs_len(s1, s2) by {
        lemma_common_run_bounded(s1, s2, n);
        lemma_common_le_largest(s1, s2, n, bound);
    }
    lemma_common_run_bounded(s1, s2, lcs_len(s1, s2));
}

proof fn lemma_largest_is_common(s1: Seq<u8>, s2: Seq<u8>, bound: nat)
    ensures
        has_common_run(s1, s2, largest_common_upto(s1, s2, bound)),
        largest_common_upto(s1, s2, bound) <= bound,
    decreases bound,
{
    if bound == 0 || !has_common_run(s1, s2, bound) {
        if bound == 0 {
            assert(s1.subrange(0, 0) =~= s2.subrange(0, 0));
            lemma_common_run_intro(s1, s2, 0, 0, 0);
        } else {
            lemma_largest_is_common(s1, s2, (bound - 1) as nat);
        }
    }
}

/// The classic dynamic program over a table of match-run lengths, kept one
/// row at a time: cell (i, j) holds the length of the common run ending at
/// byte i of b1 and byte j of b2, and the answer is the largest cell.
fn lcs_bytes(b1: &[u8], b2: &[u8]) -> (longest: usize)
    ensures
        longest as nat == lcs_len(b1@, b2@),
{
    let n1: usize = b1.len();
    let n2: usize = b2.len();
    if n1 == 0 || n2 == 0 {
        return 0;
    }

    let mut prev: Vec<usize> = Vec::new();
    let mut longest: usize = 0;
    let ghost mut wi: int = 0;
    let ghost mut wj: int = 0;

    let mut i: usize = 0;
    while i < n1
        invariant
            n1 == b1@.len(),
            n2 == b2@.len(),
            1 <= n1,
            1 <= n2,
            i <= n1,
            i >= 1 ==> prev@.len() == n2,
            forall|jj: int| 0 <= jj < n2 && i >= 1 ==>
                #[trigger] prev@[jj] as nat == run_ending_at(b1@, b2@, (i - 1) as nat, jj as nat),
            forall|ii: int, jj: int| 0 <= ii < i && 0 <= jj < n2 ==>
                #[trigger] run_ending_at(b1@, b2@, ii as nat, jj as nat) <= longest,
            longest == 0 || (0 <= wi < i && 0 <= wj < n2
                && run_ending_at(b1@, b2@, wi as nat, wj as nat) == longest),
            longest <= n1,
        decreases n1 - i,
    {
        let mut cur: Vec<usize> = Vec::new();
        let mut j: usize = 0;
        while j < n2
            invariant
                n1 == b1@.len(),
                n2 == b2@.len(),
                1 <= n1,
                1 <= n2,
                i < n1,
                j <= n2,
                cur@.len() == j,
                i >= 1 ==> prev@.len() == n2,
                forall|jj: int| 0 <= jj < n2 && i >= 1 ==>
                    #[trigger] prev@[jj] as nat
                        == run_ending_at(b1@, b2@, (i - 1) as nat, jj as nat),
                forall|jj: int| 0 <= jj < j ==>
                    #[trigger] cur@[jj] as nat == run_ending_at(b1@, b2@, i as nat, jj as nat),
                forall|ii: int, jj: int| 0 <= ii < i && 0 <= jj < n2 ==>
                    #[trigger] run_ending_at(b1@, b2@, ii as nat, jj as nat) <= longest,
                forall|jj: int| 0 <= jj < j ==>
                    #[trigger] run_ending_at(b1@, b2@, i as nat, jj as nat) <= longest,
                longest == 0 || (0 <= wi <= i && 0 <= wj < n2
                    && run_ending_at(b1@, b2@, wi as nat, wj as nat) == longest),
                longest <= n1,
            decreases n2 - j,
        {
            let v: usize = if b1[i] == b2[j] {
                if i > 0 && j > 0 {
                    proof {
                        lemma_run_ending_le(b1@, b2@, (i - 1) as nat, (j - 1) as nat);
                    }
                    1 + prev[j - 1]
                } else {
                    1
                }
            } else {
                0
            };
            assert(v as nat == run_ending_at(b1@, b2@, i as nat, j as nat));
            if v > longest {
                longest = v;
                proof {
                    wi = i as int;
                    wj = j as int;
                    lemma_run_ending_le(b1@, b2@, i as nat, j as nat);
                }
            }
            cur.push(v);
            j = j + 1;
        }
        prev = cur;
        i = i + 1;
    }

    proof {
        lemma_lcs_len_props(b1@, b2@);
        if longest > 0 {
            lemma_run_ending_common(b1@, b2@, wi as nat, wj as nat);
        }
        let l = lcs_len(b1@, b2@);
        if l > 0 {
            let (ci, cj): (int, int) = choose|ci: int, cj: int|
                #![trigger b1@.subrange(ci, ci + l), b2@.subrange(cj, cj + l)]
                0 <= ci && ci + l <= b1@.len() && 0 <= cj && cj + l <= b2@.len()
                    && b1@.subrange(ci, ci + l) == b2@.subrange(cj, cj + l);
            lemma_aligned_run(b1@, b2@, ci, cj, l);
            lemma_run_ending_le(b1@, b2@, (ci + l - 1) as nat, (cj + l - 1) as nat);
        }
    }
    longest
}

/// The length of the longest common substring of the two strings, compared
/// byte-wise.
pub fn find_longest_common_substring_length(s1: &str, s2: &str) -> (len: usize)
    ensures
        len as nat == lcs_len(s1.spec_bytes(), s2.spec_bytes()),
{
    lcs_bytes(s1.as_bytes(), s2.as_bytes())
}

/// The similarity ratio of two byte strings: zero when either is empty,
/// otherwise (L/|s1|) * (L/|s2|) where L is their longest common substring
/// length. Bounded by one and symmetric in its arguments.
pub open spec fn sim_frac(s1: Seq<u8>, s2: Seq<u8>) -> Frac {
    if s1.len() == 0 || s2.len() == 0 {
        frac_zero()
    } else {
        Frac {
            num: lcs_len(s1, s2) * lcs_len(s1, s2) as int,
            den: s1.len() * s2.len() as int,
        }
    }
}

fn ratio_bytes(b1: &[u8], b2: &[u8]) -> (r: Ratio)
    ensures
        r@ == sim_frac(b1@, b2@),
        frac_wf(r@),
{
    let n1: usize = b1.len();
    let n2: usize = b2.len();
    if n1 == 0 || n2 == 0 {
        return Ratio::zero();
    }
    let l: usize = lcs_bytes(b1, b2);
    proof {
        assert((l as u128) * (l as u128) <= u128::MAX && (n1 as u128) * (n2 as u128)
            <= u128::MAX) by (nonlinear_arith)
            requires
                l <= 0xffff_ffff_ffff_ffffu128 && n1 <= 0xffff_ffff_ffff_ffffu128
                    && n2 <= 0xffff_ffff_ffff_ffffu128;
        assert((n1 as u128) * (n2 as u128) >= 1 && (l as u128) * (l as u128) >= 0)
            by (nonlinear_arith)
            requires
                n1 >= 1 && n2 >= 1;
    }
    Ratio { num: (l as u128) * (l as u128), den: (n1 as u128) * (n2 as u128) }
}

/// The similarity ratio of two strings, compared byte-wise: zero when either
/// is empty, otherwise the length-normalized longest-common-substring
/// measure (L/|s1|) * (L/|s2|), exact.
pub fn similarity_ratio(s1: &str, s2: &str) -> (r: Ratio)
    ensures
        r@ == sim_frac(s1.spec_bytes(), s2.spec_bytes()),
        frac_wf(r@),
{
    ratio_bytes(s1.as_bytes(), s2.as_bytes())
}

pub const SLASH_BYTE: u8 = 47;

pub const DOT_BYTE: u8 = 46;

/// The path with any run of trailing separator bytes removed.
pub open spec fn trim_trailing_slashes(b: Seq<u8>) -> Seq<u8>
    decreases b.len(),
{
    if b.len() > 0 && b[b.len() - 1] == SLASH_BYTE {
        trim_trailing_slashes(b.drop_last())
    } else {
        b
    }
}

/// The index just after the last separator byte of b; zero when b has none.
pub open spec fn last_slash_end(b: Seq<u8>) -> int
    decreases b.len(),
{
    if b.len() == 0 {
        0
    } else if b[b.len() - 1] == SLASH_BYTE {
        b.len() as int
    } else {
        last_slash_end(b.drop_last())
    }
}

/// The index just after the last dot byte of b; zero when b has none.
pub open spec fn last_dot_end(b: Seq<u8>) -> int
    decreases b.len(),
{
    if b.len() == 0 {
        0
    } else if b[b.len() - 1] == DOT_BYTE {
        b.len() as int
    } else {
        last_dot_end(b.drop_last())
    }
}

/// The final component of the path: what stands after the last separator,
/// trailing separators ignored.
pub open spec fn name_part(b: Seq<u8>) -> Seq<u8> {
    let t = trim_trailing_slashes(b);
    t.skip(last_slash_end(t))
}

/// A path has a usable filename when its final component is neither empty
/// nor the current- or parent-directory marker.
pub open spec fn has_filename(b: Seq<u8>) -> bool {
    let nm = name_part(b);
    nm.len() > 0 && nm != seq![DOT_BYTE] && nm != seq![DOT_BYTE, DOT_BYTE]
}

/// The filename without its extension: the final component cut at its last
/// dot, except that a dot in first position is part of the name.
pub open spec fn stem_of(b: Seq<u8>) -> Seq<u8> {
    let nm = name_part(b);
    let de = last_dot_end(nm);
    if de >= 2 {
        nm.take(de - 1)
    } else {
        nm
    }
}

/// The parent-directory part of the path: everything before the final
/// component, without its own trailing separators. A lone root separator
/// is kept, and a path with no separator has the empty parent.
pub open spec fn dir_part(b: Seq<u8>) -> Seq<u8> {
    let t = trim_trailing_slashes(b);
    let e = last_slash_end(t);
    if e == 0 {
        Seq::empty()
    } else {
        let d = trim_trailing_slashes(t.take(e));
        if d.len() == 0 {
            t.take(1)
        } else {
            d
        }
    }
}

proof fn lemma_trim_len(b: Seq<u8>)
    ensures
        trim_trailing_slashes(b).len() <= b.len(),
    decreases b.len(),
{
    if b.len() > 0 && b[b.len() - 1] == SLASH_BYTE {
        lemma_trim_len(b.drop_last());
    }
}

proof fn lemma_last_slash_end_range(b: Seq<u8>)
    ensures
        0 <= last_slash_end(b) <= b.len(),
    decreases b.len(),
{
    if b.len() > 0 && b[b.len() - 1] != SLASH_BYTE {
        lemma_last_slash_end_range(b.drop_last());
    }
}

proof fn lemma_last_dot_end_range(b: Seq<u8>)
    ensures
        0 <= last_dot_end(b) <= b.len(),
    decreases b.len(),
{
    if b.len() > 0 && b[b.len() - 1] != DOT_BYTE {
        lemma_last_dot_end_range(b.drop_last());
    }
}

/// Neither part of a split path is longer than the path itself.
proof fn lemma_parts_len(b: Seq<u8>)
    ensures
        name_part(b).len() <= b.len(),
        stem_of(b).len() <= b.len(),
        dir_part(b).len() <= b.len(),
{
    lemma_trim_len(b);
    let t = trim_trailing_slashes(b);
    lemma_last_slash_end_range(t);
    let nm = name_part(b);
    lemma_last_dot_end_range(nm);
    let e = last_slash_end(t);
    if e != 0 {
        lemma_trim_len(t.take(e));
    }
}

/// Splits a path into its extension-free filename and its parent-directory
/// part, or returns None when the path has no usable filename.
#[verifier::rlimit(60)]
fn split_path<'a>(b: &'a [u8]) -> (parts: Option<(&'a [u8], &'a [u8])>)
    ensures
        match parts {
            Some(p) => has_filename(b@) && p.0@ == stem_of(b@) && p.1@ == dir_part(b@),
            None => !has_filename(b@),
        },
{
    let n: usize = b.len();
    proof {
        assert(b@.take(n as int) =~= b@);
    }

    // Trim trailing separators: afterwards the trimmed path is b[..k].
    let mut k: usize = n;
    while k > 0 && b[k - 1] == SLASH_BYTE
        invariant
            k <= n,
            n == b@.len(),
            trim_trailing_slashes(b@) == trim_trailing_slashes(b@.take(k as int)),
        decreases k,
    {
        proof {
            assert(b@.take(k as int).drop_last() =~= b@.take(k as int - 1));
        }
        k = k - 1;
    }
    proof {
        assert(trim_trailing_slashes(b@) == b@.take(k as int));
    }
    let ghost t = b@.take(k as int);

    // Find the end of the last separator of the trimmed path: it is e.
    let mut e: usize = k;
    while e > 0 && b[e - 1] != SLASH_BYTE
        invariant
            e <= k,
            k <= n,
            n == b@.len(),
            last_slash_end(t) == last_slash_end(b@.take(e as int)),
            t == b@.take(k as int),
        decreases e,
    {
        proof {
            assert(b@.take(e as int).drop_last() =~= b@.take(e as int - 1));
        }
        e = e - 1;
    }
    proof {
        assert(last_slash_end(t) == e as int);
        assert(name_part(b@) =~= b@.subrange(e as int, k as int));
    }

    // The final component is b[e..k]; empty, "." and ".." carry no filename.
    if k == e {
        return None;
    }
    if k - e == 1 && b[e] == DOT_BYTE {
        proof {
            assert(name_part(b@) =~= seq![DOT_BYTE]);
        }
        return None;
    }
    if k - e == 2 && b[e] == DOT_BYTE && b[e + 1] == DOT_BYTE {
        proof {
            assert(name_part(b@) =~= seq![DOT_BYTE, DOT_BYTE]);
        }
        return None;
    }
    proof {
        let nm = name_part(b@);
        assert(nm.len() == k - e);
        if nm == seq![DOT_BYTE] {
            assert(nm[0] == DOT_BYTE);
        }
        if nm == seq![DOT_BYTE, DOT_BYTE] {
            assert(nm[0] == DOT_BYTE && nm[1] == DOT_BYTE);
        }
        assert(has_filename(b@));
    }

    // Cut the name at its last dot: the dot, if any, ends at d within b.
    let mut d: usize = k;
    while d > e && b[d - 1] != DOT_BYTE
        invariant
            e <= d <= k <= n,
            n == b@.len(),
            last_dot_end(b@.subrange(e as int, k as int))
                == last_dot_end(b@.subrange(e as int, d as int)),
        decreases d,
    {
        proof {
            assert(b@.subrange(e as int, d as int).drop_last()
                =~= b@.subrange(e as int, d as int - 1));
        }
        d = d - 1;
    }
    proof {
        assert(last_dot_end(name_part(b@)) == d - e);
    }
    let stem: &[u8] = if d - e >= 2 {
        proof {
            assert(name_part(b@).take(d - e - 1) =~= b@.subrange(e as int, d as int - 1));
        }
        slice_subrange(b, e, d - 1)
    } else {
        slice_subrange(b, e, k)
    };
    assert(stem@ == stem_of(b@));

    // The parent-directory part.
    let dir: &[u8] = if e == 0 {
        proof {
            assert(dir_part(b@) =~= Seq::<u8>::empty());
        }
        slice_subrange(b, 0, 0)
    } else {
        let mut k2: usize = e;
        while k2 > 0 && b[k2 - 1] == SLASH_BYTE
            invariant
                k2 <= e,
                e <= n,
                n == b@.len(),
                trim_trailing_slashes(b@.take(e as int))
                    == trim_trailing_slashes(b@.take(k2 as int)),
            decreases k2,
        {
            proof {
                assert(b@.take(k2 as int).drop_last() =~= b@.take(k2 as int - 1));
            }
            k2 = k2 - 1;
        }
        proof {
            assert(t.take(e as int) =~= b@.take(e as int));
            assert(trim_trailing_slashes(t.take(e as int)) == b@.take(k2 as int));
        }
        if k2 == 0 {
            proof {
                assert(t.take(1) =~= b@.subrange(0, 1));
            }
            slice_subrange(b, 0, 1)
        } else {
            proof {
                assert(b@.take(k2 as int) =~= b@.subrange(0, k2 as int));
            }
            slice_subrange(b, 0, k2)
        }
    };
    assert(dir@ == dir_part(b@));

    Some((stem, dir))
}

/// Weights are caller-supplied rationals with bounded terms, so that the
/// composite score can be formed exactly in 128-bit arithmetic.
pub open spec fn weight_ok(f: Frac) -> bool {
    frac_wf(f) && f.num <= WEIGHT_LIMIT && f.den <= WEIGHT_LIMIT
}

/// Largest numerator or denominator a weight may carry.
pub const WEIGHT_LIMIT: u128 = 0x8000_0000;

/// Largest byte length of a path the scoring functions accept; with
/// bounded weights this keeps every intermediate product within u128.
pub const PATH_BYTE_LIMIT: usize = 0x1_0000;

/// The weighted composite score of two paths: zero when either lacks a
/// usable filename; otherwise the filename-similarity of the two stems and
/// the directory-similarity of the two parents, each scaled by its weight
/// and summed. Two filename-bearing paths always have a parent part, the
/// empty string at plainest, and two empty parents have similarity zero.
pub open spec fn score_frac(b1: Seq<u8>, b2: Seq<u8>, fw: Frac, pw: Frac) -> Frac {
    if has_filename(b1) && has_filename(b2) {
        frac_add(
            frac_mul(fw, sim_frac(stem_of(b1), stem_of(b2))),
            frac_mul(pw, sim_frac(dir_part(b1), dir_part(b2))),
        )
    } else {
        frac_zero()
    }
}

/// The similarity ratio never exceeds one, and its terms are bounded by the
/// square of any common bound on the input lengths.
proof fn lemma_sim_frac_bounds(s1: Seq<u8>, s2: Seq<u8>, cap: int)
    requires
        s1.len() <= cap,
        s2.len() <= cap,
        1 <= cap,
    ensures
        frac_wf(sim_frac(s1, s2)),
        sim_frac(s1, s2).num <= sim_frac(s1, s2).den,
        sim_frac(s1, s2).den <= cap * cap,
{
    lemma_lcs_len_props(s1, s2);
    let l = lcs_len(s1, s2) as int;
    if s1.len() > 0 && s2.len() > 0 {
        assert(l * l <= s1.len() * s2.len() && s1.len() * s2.len() <= cap * cap
            && s1.len() * s2.len() >= 1) by (nonlinear_arith)
            requires
                0 <= l <= s1.len() && 0 <= l <= s2.len() && 1 <= s1.len() <= cap
                    && 1 <= s2.len() <= cap;
    } else {
        assert(cap * cap >= 1) by (nonlinear_arith)
            requires 1 <= cap;
    }
}

fn score_bytes(b1: &[u8], b2: &[u8], fw: Ratio, pw: Ratio) -> (r: Ratio)
    requires
        weight_ok(fw@),
        weight_ok(pw@),
        b1@.len() <= PATH_BYTE_LIMIT,
        b2@.len() <= PATH_BYTE_LIMIT,
    ensures
        r@ == score_frac(b1@, b2@, fw@, pw@),
        frac_wf(r@),
{
    let p1 = split_path(b1);
    let p2 = split_path(b2);
    match (p1, p2) {
        (Some(parts1), Some(parts2)) => {
            proof {
                lemma_parts_len(b1@);
                lemma_parts_len(b2@);
                lemma_sim_frac_bounds(stem_of(b1@), stem_of(b2@), PATH_BYTE_LIMIT as int);
                lemma_sim_frac_bounds(dir_part(b1@), dir_part(b2@), PATH_BYTE_LIMIT as int);
            }
            let fsim: Ratio = ratio_bytes(parts1.0, parts2.0);
            let psim: Ratio = ratio_bytes(parts1.1, parts2.1);
            proof {
                assert(fw.num * fsim.num <= 0x8000_0000_0000_0000u128
                    && fw.den * fsim.den <= 0x8000_0000_0000_0000u128
                    && pw.num * psim.num <= 0x8000_0000_0000_0000u128
                    && pw.den * psim.den <= 0x8000_0000_0000_0000u128
                    && 1 <= fw.den * fsim.den && 1 <= pw.den * psim.den)
                    by (nonlinear_arith)
                    requires
                        0 <= fw.num <= WEIGHT_LIMIT && 1 <= fw.den <= WEIGHT_LIMIT
                            && 0 <= pw.num <= WEIGHT_LIMIT && 1 <= pw.den <= WEIGHT_LIMIT
                            && 0 <= fsim.num <= 0x1_0000_0000u128
                            && 1 <= fsim.den <= 0x1_0000_0000u128
                            && 0 <= psim.num <= 0x1_0000_0000u128
                            && 1 <= psim.den <= 0x1_0000_0000u128;
            }
            let weighted_f: Ratio = fw.mul(&fsim);
            let weighted_p: Ratio = pw.mul(&psim);
            proof {
                assert(weighted_f.num * weighted_p.den + weighted_p.num * weighted_f.den
                    <= u128::MAX && weighted_f.den * weighted_p.den <= u128::MAX)
                    by (nonlinear_arith)
                    requires
                        0 <= weighted_f.num <= 0x8000_0000_0000_0000u128
                            && 1 <= weighted_f.den <= 0x8000_0000_0000_0000u128
                            && 0 <= weighted_p.num <= 0x8000_0000_0000_0000u128
                            && 1 <= weighted_p.den <= 0x8000_0000_0000_0000u128;
            }
            weighted_f.add(&weighted_p)
        },
        _ => Ratio::zero(),
    }
}

/// The weighted composite score of two path strings, byte-wise: the
/// filename-without-extension similarity scaled by filename_weight plus
/// the parent-directory similarity scaled by path_weight, and exactly zero
/// when either path has no usable filename.
pub fn score(s1: &str, s2: &str, filename_weight: Ratio, path_weight: Ratio) -> (r: Ratio)
    requires
        weight_ok(filename_weight@),
        weight_ok(path_weight@),
        s1.spec_bytes().len() <= PATH_BYTE_LIMIT,
        s2.spec_bytes().len() <= PATH_BYTE_LIMIT,
    ensures
        r@ == score_frac(s1.spec_bytes(), s2.spec_bytes(), filename_weight@, path_weight@),
        frac_wf(r@),
{
    score_bytes(s1.as_bytes(), s2.as_bytes(), filename_weight, path_weight)
}

/// Self-similarity is maximal: for any non-empty byte string the
/// similarity ratio of the string with itself equals one.
pub proof fn lemma_similarity_self(s: Seq<u8>)
    requires
        s.len() > 0,
    ensures
        frac_eq(sim_frac(s, s), frac_one()),
{
    lemma_lcs_len_props(s, s);
    assert(s.subrange(0, 0 + s.len() as int) == s.subrange(0, 0 + s.len() as int));
    lemma_common_run_intro(s, s, s.len(), 0, 0);
    let l = lcs_len(s, s) as int;
    let n = s.len() as int;
    assert(l == n);
    assert(l * l == n * n) by (nonlinear_arith)
        requires l == n;
    assert(sim_frac(s, s).num == sim_frac(s, s).den);
}

proof fn lemma_common_run_sym(s1: Seq<u8>, s2: Seq<u8>, n: nat)
    requires
        has_common_run(s1, s2, n),
    ensures
        has_common_run(s2, s1, n),
{
    let (i, j): (int, int) = choose|i: int, j: int|
        #![trigger s1.subrange(i, i + n), s2.subrange(j, j + n)]
        0 <= i && i + n <= s1.len() && 0 <= j && j + n <= s2.len()
            && s1.subrange(i, i + n) == s2.subrange(j, j + n);
    lemma_common_run_intro(s2, s1, n, j, i);
}

/// The similarity ratio is symmetric in its two arguments.
pub proof fn lemma_similarity_symmetric(s1: Seq<u8>, s2: Seq<u8>)
    ensures
        sim_frac(s1, s2) == sim_frac(s2, s1),
{
    lemma_lcs_len_props(s1, s2);
    lemma_lcs_len_props(s2, s1);
    lemma_common_run_sym(s1, s2, lcs_len(s1, s2));
    lemma_common_run_sym(s2, s1, lcs_len(s2, s1));
    assert(lcs_len(s1, s2) == lcs_len(s2, s1));
    if s1.len() > 0 && s2.len() > 0 {
        assert(s1.len() * s2.len() == s2.len() * s1.len()) by (nonlinear_arith);
    }
}

/// The similarity ratio of anything with the empty string is zero.
pub proof fn lemma_similarity_empty(s: Seq<u8>)
    ensures
        sim_frac(Seq::empty(), s) == frac_zero(),
        sim_frac(s, Seq::empty()) == frac_zero(),
{
}

/// The similarity ratio never exceeds one.
pub proof fn lemma_similarity_bounded(s1: Seq<u8>, s2: Seq<u8>)
    ensures
        frac_wf(sim_frac(s1, s2)),
        sim_frac(s1, s2).num <= sim_frac(s1, s2).den,
{
    lemma_sim_frac_wf(s1, s2);
    lemma_lcs_len_props(s1, s2);
    if s1.len() > 0 && s2.len() > 0 {
        let l = lcs_len(s1, s2) as int;
        assert(l * l <= s1.len() * s2.len()) by (nonlinear_arith)
            requires
                0 <= l <= s1.len() && 0 <= l <= s2.len();
    }
}

/// For a fixed filename, a candidate whose parent directory is more
/// similar to the target's scores strictly higher, all else equal, as long
/// as the path weight is positive.
pub proof fn lemma_score_monotone_in_dir(
    target: Seq<u8>,
    b1: Seq<u8>,
    b2: Seq<u8>,
    fw: Frac,
    pw: Frac,
)
    requires
        frac_wf(fw),
        frac_wf(pw),
        pw.num >= 1,
        has_filename(target),
        has_filename(b1),
        has_filename(b2),
        stem_of(b1) == stem_of(b2),
        frac_lt(
            sim_frac(dir_part(target), dir_part(b1)),
            sim_frac(dir_part(target), dir_part(b2)),
        ),
    ensures
        frac_lt(score_frac(target, b1, fw, pw), score_frac(target, b2, fw, pw)),
{
    let f = sim_frac(stem_of(target), stem_of(b1));
    let d1 = sim_frac(dir_part(target), dir_part(b1));
    let d2 = sim_frac(dir_part(target), dir_part(b2));
    lemma_sim_frac_wf(stem_of(target), stem_of(b1));
    lemma_sim_frac_wf(dir_part(target), dir_part(b1));
    lemma_sim_frac_wf(dir_part(target), dir_part(b2));
    crate::ratio::lemma_frac_ops_wf(fw, f);
    crate::ratio::lemma_frac_ops_wf(pw, d1);
    crate::ratio::lemma_frac_ops_wf(pw, d2);
    crate::ratio::lemma_frac_mul_strict_mono(pw, d1, d2);
    crate::ratio::lemma_frac_add_strict_mono(frac_mul(fw, f), frac_mul(pw, d1), frac_mul(pw, d2));
}

/// Every score in the list is a well-formed fraction.
pub open spec fn all_wf(s: Seq<(Frac, Seq<char>)>) -> bool {
    forall|i: int| 0 <= i < s.len() ==> frac_wf(#[trigger] s[i].0)
}

proof fn lemma_sim_frac_wf(s1: Seq<u8>, s2: Seq<u8>)
    ensures
        frac_wf(sim_frac(s1, s2)),
{
    if s1.len() > 0 && s2.len() > 0 {
        let l = lcs_len(s1, s2) as int;
        assert(l * l >= 0 && s1.len() * s2.len() >= 1) by (nonlinear_arith)
            requires
                l >= 0 && s1.len() >= 1 && s2.len() >= 1;
    }
}

/// The composite score of any two paths under well-formed weights is a
/// well-formed fraction.
pub proof fn lemma_score_frac_wf(b1: Seq<u8>, b2: Seq<u8>, fw: Frac, pw: Frac)
    requires
        frac_wf(fw),
        frac_wf(pw),
    ensures
        frac_wf(score_frac(b1, b2, fw, pw)),
{
    if has_filename(b1) && has_filename(b2) {
        lemma_sim_frac_wf(stem_of(b1), stem_of(b2));
        lemma_sim_frac_wf(dir_part(b1), dir_part(b2));
        crate::ratio::lemma_frac_ops_wf(fw, sim_frac(stem_of(b1), stem_of(b2)));
        crate::ratio::lemma_frac_ops_wf(pw, sim_frac(dir_part(b1), dir_part(b2)));
        crate::ratio::lemma_frac_ops_wf(
            frac_mul(fw, sim_frac(stem_of(b1), stem_of(b2))),
            frac_mul(pw, sim_frac(dir_part(b1), dir_part(b2))),
        );
    }
}

/// Every score a batch produces is a well-formed fraction.
pub proof fn lemma_score_list_wf(paths: Seq<Seq<char>>, target: Seq<char>, fw: Frac, pw: Frac)
    requires
        frac_wf(fw),
        frac_wf(pw),
    ensures
        all_wf(score_list(paths, target, fw, pw)),
    decreases paths.len(),
{
    if paths.len() > 0 {
        lemma_score_list_wf(paths.drop_last(), target, fw, pw);
        let c = cleanse_spec(paths.last());
        if c != target {
            lemma_score_frac_wf(encode_utf8(target), encode_utf8(c), fw, pw);
        }
    }
}

/// A candidate path in its cleansed form, with its composite score against
/// the batch's target.
pub struct ScoredPath {
    pub score: Ratio,
    pub path: String,
}

impl View for ScoredPath {
    type V = (Frac, Seq<char>);

    open spec fn view(&self) -> (Frac, Seq<char>) {
        (self.score@, self.path@)
    }
}

impl ScoredPath {
    pub fn new(score: Ratio, path: String) -> (r: ScoredPath)
        ensures
            r.score == score,
            r.path == path,
    {
        ScoredPath { score, path }
    }
}

pub open spec fn scored_view(v: Seq<ScoredPath>) -> Seq<(Frac, Seq<char>)> {
    v.map_values(|sp: ScoredPath| sp@)
}

proof fn lemma_scored_view_push(s: Seq<ScoredPath>, x: ScoredPath)
    ensures
        scored_view(s.push(x)) =~= scored_view(s).push(x@),
{
}

/// What scoring a batch yields: each candidate is cleansed, candidates
/// whose cleansed form equals the target are dropped, and each survivor is
/// paired with its composite score against the target, in input order.
pub open spec fn score_list(
    paths: Seq<Seq<char>>,
    target: Seq<char>,
    fw: Frac,
    pw: Frac,
) -> Seq<(Frac, Seq<char>)>
    decreases paths.len(),
{
    if paths.len() == 0 {
        Seq::empty()
    } else {
        let rest = score_list(paths.drop_last(), target, fw, pw);
        let c = cleanse_spec(paths.last());
        if c == target {
            rest
        } else {
            rest.push((score_frac(encode_utf8(target), encode_utf8(c), fw, pw), c))
        }
    }
}

/// Scoring a concatenation of two batches scores each batch in turn: the
/// scored list of the whole is the two scored lists, one after the other.
pub proof fn lemma_score_list_concat(
    a: Seq<Seq<char>>,
    b: Seq<Seq<char>>,
    target: Seq<char>,
    fw: Frac,
    pw: Frac,
)
    ensures
        score_list(a + b, target, fw, pw) == score_list(a, target, fw, pw)
            + score_list(b, target, fw, pw),
    decreases b.len(),
{
    if b.len() == 0 {
        assert(a + b =~= a);
        assert(score_list(a, target, fw, pw) + score_list(b, target, fw, pw)
            =~= score_list(a, target, fw, pw));
    } else {
        lemma_score_list_concat(a, b.drop_last(), target, fw, pw);
        assert((a + b).drop_last() =~= a + b.drop_last());
        assert((a + b).last() == b.last());
        let rest = score_list(a + b.drop_last(), target, fw, pw);
        let c = cleanse_spec(b.last());
        if c != target {
            let el = (score_frac(encode_utf8(target), encode_utf8(c), fw, pw), c);
            assert(rest.push(el) =~= score_list(a, target, fw, pw)
                + score_list(b.drop_last(), target, fw, pw).push(el));
        }
    }
}

/// Cleanses every candidate, drops those whose cleansed form equals the
/// target exactly, and scores each survivor against the target. Output
/// keeps the filtered input order; it is not yet sorted.
pub fn score_paths(
    paths: Vec<String>,
    cleansed_path: &str,
    filename_weight: Ratio,
    path_weight: Ratio,
) -> (r: Vec<ScoredPath>)
    requires
        weight_ok(filename_weight@),
        weight_ok(path_weight@),
        cleansed_path.spec_bytes().len() <= PATH_BYTE_LIMIT,
        forall|i: int| 0 <= i < paths@.len()
            ==> encode_utf8(#[trigger] paths@[i]@).len() <= PATH_BYTE_LIMIT,
    ensures
        scored_view(r@) == score_list(
            paths@.map_values(|p: String| p@),
            cleansed_path@,
            filename_weight@,
            path_weight@,
        ),
        forall|i: int| 0 <= i < r@.len() ==> frac_wf(#[trigger] r@[i].score@),
{
    let ghost pviews = paths@.map_values(|p: String| p@);
    let mut r: Vec<ScoredPath> = Vec::new();
    let n: usize = paths.len();
    let mut idx: usize = 0;
    while idx < n
        invariant
            n == paths@.len(),
            idx <= n,
            pviews == paths@.map_values(|p: String| p@),
            pviews.len() == n,
            weight_ok(filename_weight@),
            weight_ok(path_weight@),
            cleansed_path.spec_bytes().len() <= PATH_BYTE_LIMIT,
            forall|i: int| 0 <= i < paths@.len()
                ==> encode_utf8(#[trigger] paths@[i]@).len() <= PATH_BYTE_LIMIT,
            scored_view(r@) == score_list(
                pviews.take(idx as int),
                cleansed_path@,
                filename_weight@,
                path_weight@,
            ),
            forall|i: int| 0 <= i < r@.len() ==> frac_wf(#[trigger] r@[i].score@),
        decreases n - idx,
    {
        let c: String = cleanse_path(paths[idx].as_str());
        proof {
            lemma_cleanse_bytes_len(paths@[idx as int]@);
            assert(pviews.take(idx as int + 1).drop_last() =~= pviews.take(idx as int));
            assert(pviews.take(idx as int + 1).last() == pviews[idx as int]);
        }
        if !str_eq(c.as_str(), cleansed_path) {
            let ghost old_r = r@;
            let sc: Ratio = score(cleansed_path, c.as_str(), filename_weight, path_weight);
            let sp = ScoredPath { score: sc, path: c };
            proof {
                lemma_scored_view_push(old_r, sp);
            }
            r.push(sp);
        }
        idx = idx + 1;
    }
    proof {
        assert(pviews.take(n as int) =~= pviews);
    }
    r
}

} // verus!
