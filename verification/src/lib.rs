pub mod alteration;
pub mod classification;
pub mod ratio;
pub mod scoring;
pub mod utils;

use vstd::prelude::*;
use core::cmp::Ordering;
use vstd::string::{StringSliceAdditionalSpecFns, StringExecFns};
use vstd::utf8::encode_utf8;
use vstd::arithmetic::div_mod::lemma_fundamental_div_mod;
use crate::ratio::{Frac, frac_lt, frac_eq, frac_wf, Ratio, lemma_frac_ge_trans};
use crate::scoring::{
    ScoredPath, scored_view, score_list, lemma_score_list_concat, lemma_score_list_wf,
    score_paths, weight_ok, all_wf, PATH_BYTE_LIMIT,
};

verus! {

/// Scores never rise along the list: each entry's score is at least the
/// next one's.
pub open spec fn sorted_desc(s: Seq<(Frac, Seq<char>)>) -> bool {
    forall|a: int, b: int|
        #![trigger s[a], s[b]]
        0 <= a <= b < s.len() ==> !frac_lt(s[a].0, s[b].0)
}

/// Where a late-coming element lands in a descending list: after every
/// element not strictly below it, before the rest. Placing it after its
/// equals is what keeps the sort stable.
pub open spec fn insert_desc(
    s: Seq<(Frac, Seq<char>)>,
    x: (Frac, Seq<char>),
) -> Seq<(Frac, Seq<char>)>
    decreases s.len(),
{
    if s.len() == 0 {
        seq![x]
    } else if frac_lt(s.last().0, x.0) {
        insert_desc(s.drop_last(), x).push(s.last())
    } else {
        s.push(x)
    }
}

/// The stable descending sort of a scored list: each element, in input
/// order, is inserted into the sorted list of those before it, so entries
/// with equal scores keep their relative input order.
pub open spec fn sort_desc(s: Seq<(Frac, Seq<char>)>) -> Seq<(Frac, Seq<char>)>
    decreases s.len(),
{
    if s.len() == 0 {
        Seq::empty()
    } else {
        insert_desc(sort_desc(s.drop_last()), s.last())
    }
}

/// The index at which insert_desc places its element.
spec fn insert_pos(s: Seq<(Frac, Seq<char>)>, x: (Frac, Seq<char>)) -> int
    decreases s.len(),
{
    if s.len() == 0 {
        0
    } else if frac_lt(s.last().0, x.0) {
        insert_pos(s.drop_last(), x)
    } else {
        s.len() as int
    }
}

proof fn lemma_insert_pos_props(s: Seq<(Frac, Seq<char>)>, x: (Frac, Seq<char>))
    requires
        sorted_desc(s),
    ensures
        0 <= insert_pos(s, x) <= s.len(),
        forall|t: int| insert_pos(s, x) <= t < s.len() ==> frac_lt(#[trigger] s[t].0, x.0),
        insert_pos(s, x) > 0 ==> !frac_lt(s[insert_pos(s, x) - 1].0, x.0),
    decreases s.len(),
{
    if s.len() > 0 && frac_lt(s.last().0, x.0) {
        assert(sorted_desc(s.drop_last()));
        lemma_insert_pos_props(s.drop_last(), x);
        assert forall|t: int| insert_pos(s, x) <= t < s.len() implies
            frac_lt(#[trigger] s[t].0, x.0) by {
            if t < s.len() - 1 {
                assert(frac_lt(s.drop_last()[t].0, x.0));
            } else {
                assert(frac_lt(s.last().0, x.0));
            }
        }
    }
}

/// Once the insertion point is known, insert_desc is a plain splice there.
proof fn lemma_insert_desc_at(s: Seq<(Frac, Seq<char>)>, x: (Frac, Seq<char>), pos: int)
    requires
        0 <= pos <= s.len(),
        forall|t: int| pos <= t < s.len() ==> frac_lt(#[trigger] s[t].0, x.0),
        pos > 0 ==> !frac_lt(s[pos - 1].0, x.0),
    ensures
        insert_desc(s, x) == s.take(pos).push(x) + s.skip(pos),
    decreases s.len(),
{
    if s.len() == 0 {
        assert(seq![x] =~= s.take(0).push(x) + s.skip(0));
    } else if pos == s.len() {
        assert(!frac_lt(s.last().0, x.0));
        assert(s.push(x) =~= s.take(pos).push(x) + s.skip(pos));
    } else {
        assert(frac_lt(s.last().0, x.0));
        let d = s.drop_last();
        assert(forall|t: int| pos <= t < d.len() ==> frac_lt(#[trigger] d[t].0, x.0));
        lemma_insert_desc_at(d, x, pos);
        assert(insert_desc(s, x) == insert_desc(d, x).push(s.last()));
        assert((d.take(pos).push(x) + d.skip(pos)).push(s.last())
            =~= s.take(pos).push(x) + s.skip(pos));
    }
}

/// Inserting into a sorted, well-formed list keeps it sorted and well
/// formed.
proof fn lemma_insert_desc_sorted(s: Seq<(Frac, Seq<char>)>, x: (Frac, Seq<char>))
    requires
        sorted_desc(s),
        all_wf(s),
        frac_wf(x.0),
    ensures
        sorted_desc(insert_desc(s, x)),
        all_wf(insert_desc(s, x)),
{
    let pos = insert_pos(s, x);
    lemma_insert_pos_props(s, x);
    lemma_insert_desc_at(s, x, pos);
    let r = insert_desc(s, x);
    assert forall|a: int, b: int|
        #![trigger r[a], r[b]]
        0 <= a <= b < r.len() implies !frac_lt(r[a].0, r[b].0) by {
        let ra = if a < pos { s[a] } else if a == pos { x } else { s[a - 1] };
        let rb = if b < pos { s[b] } else if b == pos { x } else { s[b - 1] };
        assert(r[a] == ra && r[b] == rb);
        if a < pos && b == pos {
            if pos > 0 {
                lemma_frac_ge_trans(s[a].0, s[pos - 1].0, x.0);
            }
        }
    }
    assert forall|i: int| 0 <= i < r.len() implies frac_wf(#[trigger] r[i].0) by {
        assert(r[i] == if i < pos { s[i] } else if i == pos { x } else { s[i - 1] });
    }
}

/// The stable sort leaves a descending, well-formed list.
pub proof fn lemma_sort_desc_sorted(s: Seq<(Frac, Seq<char>)>)
    requires
        all_wf(s),
    ensures
        sorted_desc(sort_desc(s)),
        all_wf(sort_desc(s)),
    decreases s.len(),
{
    if s.len() > 0 {
        assert(all_wf(s.drop_last()));
        lemma_sort_desc_sorted(s.drop_last());
        lemma_insert_desc_sorted(sort_desc(s.drop_last()), s.last());
    }
}

/// Inserts one scored path into an already descending vector, scanning its
/// insertion point from the end.
fn insert_scored(r: &mut Vec<ScoredPath>, x: ScoredPath)
    requires
        sorted_desc(scored_view(old(r)@)),
        all_wf(scored_view(old(r)@)),
        frac_wf(x.score@),
    ensures
        scored_view(final(r)@) == insert_desc(scored_view(old(r)@), x@),
{
    let ghost s = scored_view(r@);
    proof {
        assert forall|t: int| 0 <= t < r@.len() implies frac_wf(#[trigger] r@[t].score@) by {
            assert(frac_wf(scored_view(r@)[t].0));
        }
    }
    let mut pos: usize = r.len();
    while pos > 0 && r[pos - 1].score.lt(&x.score)
        invariant
            pos <= r@.len(),
            s == scored_view(r@),
            s.len() == r@.len(),
            all_wf(s),
            forall|t: int| 0 <= t < r@.len() ==> frac_wf(#[trigger] r@[t].score@),
            frac_wf(x.score@),
            forall|t: int| pos <= t < s.len() ==> frac_lt(#[trigger] s[t].0, x@.0),
        decreases pos,
    {
        pos = pos - 1;
    }
    proof {
        lemma_insert_desc_at(s, x@, pos as int);
    }
    r.insert(pos, x);
    proof {
        assert(scored_view(r@) =~= s.take(pos as int).push(x@) + s.skip(pos as int));
    }
}

/// Sorts scored paths by descending score with the stable insertion sort
/// that sort_desc describes: equal scores keep their input order.
fn sort_scored(v: &Vec<ScoredPath>) -> (r: Vec<ScoredPath>)
    requires
        all_wf(scored_view(v@)),
    ensures
        scored_view(r@) == sort_desc(scored_view(v@)),
{
    let ghost orig = scored_view(v@);
    let mut r: Vec<ScoredPath> = Vec::new();
    let n: usize = v.len();
    let mut i: usize = 0;
    while i < n
        invariant
            n == v@.len(),
            i <= n,
            orig == scored_view(v@),
            orig.len() == n,
            all_wf(orig),
            scored_view(r@) == sort_desc(orig.take(i as int)),
            sorted_desc(scored_view(r@)),
            all_wf(scored_view(r@)),
        decreases n - i,
    {
        let x = ScoredPath { score: v[i].score, path: v[i].path.clone() };
        proof {
            assert(x@ == orig[i as int]);
            assert(orig.take(i as int + 1).drop_last() =~= orig.take(i as int));
            assert(orig.take(i as int + 1).last() == orig[i as int]);
            lemma_insert_desc_sorted(sort_desc(orig.take(i as int)), x@);
        }
        insert_scored(&mut r, x);
        i = i + 1;
    }
    proof {
        assert(orig.take(n as int) =~= orig);
    }
    r
}

/// What truncation keeps: everything when the budget is zero or not
/// exceeded, else the first len entries.
pub open spec fn truncate_list(s: Seq<(Frac, Seq<char>)>, len: int) -> Seq<(Frac, Seq<char>)> {
    if len == 0 || s.len() <= len {
        s
    } else {
        s.take(len)
    }
}

/// Cuts the list down to len entries; zero means no truncation, and a
/// budget beyond the list's length keeps the whole list, silently.
pub fn truncate_scored_paths(scored_paths: &mut Vec<ScoredPath>, len: usize)
    ensures
        final(scored_paths)@ == (if len == 0 || old(scored_paths)@.len() <= len {
            old(scored_paths)@
        } else {
            old(scored_paths)@.take(len as int)
        }),
        scored_view(final(scored_paths)@)
            == truncate_list(scored_view(old(scored_paths)@), len as int),
{
    let ghost before = scored_paths@;
    match len {
        0 => (),
        _ => scored_paths.truncate(len),
    }
    proof {
        if len != 0 && before.len() > len {
            assert(scored_paths@ =~= before.take(len as int));
            assert(scored_view(before.take(len as int))
                =~= scored_view(before).take(len as int));
        }
    }
}

/// Three-way comparison used for the ranking: Less when the first path
/// outscores the second, Greater when it scores below it, Equal otherwise,
/// so that sorting with it puts greater scores first.
pub fn order_scored_paths(scored_path_a: &ScoredPath, scored_path_b: &ScoredPath) -> (o:
    Ordering)
    requires
        frac_wf(scored_path_a.score@),
        frac_wf(scored_path_b.score@),
    ensures
        o == Ordering::Less <==> frac_lt(scored_path_b.score@, scored_path_a.score@),
        o == Ordering::Greater <==> frac_lt(scored_path_a.score@, scored_path_b.score@),
        o == Ordering::Equal <==> frac_eq(scored_path_a.score@, scored_path_b.score@),
{
    scored_path_b.score.compare(&scored_path_a.score)
}

/// The full ranking: score every candidate against the target, sort the
/// survivors by descending score keeping input order among equals, then
/// apply the truncation budget.
pub open spec fn find_alt_list(
    target: Seq<char>,
    paths: Seq<Seq<char>>,
    truncate_len: int,
    fw: Frac,
    pw: Frac,
) -> Seq<(Frac, Seq<char>)> {
    truncate_list(sort_desc(score_list(paths, target, fw, pw)), truncate_len)
}

/// A ranked result list is sorted by descending score.
pub proof fn lemma_find_alt_list_sorted(
    target: Seq<char>,
    paths: Seq<Seq<char>>,
    truncate_len: int,
    fw: Frac,
    pw: Frac,
)
    requires
        frac_wf(fw),
        frac_wf(pw),
        truncate_len >= 0,
    ensures
        sorted_desc(find_alt_list(target, paths, truncate_len, fw, pw)),
{
    lemma_score_list_wf(paths, target, fw, pw);
    lemma_sort_desc_sorted(score_list(paths, target, fw, pw));
    let sorted = sort_desc(score_list(paths, target, fw, pw));
    let out = find_alt_list(target, paths, truncate_len, fw, pw);
    assert forall|a: int, b: int|
        #![trigger out[a], out[b]]
        0 <= a <= b < out.len() implies !frac_lt(out[a].0, out[b].0) by {
        assert(out[a] == sorted[a] && out[b] == sorted[b]);
    }
}

/// Ranks the candidate paths against the target: each candidate is
/// cleansed, exact matches of the target are dropped, the rest are scored
/// with the given weights, sorted by descending score with input order kept
/// among equal scores, and truncated to the budget (zero keeps all).
pub fn find_alt(
    cleansed_path: &str,
    paths: Vec<String>,
    truncate_len: usize,
    filename_weight: Ratio,
    path_weight: Ratio,
) -> (r: Vec<ScoredPath>)
    requires
        weight_ok(filename_weight@),
        weight_ok(path_weight@),
        cleansed_path.spec_bytes().len() <= PATH_BYTE_LIMIT,
        forall|i: int| 0 <= i < paths@.len()
            ==> encode_utf8(#[trigger] paths@[i]@).len() <= PATH_BYTE_LIMIT,
    ensures
        scored_view(r@) == find_alt_list(
            cleansed_path@,
            paths@.map_values(|p: String| p@),
            truncate_len as int,
            filename_weight@,
            path_weight@,
        ),
{
    let scored: Vec<ScoredPath> = score_paths(paths, cleansed_path, filename_weight,
        path_weight);
    proof {
        assert(all_wf(scored_view(scored@)));
    }
    let mut possible_paths_with_scores: Vec<ScoredPath> = sort_scored(&scored);
    truncate_scored_paths(&mut possible_paths_with_scores, truncate_len);
    possible_paths_with_scores
}

#[derive(Debug)]
pub enum FindAltWithThreadsError {
    NoAvailableParallelism,
}

/// The chunked ranking: the candidate list is split into contiguous chunks
/// of n/units + n%units paths, each chunk is scored independently — the
/// work a caller may hand out to parallel workers — and the chunk results
/// are concatenated in order and ranked exactly as find_alt ranks. units is
/// the number of parallel execution units the environment reported; zero
/// stands for an environment that could not report one and is the only
/// error. For every unit count the result equals the sequential ranking.
pub fn find_alt_with_threads(
    cleansed_path: &str,
    paths: Vec<String>,
    truncate_len: usize,
    filename_weight: Ratio,
    path_weight: Ratio,
    units: usize,
) -> (r: Result<Vec<ScoredPath>, FindAltWithThreadsError>)
    requires
        weight_ok(filename_weight@),
        weight_ok(path_weight@),
        cleansed_path.spec_bytes().len() <= PATH_BYTE_LIMIT,
        forall|i: int| 0 <= i < paths@.len()
            ==> encode_utf8(#[trigger] paths@[i]@).len() <= PATH_BYTE_LIMIT,
    ensures
        match r {
            Ok(v) => units >= 1 && scored_view(v@) == find_alt_list(
                cleansed_path@,
                paths@.map_values(|p: String| p@),
                truncate_len as int,
                filename_weight@,
                path_weight@,
            ),
            Err(e) => units == 0 && e == FindAltWithThreadsError::NoAvailableParallelism,
        },
{
    if units == 0 {
        return Err(FindAltWithThreadsError::NoAvailableParallelism);
    }
    let ghost pviews = paths@.map_values(|p: String| p@);
    let n: usize = paths.len();
    let q: usize = n / units;
    let m: usize = n % units;
    proof {
        lemma_fundamental_div_mod(n as int, units as int);
        assert(q + m <= n && (n > 0 ==> q + m >= 1)) by (nonlinear_arith)
            requires
                n as int == units as int * (q as int) + (m as int) && units >= 1 && q >= 0
                    && m >= 0;
    }
    let chunk_size: usize = q + m;

    let mut scored: Vec<ScoredPath> = Vec::new();
    let mut start: usize = 0;
    while start < n
        invariant
            n == paths@.len(),
            start <= n,
            units >= 1,
            chunk_size == n as int / units as int + n as int % units as int,
            n > 0 ==> chunk_size >= 1,
            weight_ok(filename_weight@),
            weight_ok(path_weight@),
            cleansed_path.spec_bytes().len() <= PATH_BYTE_LIMIT,
            forall|i: int| 0 <= i < paths@.len()
                ==> encode_utf8(#[trigger] paths@[i]@).len() <= PATH_BYTE_LIMIT,
            pviews == paths@.map_values(|p: String| p@),
            pviews.len() == n,
            scored_view(scored@) == score_list(
                pviews.take(start as int),
                cleansed_path@,
                filename_weight@,
                path_weight@,
            ),
            all_wf(scored_view(scored@)),
        decreases n - start,
    {
        let end: usize = if n - start < chunk_size {
            n
        } else {
            start + chunk_size
        };

        let mut chunk: Vec<String> = Vec::new();
        let mut t: usize = start;
        while t < end
            invariant
                start <= t <= end,
                end <= n,
                n == paths@.len(),
                chunk@.len() == t - start,
                forall|u: int| 0 <= u < chunk@.len()
                    ==> #[trigger] chunk@[u]@ == paths@[start + u]@,
            decreases end - t,
        {
            chunk.push(paths[t].clone());
            t = t + 1;
        }
        proof {
            assert(chunk@.map_values(|p: String| p@)
                =~= pviews.subrange(start as int, end as int));
        }

        let mut chunk_scored: Vec<ScoredPath> = score_paths(chunk, cleansed_path,
            filename_weight, path_weight);
        let ghost scored_before = scored_view(scored@);
        proof {
            lemma_score_list_concat(
                pviews.take(start as int),
                pviews.subrange(start as int, end as int),
                cleansed_path@,
                filename_weight@,
                path_weight@,
            );
            assert(pviews.take(start as int) + pviews.subrange(start as int, end as int)
                =~= pviews.take(end as int));
        }
        let ghost chunk_view = scored_view(chunk_scored@);
        scored.append(&mut chunk_scored);
        proof {
            assert(scored_view(scored@) =~= scored_before + chunk_view);
        }
        start = end;
    }
    proof {
        assert(pviews.take(n as int) =~= pviews);
    }

    let mut sorted: Vec<ScoredPath> = sort_scored(&scored);
    truncate_scored_paths(&mut sorted, truncate_len);
    Ok(sorted)
}

/// The newline-joined rendering of the ranked paths, with no trailing
/// newline and the empty string for an empty list.
pub open spec fn joined_lines(paths: Seq<Seq<char>>) -> Seq<char>
    decreases paths.len(),
{
    if paths.len() == 0 {
        Seq::empty()
    } else if paths.len() == 1 {
        paths[0]
    } else {
        joined_lines(paths.drop_last()) + seq!['\n'] + paths.last()
    }
}

/// Renders the ranked list for output: the path strings joined by
/// newlines, scores omitted.
pub fn scored_paths_to_string(scored_paths: &[ScoredPath]) -> (r: String)
    ensures
        r@ == joined_lines(scored_paths@.map_values(|sp: ScoredPath| sp.path@)),
{
    let ghost names = scored_paths@.map_values(|sp: ScoredPath| sp.path@);
    let mut out: String = String::new();
    let n: usize = scored_paths.len();
    let mut i: usize = 0;
    while i < n
        invariant
            i <= n,
            n == scored_paths@.len(),
            names == scored_paths@.map_values(|sp: ScoredPath| sp.path@),
            names.len() == n,
            out@ == joined_lines(names.take(i as int)),
        decreases n - i,
    {
        if i > 0 {
            proof {
                reveal_strlit("\n");
            }
            out.append("\n");
        }
        out.append(scored_paths[i].path.as_str());
        proof {
            assert(names.take(i as int + 1).drop_last() =~= names.take(i as int));
            assert(names.take(i as int + 1).last() == names[i as int]);
            reveal_strlit("\n");
            assert("\n"@ =~= seq!['\n']);
            if i == 0 {
                assert(out@ =~= names[0]);
            }
        }
        i = i + 1;
    }
    proof {
        assert(names.take(n as int) =~= names);
    }
    out
}

} // verus!
