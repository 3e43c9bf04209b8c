//! Range reconciliation: for one locus key, the ranges contributed by all
//! blocks are sorted by `(start, end)`, classified as contiguous or
//! overlapping, and grouped greedily; every group becomes one output path.

use vstd::prelude::*;

use crate::graph::{
    Step, GraphV, PathV, GraphPath, CombinedGraph, graph_wf, build_path, path_v,
};
use crate::bytes::{dec_digits, push_usize_dec};

verus! {

/// One block's contribution to a locus: a half-open coordinate range, the
/// index of the source block, and the translated steps covering the range.
pub struct RangeInfo {
    pub start: usize,
    pub end: usize,
    pub gfa_id: usize,
    pub steps: Vec<Step>,
}

/// Mathematical image of a range contribution.
pub struct RangeV {
    pub start: usize,
    pub end: usize,
    pub gfa_id: usize,
    pub steps: Seq<Step>,
}

pub open spec fn range_v(r: RangeInfo) -> RangeV {
    RangeV { start: r.start, end: r.end, gfa_id: r.gfa_id, steps: r.steps@ }
}

pub open spec fn ranges_v(s: Seq<RangeInfo>) -> Seq<RangeV> {
    s.map_values(|r: RangeInfo| range_v(r))
}

/// Two ranges are contiguous when the first ends exactly where the second
/// starts.
pub fn is_contiguous(r1: &RangeInfo, r2: &RangeInfo) -> (r: bool)
    ensures
        r == (r1.end == r2.start),
{
    r1.end == r2.start
}

/// Two ranges overlap when each starts before the other ends.
pub fn has_overlap(r1: &RangeInfo, r2: &RangeInfo) -> (r: bool)
    ensures
        r == (r1.start < r2.end && r2.start < r1.end),
{
    r1.start < r2.end && r2.start < r1.end
}

/// Sort order of ranges within a locus: by start, then end.
pub open spec fn range_leq(a: RangeV, b: RangeV) -> bool {
    a.start < b.start || (a.start == b.start && a.end <= b.end)
}

/// Stable insertion: `x` goes behind every range that is not larger.
pub open spec fn insert_range_v(s: Seq<RangeV>, x: RangeV) -> Seq<RangeV>
    decreases s.len(),
{
    if s.len() > 0 && !range_leq(s.last(), x) {
        insert_range_v(s.drop_last(), x).push(s.last())
    } else {
        s.push(x)
    }
}

/// Stable insertion sort by `(start, end)`; ranges with equal coordinates
/// keep their input order, which is the block order.
pub open spec fn sort_ranges_v(s: Seq<RangeV>) -> Seq<RangeV>
    decreases s.len(),
{
    if s.len() == 0 {
        Seq::empty()
    } else {
        insert_range_v(sort_ranges_v(s.drop_last()), s.last())
    }
}

/// Adjacent ranges are in sort order.
pub open spec fn ranges_sorted(s: Seq<RangeV>) -> bool {
    forall|i: int| 0 <= i < s.len() - 1 ==> range_leq(#[trigger] s[i], s[i + 1])
}

/// `a` must come strictly after `b` in the sort order.
fn range_after(a: &RangeInfo, b: &RangeInfo) -> (r: bool)
    ensures
        r == !range_leq(range_v(*a), range_v(*b)),
{
    a.start > b.start || (a.start == b.start && a.end > b.end)
}

proof fn lemma_insert_range_at(s: Seq<RangeV>, x: RangeV, pos: int)
    requires
        0 <= pos <= s.len(),
        forall|j: int| pos <= j < s.len() ==> !range_leq(#[trigger] s[j], x),
        pos > 0 ==> range_leq(s[pos - 1], x),
    ensures
        insert_range_v(s, x) == s.insert(pos, x),
    decreases s.len(),
{
    if s.len() > pos {
        lemma_insert_range_at(s.drop_last(), x, pos);
        assert(insert_range_v(s, x) =~= s.insert(pos, x));
    } else {
        assert(s.push(x) =~= s.insert(pos, x));
    }
}

proof fn lemma_ranges_v_insert(s: Seq<RangeInfo>, pos: int, x: RangeInfo)
    requires
        0 <= pos <= s.len(),
    ensures
        ranges_v(s.insert(pos, x)) == ranges_v(s).insert(pos, range_v(x)),
{
    assert(ranges_v(s.insert(pos, x)) =~= ranges_v(s).insert(pos, range_v(x)));
}

/// Sorting ranges that are already in sort order changes nothing.
pub proof fn lemma_sort_of_sorted(s: Seq<RangeV>)
    requires
        ranges_sorted(s),
    ensures
        sort_ranges_v(s) == s,
    decreases s.len(),
{
    if s.len() > 0 {
        assert(ranges_sorted(s.drop_last()));
        lemma_sort_of_sorted(s.drop_last());
        if s.len() > 1 {
            assert(range_leq(s[s.len() - 2], s.last()));
        }
        assert(sort_ranges_v(s) =~= s);
    } else {
        assert(sort_ranges_v(s) =~= s);
    }
}

/// Sorts the ranges of one locus by `(start, end)`, stably.
#[verifier::loop_isolation(false)]
pub fn sort_ranges(v: Vec<RangeInfo>) -> (r: Vec<RangeInfo>)
    ensures
        ranges_v(r@) == sort_ranges_v(ranges_v(v@)),
        ranges_sorted(ranges_v(r@)),
{
    let ghost orig = ranges_v(v@);
    let mut rest = v;
    let mut out: Vec<RangeInfo> = Vec::new();
    let ghost k: int = 0;
    while rest.len() > 0
        invariant
            0 <= k <= orig.len(),
            ranges_v(rest@) =~= orig.skip(k),
            ranges_v(out@) == sort_ranges_v(orig.take(k)),
            ranges_sorted(ranges_v(out@)),
        decreases rest@.len(),
    {
        let ghost pre = rest@;
        let x = rest.remove(0);
        proof {
            assert(ranges_v(pre).len() > 0);
            assert(0 <= k < orig.len());
            assert(range_v(x) == ranges_v(pre)[0]);
            assert(range_v(x) == orig[k]);
            assert(ranges_v(rest@) =~= ranges_v(pre).remove(0));
            assert(ranges_v(pre).remove(0) =~= orig.skip(k + 1));
        }
        let mut pos: usize = out.len();
        while pos > 0 && range_after(&out[pos - 1], &x)
            invariant
                0 <= pos <= out@.len(),
                forall|j: int|
                    pos <= j < out@.len() ==> !range_leq(#[trigger] ranges_v(out@)[j], range_v(x)),
            decreases pos,
        {
            pos -= 1;
        }
        proof {
            lemma_insert_range_at(ranges_v(out@), range_v(x), pos as int);
            lemma_ranges_v_insert(out@, pos as int, x);
            let s = ranges_v(out@);
            let t = s.insert(pos as int, range_v(x));
            assert forall|i: int| 0 <= i < t.len() - 1 implies range_leq(#[trigger] t[i], t[i + 1]) by {
                if i + 1 < pos {
                    assert(t[i] == s[i] && t[i + 1] == s[i + 1]);
                } else if i + 1 == pos {
                    assert(t[i] == s[i] && t[i + 1] == range_v(x));
                } else if i == pos {
                    assert(t[i] == range_v(x) && t[i + 1] == s[i]);
                } else {
                    assert(t[i] == s[i - 1] && t[i + 1] == s[i]);
                }
            }
            assert(orig.take(k + 1).drop_last() =~= orig.take(k));
            assert(orig.take(k + 1).last() == orig[k]);
        }
        out.insert(pos, x);
        proof {
            k = k + 1;
        }
    }
    proof {
        assert(orig.take(k) =~= orig);
    }
    out
}

/// Two ranges of one locus overlap.
pub open spec fn ranges_overlap(a: RangeV, b: RangeV) -> bool {
    a.start < b.end && b.start < a.end
}

/// Every adjacent pair of the sorted ranges is contiguous.
pub open spec fn all_contiguous(rs: Seq<RangeV>) -> bool {
    forall|i: int| 0 <= i < rs.len() - 1 ==> (#[trigger] rs[i]).end == rs[i + 1].start
}

/// Some adjacent pair of the sorted ranges overlaps.
pub open spec fn any_adjacent_overlap(rs: Seq<RangeV>) -> bool {
    exists|i: int| 0 <= i < rs.len() - 1 && ranges_overlap(#[trigger] rs[i], rs[i + 1])
}

/// Length of the leading run of contiguous ranges: the first group of the
/// greedy grouping.
pub open spec fn first_group_len(rs: Seq<RangeV>) -> int
    decreases rs.len(),
{
    if rs.len() <= 1 {
        rs.len() as int
    } else if rs[0].end == rs[1].start {
        1 + first_group_len(rs.drop_first())
    } else {
        1
    }
}

pub proof fn lemma_first_group_len(rs: Seq<RangeV>)
    requires
        rs.len() > 0,
    ensures
        1 <= first_group_len(rs) <= rs.len(),
    decreases rs.len(),
{
    if rs.len() > 1 && rs[0].end == rs[1].start {
        lemma_first_group_len(rs.drop_first());
    }
}

/// The run length is exactly the first break point of contiguity.
proof fn lemma_first_group_len_is(rs: Seq<RangeV>, k: int)
    requires
        1 <= k <= rs.len(),
        forall|j: int| 1 <= j < k ==> (#[trigger] rs[j - 1]).end == rs[j].start,
        k < rs.len() ==> rs[k - 1].end != rs[k].start,
    ensures
        first_group_len(rs) == k,
    decreases rs.len(),
{
    if k == 1 {
        if rs.len() > 1 {
            assert(rs[0].end != rs[1].start);
        }
    } else {
        assert(rs[1 - 1].end == rs[1].start);
        let tail = rs.drop_first();
        assert forall|j: int| 1 <= j < k - 1 implies (#[trigger] tail[j - 1]).end
            == tail[j].start by {
            assert(tail[j - 1] == rs[j]);
            assert(tail[j] == rs[j + 1]);
            assert(rs[(j + 1) - 1].end == rs[j + 1].start);
        }
        if k - 1 < tail.len() {
            assert(tail[k - 2] == rs[k - 1] && tail[k - 1] == rs[k]);
        }
        lemma_first_group_len_is(tail, k - 1);
    }
}

/// The greedy grouping: repeatedly peel off the longest contiguous run.
pub open spec fn groups(rs: Seq<RangeV>) -> Seq<Seq<RangeV>>
    decreases rs.len(),
    via groups_decreases
{
    if rs.len() == 0 {
        Seq::empty()
    } else {
        seq![rs.take(first_group_len(rs))] + groups(rs.skip(first_group_len(rs)))
    }
}

#[via_fn]
proof fn groups_decreases(rs: Seq<RangeV>) {
    if rs.len() > 0 {
        lemma_first_group_len(rs);
    }
}

/// The steps of a run of ranges, concatenated in coordinate order.
pub open spec fn concat_steps(rs: Seq<RangeV>) -> Seq<Step>
    decreases rs.len(),
{
    if rs.len() == 0 {
        Seq::empty()
    } else {
        concat_steps(rs.drop_last()) + rs.last().steps
    }
}

/// The name of a split sub-path: `key:group_start-group_end`.
pub open spec fn group_name(key: Seq<u8>, grp: Seq<RangeV>) -> Seq<u8>
    recommends
        grp.len() > 0,
{
    key + seq![58u8] + dec_digits(grp[0].start as nat) + seq![45u8] + dec_digits(
        grp.last().end as nat,
    )
}

/// The output paths of one locus: a single path named by the bare key when
/// the sorted ranges are one unbroken contiguous run without overlaps, and
/// otherwise one path per greedy group, named by the group's extent.
pub open spec fn reconciled_paths(key: Seq<u8>, sorted: Seq<RangeV>) -> Seq<PathV> {
    if all_contiguous(sorted) && !any_adjacent_overlap(sorted) {
        seq![PathV { name: key, steps: concat_steps(sorted) }]
    } else {
        groups(sorted).map_values(
            |g: Seq<RangeV>| PathV { name: group_name(key, g), steps: concat_steps(g) },
        )
    }
}

/// The graph after materializing the first `k` of the paths `ps`.
pub open spec fn build_paths_upto(g: GraphV, ps: Seq<PathV>, k: int) -> GraphV
    decreases k,
{
    if k <= 0 {
        g
    } else {
        build_path(build_paths_upto(g, ps, k - 1), ps[k - 1])
    }
}

/// The whole effect of reconciling one locus on the combined graph.
pub open spec fn reconcile_key_spec(g: GraphV, key: Seq<u8>, rs: Seq<RangeV>) -> GraphV {
    let sorted = sort_ranges_v(rs);
    let ps = reconciled_paths(key, sorted);
    build_paths_upto(g, ps, ps.len() as int)
}

/// One maximal contiguous run, as reported to the diagnostic stream.
pub struct MergedRange {
    pub start: usize,
    pub end: usize,
    pub gfa_ids: Vec<usize>,
}

/// Per-locus diagnostics: the classification of the sorted ranges and, for
/// an irregular locus, its merged runs and the gap before each later run.
pub struct LocusDiag {
    pub key: Vec<u8>,
    pub contiguous: bool,
    pub overlapping: bool,
    pub merged: Vec<MergedRange>,
    pub gaps: Vec<usize>,
}

/// The gap printed between two consecutive merged runs; an overlapping
/// break is reported as a gap of zero.
pub open spec fn gap_between(a: Seq<RangeV>, b: Seq<RangeV>) -> int
    recommends
        a.len() > 0 && b.len() > 0,
{
    if b[0].start >= a.last().end {
        b[0].start - a.last().end
    } else {
        0
    }
}

/// Appends all of `src` to `dst`.
fn push_all_steps(dst: &mut Vec<Step>, src: &Vec<Step>)
    ensures
        final(dst)@ == old(dst)@ + src@,
{
    let mut i: usize = 0;
    while i < src.len()
        invariant
            0 <= i <= src@.len(),
            dst@ =~= old(dst)@ + src@.subrange(0, i as int),
        decreases src@.len() - i,
    {
        dst.push(src[i]);
        i += 1;
    }
    proof {
        assert(src@.subrange(0, src@.len() as int) =~= src@);
    }
}

} // verus!

verus! {

/// Scans adjacent pairs of the sorted ranges and reports whether all are
/// contiguous and whether any overlap.
#[verifier::loop_isolation(false)]
fn classify_ranges(sorted: &Vec<RangeInfo>) -> (r: (bool, bool))
    ensures
        r.0 == all_contiguous(ranges_v(sorted@)),
        r.1 == any_adjacent_overlap(ranges_v(sorted@)),
{
    let ghost sv = ranges_v(sorted@);
    let mut contig = true;
    let mut ovl = false;
    let mut w: usize = 1;
    while w < sorted.len()
        invariant
            1 <= w,
            sv.len() > 0 ==> w <= sv.len(),
            sv.len() == 0 ==> w == 1,
            contig == (forall|i: int| 0 <= i < w - 1 ==> (#[trigger] sv[i]).end == sv[i + 1].start),
            ovl == (exists|i: int| 0 <= i < w - 1 && ranges_overlap(#[trigger] sv[i], sv[i + 1])),
        decreases sv.len() - w,
    {
        let pair_contig = is_contiguous(&sorted[w - 1], &sorted[w]);
        let pair_ovl = has_overlap(&sorted[w - 1], &sorted[w]);
        proof {
            assert(range_v(sorted@[w - 1]) == sv[w - 1]);
            assert(range_v(sorted@[w as int]) == sv[w as int]);
        }
        if !pair_contig {
            contig = false;
        }
        if pair_ovl {
            ovl = true;
            assert(ranges_overlap(sv[w - 1], sv[w as int]));
        }
        w += 1;
    }
    proof {
        assert(sorted@.len() == sv.len());
        if sv.len() > 1 {
            assert(w == sv.len());
        }
        if contig {
            assert(all_contiguous(sv));
        } else {
            assert(exists|i: int| 0 <= i < w - 1 && (#[trigger] sv[i]).end != sv[i + 1].start);
            let i0 = choose|i: int|
                0 <= i < w - 1 && (#[trigger] sv[i]).end != sv[i + 1].start;
            assert(w >= 2 && sv.len() > 0);
            assert(0 <= i0 < sv.len() - 1 && sv[i0].end != sv[i0 + 1].start);
            assert(!all_contiguous(sv));
        }
        if ovl {
            let i0 = choose|i: int| 0 <= i < w - 1 && ranges_overlap(#[trigger] sv[i], sv[i + 1]);
            assert(w >= 2 && sv.len() > 0);
            assert(0 <= i0 < sv.len() - 1 && ranges_overlap(sv[i0], sv[i0 + 1]));
            assert(any_adjacent_overlap(sv));
        } else {
            assert(!any_adjacent_overlap(sv));
        }
    }
    (contig, ovl)
}

/// Concatenates the steps of `sorted[from..to]` in order.
#[verifier::loop_isolation(false)]
fn concat_range_steps(sorted: &Vec<RangeInfo>, from: usize, to: usize) -> (steps: Vec<Step>)
    requires
        from <= to <= sorted@.len(),
    ensures
        steps@ == concat_steps(ranges_v(sorted@).subrange(from as int, to as int)),
{
    let ghost sv = ranges_v(sorted@);
    let mut steps: Vec<Step> = Vec::new();
    let mut idx: usize = from;
    proof {
        assert(steps@ =~= concat_steps(sv.subrange(from as int, from as int)));
    }
    while idx < to
        invariant
            from <= idx <= to,
            steps@ == concat_steps(sv.subrange(from as int, idx as int)),
        decreases to - idx,
    {
        push_all_steps(&mut steps, &sorted[idx].steps);
        proof {
            assert(sv.subrange(from as int, idx + 1).drop_last() =~= sv.subrange(
                from as int,
                idx as int,
            ));
            assert(sv.subrange(from as int, idx + 1).last() == sv[idx as int]);
            assert(range_v(sorted@[idx as int]) == sv[idx as int]);
        }
        idx += 1;
    }
    steps
}

/// Collapses one unbroken contiguous run into a single path named by the
/// bare locus key.
fn reconcile_single(g: &mut CombinedGraph, key: Vec<u8>, sorted: &Vec<RangeInfo>)
    requires
        graph_wf(old(g)@),
        all_contiguous(ranges_v(sorted@)) && !any_adjacent_overlap(ranges_v(sorted@)),
    ensures
        graph_wf(final(g)@),
        ({
            let ps = reconciled_paths(key@, ranges_v(sorted@));
            final(g)@ == build_paths_upto(old(g)@, ps, ps.len() as int)
        }),
{
    let ghost g0 = g@;
    let ghost sv = ranges_v(sorted@);
    let ghost ps = reconciled_paths(key@, sv);
    let steps = concat_range_steps(sorted, 0, sorted.len());
    proof {
        assert(sv.subrange(0, sv.len() as int) =~= sv);
    }
    let path = GraphPath { name: key, steps };
    proof {
        assert(path_v(path) == ps[0]);
    }
    g.add_path_with_edges(path);
    proof {
        assert(ps.len() == 1);
        assert(build_paths_upto(g0, ps, 0) == g0);
        assert(build_paths_upto(g0, ps, 1) == build_path(g0, ps[0]));
    }
}

/// Builds the name of a split sub-path: `key:start-end`.
fn make_group_name(key: &Vec<u8>, start: usize, end: usize) -> (nm: Vec<u8>)
    ensures
        nm@ == key@ + seq![58u8] + dec_digits(start as nat) + seq![45u8] + dec_digits(end as nat),
{
    let mut nm = crate::bytes::sub_bytes(key, 0, key.len());
    nm.push(58u8);
    push_usize_dec(&mut nm, start);
    nm.push(45u8);
    push_usize_dec(&mut nm, end);
    proof {
        assert(nm@ =~= key@ + seq![58u8] + dec_digits(start as nat) + seq![45u8] + dec_digits(
            end as nat,
        ));
    }
    nm
}

} // verus!

verus! {

/// Stepping one group forward: the greedy grouping of the remaining
/// ranges starts with exactly the run `sv[gstart..next]`.
proof fn lemma_group_step(sv: Seq<RangeV>, gs: Seq<Seq<RangeV>>, gidx: int, gstart: int, next: int)
    requires
        0 <= gstart < next <= sv.len(),
        0 <= gidx <= gs.len(),
        gs.skip(gidx) == groups(sv.skip(gstart)),
        forall|j: int| gstart < j < next ==> (#[trigger] sv[j - 1]).end == sv[j].start,
        next < sv.len() ==> sv[next - 1].end != sv[next].start,
    ensures
        gidx < gs.len(),
        gs[gidx] == sv.subrange(gstart, next),
        gs.skip(gidx + 1) == groups(sv.skip(next)),
        gs[gidx].len() > 0,
        gs[gidx][0] == sv[gstart],
        gs[gidx].last() == sv[next - 1],
{
    let tail = sv.skip(gstart);
    let k: int = next - gstart;
    assert forall|j: int| 1 <= j < k implies (#[trigger] tail[j - 1]).end == tail[j].start by {
        assert(tail[j - 1] == sv[gstart + j - 1]);
        assert(tail[j] == sv[gstart + j]);
        assert(sv[(gstart + j) - 1].end == sv[gstart + j].start);
    }
    if next < sv.len() {
        assert(tail[k - 1] == sv[next - 1] && tail[k] == sv[next]);
    }
    lemma_first_group_len_is(tail, k);
    assert(tail.take(k) =~= sv.subrange(gstart, next));
    assert(tail.skip(k) =~= sv.skip(next));
    assert(groups(tail) == seq![sv.subrange(gstart, next)] + groups(sv.skip(next)));
    assert(gs.skip(gidx).len() > 0);
    assert(gs.skip(gidx)[0] == gs[gidx]);
    assert(gs[gidx] == sv.subrange(gstart, next));
    assert(gs.skip(gidx).skip(1) =~= gs.skip(gidx + 1));
    assert((seq![sv.subrange(gstart, next)] + groups(sv.skip(next))).skip(1) =~= groups(
        sv.skip(next),
    ));
    assert(gs.skip(gidx + 1) == groups(sv.skip(next)));
    assert(gs[gidx][0] == sv[gstart]);
    assert(gs[gidx].last() == sv[next - 1]);
}

/// The mapping of a group to its output path.
pub open spec fn group_path(key: Seq<u8>, grp: Seq<RangeV>) -> PathV {
    PathV { name: group_name(key, grp), steps: concat_steps(grp) }
}

/// Emits one path per greedy contiguous group of an irregular locus and
/// collects its diagnostics: the merged runs and the gap before each later
/// run.
#[verifier::rlimit(100)]
fn reconcile_groups(g: &mut CombinedGraph, key: &Vec<u8>, sorted: &Vec<RangeInfo>, ovl: bool) -> (d:
    LocusDiag)
    requires
        graph_wf(old(g)@),
        sorted@.len() > 0,
        !(all_contiguous(ranges_v(sorted@)) && !any_adjacent_overlap(ranges_v(sorted@))),
        ovl == any_adjacent_overlap(ranges_v(sorted@)),
    ensures
        graph_wf(final(g)@),
        ({
            let ps = reconciled_paths(key@, ranges_v(sorted@));
            final(g)@ == build_paths_upto(old(g)@, ps, ps.len() as int)
        }),
        ({
            let gs = groups(ranges_v(sorted@));
            d.key@ == key@ && d.contiguous == false && d.overlapping == ovl && d.merged@.len()
                == gs.len() && d.gaps@.len() == gs.len() - 1 && (forall|t: int|
                0 <= t < gs.len() ==> (#[trigger] d.merged@[t]).start == gs[t][0].start
                    && d.merged@[t].end == gs[t].last().end && d.merged@[t].gfa_ids@
                    == gs[t].map_values(|r: RangeV| r.gfa_id)) && (forall|t: int|
                0 <= t < gs.len() - 1 ==> #[trigger] d.gaps@[t] as int == gap_between(
                    gs[t],
                    gs[t + 1],
                ))
        }),
{
    let ghost g0 = g@;
    let ghost sv = ranges_v(sorted@);
    let ghost ps = reconciled_paths(key@, sv);
    let ghost gs = groups(sv);
    let key_copy = crate::bytes::sub_bytes(key, 0, key.len());
    let mut merged: Vec<MergedRange> = Vec::new();
    let mut gaps: Vec<usize> = Vec::new();
    let mut idx: usize = 0;
    let ghost gidx: int = 0;
    proof {
        assert(sv.skip(0) =~= sv);
        assert(gs.skip(0) =~= gs);
        assert(build_paths_upto(g0, ps, 0) == g0);
        assert(ps =~= gs.map_values(|grp: Seq<RangeV>| group_path(key@, grp)));
    }
    while idx < sorted.len()
        invariant
            sv == ranges_v(sorted@),
            gs == groups(sv),
            ps == gs.map_values(|grp: Seq<RangeV>| group_path(key@, grp)),
            0 <= idx <= sv.len(),
            0 <= gidx <= gs.len(),
            (gidx == 0) == (idx == 0),
            gs.skip(gidx) == groups(sv.skip(idx as int)),
            graph_wf(g@),
            g@ == build_paths_upto(g0, ps, gidx),
            merged@.len() == gidx,
            gaps@.len() == (if gidx == 0 { 0int } else { gidx - 1 }),
            forall|t: int|
                0 <= t < gidx ==> (#[trigger] merged@[t]).start == gs[t][0].start && merged@[t].end
                    == gs[t].last().end && merged@[t].gfa_ids@ == gs[t].map_values(
                    |r: RangeV| r.gfa_id,
                ),
            forall|t: int|
                0 <= t < gidx - 1 ==> #[trigger] gaps@[t] as int == gap_between(gs[t], gs[t + 1]),
        decreases sv.len() - idx,
    {
        let gstart = idx;
        let mut ids: Vec<usize> = Vec::new();
        ids.push(sorted[gstart].gfa_id);
        let mut next = gstart + 1;
        proof {
            assert(range_v(sorted@[gstart as int]) == sv[gstart as int]);
            assert(ids@ =~= sv.subrange(gstart as int, next as int).map_values(
                |r: RangeV| r.gfa_id,
            ));
        }
        while next < sorted.len() && is_contiguous(&sorted[next - 1], &sorted[next])
            invariant
                sv == ranges_v(sorted@),
                gstart < next <= sv.len(),
                forall|j: int| gstart < j < next ==> (#[trigger] sv[j - 1]).end == sv[j].start,
                ids@ == sv.subrange(gstart as int, next as int).map_values(|r: RangeV| r.gfa_id),
            decreases sv.len() - next,
        {
            proof {
                assert(range_v(sorted@[next - 1]) == sv[next - 1]);
                assert(range_v(sorted@[next as int]) == sv[next as int]);
            }
            ids.push(sorted[next].gfa_id);
            proof {
                assert(sv.subrange(gstart as int, next + 1).map_values(|r: RangeV| r.gfa_id)
                    =~= sv.subrange(gstart as int, next as int).map_values(
                    |r: RangeV| r.gfa_id,
                ).push(sv[next as int].gfa_id));
            }
            next += 1;
        }
        let steps = concat_range_steps(sorted, gstart, next);
        proof {
            if next < sorted@.len() {
                assert(range_v(sorted@[next - 1]) == sv[next - 1]);
                assert(range_v(sorted@[next as int]) == sv[next as int]);
            }
            lemma_group_step(sv, gs, gidx, gstart as int, next as int);
            assert(range_v(sorted@[gstart as int]) == sv[gstart as int]);
            assert(range_v(sorted@[next - 1]) == sv[next - 1]);
        }
        if gstart > 0 {
            let prev_end = merged[merged.len() - 1].end;
            let cur_start = sorted[gstart].start;
            let gap: usize = if cur_start >= prev_end {
                cur_start - prev_end
            } else {
                0
            };
            gaps.push(gap);
            proof {
                assert(gidx >= 1);
                assert(gs[gidx - 1].last().end == prev_end);
                assert(gap as int == gap_between(gs[gidx - 1], gs[gidx]));
            }
        }
        let nm = make_group_name(key, sorted[gstart].start, sorted[next - 1].end);
        proof {
            assert(nm@ == group_name(key@, gs[gidx]));
        }
        merged.push(
            MergedRange { start: sorted[gstart].start, end: sorted[next - 1].end, gfa_ids: ids },
        );
        let path = GraphPath { name: nm, steps };
        proof {
            assert(ps[gidx] == group_path(key@, gs[gidx]));
            assert(path_v(path) == ps[gidx]);
        }
        g.add_path_with_edges(path);
        idx = next;
        proof {
            gidx = gidx + 1;
            assert(g@ == build_paths_upto(g0, ps, gidx));
        }
    }
    proof {
        assert(sv.skip(sv.len() as int) =~= Seq::<RangeV>::empty());
        assert(gs.skip(gidx).len() == 0);
        assert(gidx == gs.len());
        assert(ps.len() == gs.len());
        assert(ps == reconciled_paths(key@, sv));
    }
    LocusDiag { key: key_copy, contiguous: false, overlapping: ovl, merged, gaps }
}

/// What the diagnostics of one locus must say about its sorted ranges:
/// the classification flags, and for an irregular locus one merged record
/// per greedy group and the gap before each later group.
pub open spec fn diag_ok(d: LocusDiag, key: Seq<u8>, rs: Seq<RangeV>) -> bool {
    let sorted = sort_ranges_v(rs);
    let gs = groups(sorted);
    d.key@ == key && d.contiguous == (all_contiguous(sorted) && !any_adjacent_overlap(sorted))
        && d.overlapping == any_adjacent_overlap(sorted) && (if d.contiguous {
        d.merged@.len() == 0 && d.gaps@.len() == 0
    } else {
        d.merged@.len() == gs.len() && d.gaps@.len() == gs.len() - 1 && (forall|t: int|
            0 <= t < gs.len() ==> (#[trigger] d.merged@[t]).start == gs[t][0].start
                && d.merged@[t].end == gs[t].last().end && d.merged@[t].gfa_ids@
                == gs[t].map_values(|r: RangeV| r.gfa_id)) && (forall|t: int|
            0 <= t < gs.len() - 1 ==> #[trigger] d.gaps@[t] as int == gap_between(gs[t], gs[t + 1]))
    })
}

/// Reconciles the ranges of one locus key into the combined graph: sorts
/// them by `(start, end)`, collapses an unbroken contiguous run into one
/// path named by the bare key, and otherwise emits one path per greedy
/// contiguous group, named `key:group_start-group_end`. Returns the locus
/// diagnostics.
pub fn reconcile_key(g: &mut CombinedGraph, key: Vec<u8>, ranges: Vec<RangeInfo>) -> (d: LocusDiag)
    requires
        graph_wf(old(g)@),
        ranges@.len() > 0,
    ensures
        graph_wf(final(g)@),
        final(g)@ == reconcile_key_spec(old(g)@, key@, ranges_v(ranges@)),
        diag_ok(d, key@, ranges_v(ranges@)),
{
    let sorted = sort_ranges(ranges);
    let (contig, ovl) = classify_ranges(&sorted);
    if contig && !ovl {
        let key_copy = crate::bytes::sub_bytes(&key, 0, key.len());
        proof {
            assert(key_copy@ =~= key@);
        }
        reconcile_single(g, key, &sorted);
        LocusDiag {
            key: key_copy,
            contiguous: true,
            overlapping: false,
            merged: Vec::new(),
            gaps: Vec::new(),
        }
    } else {
        reconcile_groups(g, &key, &sorted, ovl)
    }
}

} // verus!
