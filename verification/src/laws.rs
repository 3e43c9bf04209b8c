//! The library-level laws: id translation is injective, edge insertion is
//! idempotent and never duplicates, an unbroken contiguous locus collapses
//! to one bare-key path, a gap or an overlap splits a locus, and the whole
//! pipeline is a function of the blocks' content.

use vstd::prelude::*;

use crate::graph::{
    Step, GraphEdge, PathV, GraphV, edge_lt, edges_sorted, insert_edge_v, build_path,
    lemma_edge_lt_trichotomy, lemma_edge_lt_transitive,
};
use crate::reconcile::{
    RangeV, range_leq, ranges_sorted, ranges_overlap, all_contiguous, any_adjacent_overlap,
    sort_ranges_v, concat_steps, first_group_len, groups, group_name, reconciled_paths, lemma_first_group_len,
    build_paths_upto, reconcile_key_spec, lemma_sort_of_sorted,
};
use crate::translate::BlockV;
use crate::name::{find_byte, spec_split_path_name, lemma_find_byte_props, lemma_find_byte_at, lemma_find_byte_none};
use crate::bytes::{dec_digits, digits_val, lemma_dec_digits_value};
use crate::pipeline::{total_nodes, lemma_total_nodes_monotone, lace_spec};
use crate::serialize::render_graph;

verus! {

/// Translation injectivity, first half: the id ranges handed to two
/// different blocks never meet, because each block's range starts at the
/// running total of the node counts before it.
pub proof fn lemma_translation_injective(bs: Seq<BlockV>, i: int, j: int, id: int)
    requires
        0 <= i < j < bs.len(),
        total_nodes(bs, i) < id <= total_nodes(bs, i) + bs[i].sequences.len(),
    ensures
        !(total_nodes(bs, j) < id <= total_nodes(bs, j) + bs[j].sequences.len()),
{
    assert(total_nodes(bs, i + 1) == total_nodes(bs, i) + bs[i].sequences.len());
    lemma_total_nodes_monotone(bs, i + 1, j);
}

/// Translation injectivity, second half: after folding in `k` blocks the
/// combined graph holds exactly the sum of their node counts, and the
/// node at position `w` carries id `w + 1`, so no two nodes collide.
pub proof fn lemma_translated_ids_dense(bs: Seq<BlockV>, k: int)
    requires
        0 <= k <= bs.len(),
        total_nodes(bs, k) <= u64::MAX,
    ensures
        ({
            let st = crate::pipeline::integrate_all(
                crate::pipeline::LaceState {
                    g: crate::pipeline::empty_graph(),
                    idx: Seq::empty(),
                },
                bs,
                k,
            );
            st.g.nodes.len() == total_nodes(bs, k) && (forall|w: int|
                0 <= w < st.g.nodes.len() ==> (#[trigger] st.g.nodes[w]).id == w + 1)
        }),
    decreases k,
{
    crate::pipeline::lemma_integrated_node_count(
        crate::pipeline::LaceState { g: crate::pipeline::empty_graph(), idx: Seq::empty() },
        bs,
        k,
    );
    if k > 0 {
        lemma_total_nodes_monotone(bs, k - 1, k);
        lemma_translated_ids_dense(bs, k - 1);
        let p = crate::pipeline::integrate_all(
            crate::pipeline::LaceState { g: crate::pipeline::empty_graph(), idx: Seq::empty() },
            bs,
            k - 1,
        );
        let q = crate::pipeline::integrate_all(
            crate::pipeline::LaceState { g: crate::pipeline::empty_graph(), idx: Seq::empty() },
            bs,
            k,
        );
        let off = p.g.nodes.len() as int;
        assert forall|w: int| 0 <= w < q.g.nodes.len() implies (#[trigger] q.g.nodes[w]).id == w
            + 1 by {
            if w < off {
                assert(q.g.nodes[w] == p.g.nodes[w]);
            } else {
                assert(q.g.nodes[w] == crate::translate::translated_nodes(
                    bs[k - 1].sequences,
                    off,
                )[w - off]);
            }
        }
    }
}

/// How many times an edge occurs in an edge list.
pub open spec fn count_edge(s: Seq<GraphEdge>, x: GraphEdge) -> nat
    decreases s.len(),
{
    if s.len() == 0 {
        0
    } else {
        count_edge(s.drop_last(), x) + (if s.last() == x {
            1nat
        } else {
            0nat
        })
    }
}

proof fn lemma_count_pos_iff_contains(s: Seq<GraphEdge>, x: GraphEdge)
    ensures
        (count_edge(s, x) > 0) == s.contains(x),
    decreases s.len(),
{
    if s.len() > 0 {
        lemma_count_pos_iff_contains(s.drop_last(), x);
        if s.last() == x {
            assert(s[s.len() - 1] == x);
        }
        if count_edge(s.drop_last(), x) > 0 {
            let i = choose|i: int| 0 <= i < s.drop_last().len() && s.drop_last()[i] == x;
            assert(s[i] == x);
        }
        if s.contains(x) {
            let i = choose|i: int| 0 <= i < s.len() && s[i] == x;
            if i < s.len() - 1 {
                assert(s.drop_last()[i] == x);
                assert(s.drop_last().contains(x));
            }
        }
    }
}

proof fn lemma_edges_global_sorted(s: Seq<GraphEdge>, i: int, j: int)
    requires
        edges_sorted(s),
        0 <= i < j < s.len(),
    ensures
        edge_lt(s[i], s[j]),
    decreases j - i,
{
    if i + 1 < j {
        lemma_edges_global_sorted(s, i, j - 1);
        lemma_edge_lt_transitive(s[i], s[j - 1], s[j]);
    }
}

/// A sorted edge list holds any edge at most once.
pub proof fn lemma_sorted_count_le_one(s: Seq<GraphEdge>, x: GraphEdge)
    requires
        edges_sorted(s),
    ensures
        count_edge(s, x) <= 1,
    decreases s.len(),
{
    if s.len() > 0 {
        assert(edges_sorted(s.drop_last()));
        lemma_sorted_count_le_one(s.drop_last(), x);
        if s.last() == x && count_edge(s.drop_last(), x) > 0 {
            lemma_count_pos_iff_contains(s.drop_last(), x);
            let i = choose|i: int| 0 <= i < s.drop_last().len() && s.drop_last()[i] == x;
            assert(s[i] == x);
            lemma_edges_global_sorted(s, i, s.len() - 1);
            lemma_edge_lt_trichotomy(s[i], s.last());
            assert(false);
        }
    }
}

/// The inserted edge is in the result.
pub proof fn lemma_insert_edge_contains(s: Seq<GraphEdge>, x: GraphEdge)
    ensures
        insert_edge_v(s, x).contains(x),
    decreases s.len(),
{
    if s.len() > 0 && edge_lt(x, s.last()) {
        lemma_insert_edge_contains(s.drop_last(), x);
        let t = insert_edge_v(s.drop_last(), x);
        let i = choose|i: int| 0 <= i < t.len() && t[i] == x;
        assert(t.push(s.last())[i] == x);
        assert(insert_edge_v(s, x).contains(x));
    } else if s.len() > 0 && s.last() == x {
        assert(s[s.len() - 1] == x);
    } else {
        assert(s.push(x)[s.len() as int] == x);
    }
}

/// Inserting an edge keeps the list sorted.
pub proof fn lemma_insert_edge_sorted(s: Seq<GraphEdge>, x: GraphEdge)
    requires
        edges_sorted(s),
    ensures
        edges_sorted(insert_edge_v(s, x)),
        insert_edge_v(s, x).len() > 0,
        insert_edge_v(s, x).last() == x || (s.len() > 0 && insert_edge_v(s, x).last() == s.last()),
    decreases s.len(),
{
    if s.len() > 0 && edge_lt(x, s.last()) {
        assert(edges_sorted(s.drop_last()));
        lemma_insert_edge_sorted(s.drop_last(), x);
        let u = insert_edge_v(s.drop_last(), x);
        let t = u.push(s.last());
        if s.len() > 1 {
            assert(edge_lt(s[s.len() - 2], s[s.len() - 1]));
        }
        assert forall|i: int| 0 <= i < t.len() - 1 implies edge_lt(#[trigger] t[i], t[i + 1]) by {
            if i + 1 < t.len() - 1 {
                assert(t[i] == u[i] && t[i + 1] == u[i + 1]);
            } else {
                assert(t[i] == u.last() && t[i + 1] == s.last());
            }
        }
    } else if s.len() > 0 && s.last() == x {
    } else {
        let t = s.push(x);
        if s.len() > 0 {
            lemma_edge_lt_trichotomy(x, s.last());
        }
        assert forall|i: int| 0 <= i < t.len() - 1 implies edge_lt(#[trigger] t[i], t[i + 1]) by {
            if i + 1 < t.len() - 1 {
                assert(t[i] == s[i] && t[i + 1] == s[i + 1]);
            }
        }
    }
}

/// Edge de-duplication is idempotent: inserting the same ordered oriented
/// edge a second time changes nothing.
pub proof fn lemma_edge_dedup_idempotent(s: Seq<GraphEdge>, x: GraphEdge)
    ensures
        insert_edge_v(insert_edge_v(s, x), x) == insert_edge_v(s, x),
    decreases s.len(),
{
    if s.len() > 0 && edge_lt(x, s.last()) {
        lemma_edge_dedup_idempotent(s.drop_last(), x);
        let t = insert_edge_v(s, x);
        assert(t.last() == s.last());
        assert(t.drop_last() =~= insert_edge_v(s.drop_last(), x));
    } else if s.len() > 0 && s.last() == x {
    } else {
        let t = s.push(x);
        assert(t.last() == x);
    }
}

/// Adding an edge to a sorted, duplicate-free list — once or twice —
/// leaves exactly one copy of it.
pub proof fn lemma_edge_dedup_exactly_once(s: Seq<GraphEdge>, x: GraphEdge)
    requires
        edges_sorted(s),
    ensures
        count_edge(insert_edge_v(insert_edge_v(s, x), x), x) == 1,
{
    lemma_edge_dedup_idempotent(s, x);
    lemma_insert_edge_sorted(s, x);
    lemma_insert_edge_contains(s, x);
    lemma_count_pos_iff_contains(insert_edge_v(s, x), x);
    lemma_sorted_count_le_one(insert_edge_v(s, x), x);
}

/// Full reconstruction: when the sorted ranges of a locus form one
/// unbroken contiguous run with no overlap, reconciliation adds exactly
/// one path, named by the bare key, whose steps are the ranges' steps
/// concatenated in coordinate order.
pub proof fn lemma_full_reconstruction(g: GraphV, key: Seq<u8>, rs: Seq<RangeV>)
    requires
        rs.len() >= 1,
        ranges_sorted(rs),
        all_contiguous(rs),
        !any_adjacent_overlap(rs),
    ensures
        reconcile_key_spec(g, key, rs) == build_path(
            g,
            PathV { name: key, steps: concat_steps(rs) },
        ),
{
    lemma_sort_of_sorted(rs);
    let ps = reconciled_paths(key, rs);
    assert(ps.len() == 1);
    assert(build_paths_upto(g, ps, 0) == g);
    assert(build_paths_upto(g, ps, 1) == build_path(g, ps[0]));
}

/// Two sorted ranges that do not meet end-to-start become two separate
/// paths, each named by its own extent.
pub proof fn lemma_two_ranges_split(g: GraphV, key: Seq<u8>, a: RangeV, b: RangeV)
    requires
        range_leq(a, b),
        a.end != b.start,
    ensures
        ({
            let pa = PathV { name: group_name(key, seq![a]), steps: a.steps };
            let pb = PathV { name: group_name(key, seq![b]), steps: b.steps };
            reconcile_key_spec(g, key, seq![a, b]) == build_path(build_path(g, pa), pb)
        }),
{
    let rs = seq![a, b];
    assert(ranges_sorted(rs)) by {
        assert(rs[0] == a && rs[1] == b);
    }
    lemma_sort_of_sorted(rs);
    assert(rs[0].end != rs[1].start);
    assert(!all_contiguous(rs));
    assert(first_group_len(rs) == 1);
    let tail = rs.skip(1);
    assert(tail.len() == 1 && tail[0] == b);
    assert(first_group_len(tail) == 1);
    assert(tail.skip(1) =~= Seq::<RangeV>::empty());
    assert(groups(tail) == seq![tail.take(1)] + groups(tail.skip(1)));
    assert(groups(rs) == seq![rs.take(1)] + groups(tail));
    let ga = rs.take(1);
    let gb = tail.take(1);
    assert(ga =~= seq![a]);
    assert(gb =~= seq![b]);
    assert(groups(rs) =~= seq![ga, gb]);
    let ps = reconciled_paths(key, rs);
    assert(ps.len() == 2);
    assert(concat_steps(ga) =~= a.steps) by {
        assert(ga.drop_last() =~= Seq::<RangeV>::empty());
        assert(concat_steps(ga.drop_last()) == Seq::<Step>::empty());
        assert(ga.last() == a);
        assert(Seq::<Step>::empty() + a.steps =~= a.steps);
    }
    assert(concat_steps(gb) =~= b.steps) by {
        assert(gb.drop_last() =~= Seq::<RangeV>::empty());
        assert(concat_steps(gb.drop_last()) == Seq::<Step>::empty());
        assert(gb.last() == b);
        assert(Seq::<Step>::empty() + b.steps =~= b.steps);
    }
    assert(ps[0] == (PathV { name: group_name(key, ga), steps: concat_steps(ga) }));
    assert(ps[1] == (PathV { name: group_name(key, gb), steps: concat_steps(gb) }));
    assert(group_name(key, ga) == group_name(key, seq![a]));
    assert(build_paths_upto(g, ps, 0) == g);
    assert(build_paths_upto(g, ps, 1) == build_path(g, ps[0]));
    assert(build_paths_upto(g, ps, 2) == build_path(build_path(g, ps[0]), ps[1]));
}

/// Gap splitting: two ranges separated by a gap are never spliced; each
/// becomes its own path named by its extent.
pub proof fn lemma_gap_splitting(g: GraphV, key: Seq<u8>, a: RangeV, b: RangeV)
    requires
        range_leq(a, b),
        a.end < b.start,
    ensures
        ({
            let pa = PathV { name: group_name(key, seq![a]), steps: a.steps };
            let pb = PathV { name: group_name(key, seq![b]), steps: b.steps };
            reconcile_key_spec(g, key, seq![a, b]) == build_path(build_path(g, pa), pb)
        }),
{
    lemma_two_ranges_split(g, key, a, b);
}

/// Overlap handling: two overlapping ranges are flagged — the sorted pair
/// satisfies the overlap predicate that the diagnostics report — and they
/// are not merged into one unbroken path: each becomes its own path.
pub proof fn lemma_overlap_handling(g: GraphV, key: Seq<u8>, a: RangeV, b: RangeV)
    requires
        range_leq(a, b),
        ranges_overlap(a, b),
    ensures
        any_adjacent_overlap(sort_ranges_v(seq![a, b])),
        ({
            let pa = PathV { name: group_name(key, seq![a]), steps: a.steps };
            let pb = PathV { name: group_name(key, seq![b]), steps: b.steps };
            reconcile_key_spec(g, key, seq![a, b]) == build_path(build_path(g, pa), pb)
        }),
{
    let rs = seq![a, b];
    assert(a.end != b.start);
    lemma_two_ranges_split(g, key, a, b);
    assert(ranges_sorted(rs)) by {
        assert(rs[0] == a && rs[1] == b);
    }
    lemma_sort_of_sorted(rs);
    assert(ranges_overlap(rs[0], rs[1]));
    assert(any_adjacent_overlap(rs));
}

/// Determinism: the serialized output is an exact function of the loaded
/// blocks' content, so two runs over equal blocks in the same order give
/// byte-identical output.
pub proof fn lemma_pipeline_deterministic(bs1: Seq<BlockV>, bs2: Seq<BlockV>)
    requires
        bs1 == bs2,
    ensures
        render_graph(lace_spec(bs1)) == render_graph(lace_spec(bs2)),
{
}

} // verus!

verus! {

/// Round-trip stability of the names the reconciler writes: a sub-path
/// name `key:start-end` parses back to exactly the same key and bounds,
/// for any key of the locus shape — two `#` separators, and no further
/// `#` or `:` after the second separator. Keys extracted by the name
/// parser have that shape, so a split path's extent survives a
/// serialize-and-reload cycle exactly.
#[verifier::rlimit(100)]
pub proof fn lemma_group_name_reparses(key: Seq<u8>, grp: Seq<RangeV>)
    requires
        grp.len() > 0,
        find_byte(key, 35u8) >= 0,
        find_byte(key.skip(find_byte(key, 35u8) + 1), 35u8) >= 0,
        ({
            let h1 = find_byte(key, 35u8);
            let h2 = h1 + 1 + find_byte(key.skip(h1 + 1), 35u8);
            find_byte(key.skip(h2 + 1), 35u8) == -1 && find_byte(key.skip(h2 + 1), 58u8) == -1
        }),
    ensures
        spec_split_path_name(group_name(key, grp)) == Some(
            (key, grp[0].start as int, grp.last().end as int),
        ),
{
    let st = grp[0].start as nat;
    let en = grp.last().end as nat;
    let d1 = dec_digits(st);
    let d2 = dec_digits(en);
    lemma_dec_digits_value(st);
    lemma_dec_digits_value(en);
    let s = group_name(key, grp);
    let kl = key.len() as int;
    let l1 = d1.len() as int;
    let l2 = d2.len() as int;
    assert(l1 >= 1 && l2 >= 1);
    assert(s.len() == kl + 1 + l1 + 1 + l2);
    assert forall|j: int| 0 <= j < s.len() implies #[trigger] s[j] == (if j < kl {
        key[j]
    } else if j == kl {
        58u8
    } else if j < kl + 1 + l1 {
        d1[j - kl - 1]
    } else if j == kl + 1 + l1 {
        45u8
    } else {
        d2[j - kl - 2 - l1]
    }) by {}

    let h1 = find_byte(key, 35u8);
    let h2r = find_byte(key.skip(h1 + 1), 35u8);
    let h2 = h1 + 1 + h2r;
    lemma_find_byte_props(key, 35u8);
    lemma_find_byte_props(key.skip(h1 + 1), 35u8);
    lemma_find_byte_props(key.skip(h2 + 1), 35u8);
    lemma_find_byte_props(key.skip(h2 + 1), 58u8);
    assert(h2 < kl);

    // the first two separators of the name are those of the key
    assert(s[h1] == 35u8);
    lemma_find_byte_at(s, 35u8, h1);
    let t1 = s.skip(h1 + 1);
    assert forall|j: int| 0 <= j < t1.len() implies #[trigger] t1[j] == s[h1 + 1 + j] by {}
    assert(t1[h2r] == key.skip(h1 + 1)[h2r]);
    assert forall|j: int| 0 <= j < h2r implies t1[j] != 35u8 by {
        assert(t1[j] == key[h1 + 1 + j]);
        assert(key.skip(h1 + 1)[j] == key[h1 + 1 + j]);
    }
    lemma_find_byte_at(t1, 35u8, h2r);

    // no third separator anywhere behind the second
    let t2 = s.skip(h2 + 1);
    assert forall|j: int| 0 <= j < t2.len() implies #[trigger] t2[j] == s[h2 + 1 + j] by {}
    assert forall|j: int| 0 <= j < t2.len() implies t2[j] != 35u8 by {
        if h2 + 1 + j < kl {
            assert(t2[j] == key[h2 + 1 + j]);
            assert(key.skip(h2 + 1)[j] == key[h2 + 1 + j]);
        }
    }
    lemma_find_byte_none(t2, 35u8);

    // the first colon behind the second separator is the appended one
    assert(t2[kl - h2 - 1] == s[kl]);
    assert forall|j: int| 0 <= j < kl - h2 - 1 implies t2[j] != 58u8 by {
        assert(t2[j] == key[h2 + 1 + j]);
        assert(key.skip(h2 + 1)[j] == key[h2 + 1 + j]);
    }
    lemma_find_byte_at(t2, 58u8, kl - h2 - 1);
    let c = h2 + 1 + (kl - h2 - 1);
    assert(c == kl);

    // no colon after it
    let t3 = s.skip(c + 1);
    assert forall|j: int| 0 <= j < t3.len() implies #[trigger] t3[j] == s[c + 1 + j] by {}
    assert forall|j: int| 0 <= j < t3.len() implies t3[j] != 58u8 by {}
    lemma_find_byte_none(t3, 58u8);

    // the first dash after the colon is the appended one
    assert(t3[l1] == 45u8);
    assert forall|j: int| 0 <= j < l1 implies t3[j] != 45u8 by {
        assert(t3[j] == d1[j]);
    }
    lemma_find_byte_at(t3, 45u8, l1);
    let d = c + 1 + l1;

    // no dash after it
    let t4 = s.skip(d + 1);
    assert forall|j: int| 0 <= j < t4.len() implies #[trigger] t4[j] == s[d + 1 + j] by {}
    assert forall|j: int| 0 <= j < t4.len() implies t4[j] != 45u8 by {
        assert(t4[j] == d2[j]);
    }
    lemma_find_byte_none(t4, 45u8);

    // the two bound fields are exactly the printed digits
    assert(s.subrange(c + 1, d) =~= d1);
    assert(s.subrange(d + 1, s.len() as int) =~= d2);
    assert(s.subrange(0, c) =~= key);
    assert(digits_val(d1) <= usize::MAX && digits_val(d2) <= usize::MAX);
}

} // verus!

verus! {

/// The greedy grouping is a partition: reading the groups in order gives
/// back exactly the sorted ranges, so every range's steps appear in
/// exactly one output path, in their original order.
pub proof fn lemma_groups_partition(rs: Seq<RangeV>)
    ensures
        groups(rs).flatten() == rs,
    decreases rs.len(),
{
    if rs.len() == 0 {
        assert(groups(rs).flatten() =~= rs);
    } else {
        lemma_first_group_len(rs);
        let k = first_group_len(rs);
        lemma_groups_partition(rs.skip(k));
        let gs = groups(rs);
        assert(gs == seq![rs.take(k)] + groups(rs.skip(k)));
        assert(gs.first() == rs.take(k));
        assert(gs.drop_first() =~= groups(rs.skip(k)));
        assert(gs.flatten() == rs.take(k) + groups(rs.skip(k)).flatten());
        assert(rs.take(k) + rs.skip(k) =~= rs);
    }
}

} // verus!
