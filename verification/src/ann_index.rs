//! The approximate nearest neighbors index: deduplicated vector store,
//! external-id mapping, and a forest of independently built partition
//! trees, with `build` and `search`.

use vstd::prelude::*;

use crate::hyperplane::{point_above, HyperPlane};
use crate::single::neg_bits;
use crate::tree::{
    tree_dims_ok, tree_indices, tree_indices_ok, tree_leaf_bound, tree_wf, InnerNode, LeafNode,
    TreeNode,
};
use crate::vector::{
    avg_vec_bits, dot_bits, sq_dist_bits, sub_vec_bits, HashKey, Vector,
};

verus! {

/// The error conditions that `build` and `search` surface.
#[derive(Clone, Copy, Debug, PartialEq, Eq, Structural)]
pub enum IndexError {
    /// The vector and id sequences passed to `build` disagree in length,
    /// the vectors disagree among themselves in dimensionality, or a
    /// query disagrees with the index's dimensionality.
    InvalidInput,
    /// The configured maximum leaf size cannot terminate the recursive
    /// split, or a negative result count was requested.
    InvalidConfiguration,
}

/// One search result: the caller-supplied external id, the squared
/// Euclidean distance to the query (an IEEE single-precision bit
/// pattern), and a copy of the stored vector.
#[derive(Clone, Debug)]
pub struct ApproximateNearestNeighborsSearchResult {
    pub vector_id: i32,
    pub distance: u32,
    pub vector: Vector,
}

/// An index of vectors searchable for approximate nearest neighbors.
/// It owns a deduplicated vector store (position = internal id), the
/// parallel sequence of external ids, and the forest of tree roots; it
/// is immutable after `build`.
pub struct ApproximateNearestNeighborsIndex {
    vectors: Vec<Vector>,
    ids: Vec<i32>,
    trees: Vec<TreeNode>,
}

/// The sequence `0, 1, ..., n - 1` of internal ids.
pub open spec fn range_usize_seq(n: nat) -> Seq<usize> {
    Seq::new(n, |i: int| i as usize)
}

/// First-occurrence deduplication of a sequence of coordinate-bit
/// sequences: an element is kept exactly when no earlier element is
/// bit-identical to it, in input order.
pub open spec fn dedup_vec_bits(vs: Seq<Seq<u32>>) -> Seq<Seq<u32>>
    decreases vs.len(),
{
    if vs.len() == 0 {
        Seq::empty()
    } else {
        let rest = dedup_vec_bits(vs.drop_last());
        if vs.drop_last().contains(vs.last()) {
            rest
        } else {
            rest.push(vs.last())
        }
    }
}

/// The external ids that first-occurrence deduplication keeps: the id at
/// each kept position, in the same order as `dedup_vec_bits`.
pub open spec fn dedup_id_seq(vs: Seq<Seq<u32>>, ids: Seq<i32>) -> Seq<i32>
    decreases vs.len(),
{
    if vs.len() == 0 {
        Seq::empty()
    } else {
        let rest = dedup_id_seq(vs.drop_last(), ids.drop_last());
        if vs.drop_last().contains(vs.last()) {
            rest
        } else {
            rest.push(ids.last())
        }
    }
}

/// The coordinate-bit sequences of a sequence of vectors.
pub open spec fn seq_bits(vs: Seq<Vector>) -> Seq<Seq<u32>> {
    vs.map_values(|v: Vector| v@)
}

/// The dimensionality that a store dictates: that of its first vector,
/// or zero for an empty store.
pub open spec fn dim_of(vs: Seq<Vector>) -> int {
    if vs.len() == 0 {
        0
    } else {
        vs[0]@.len() as int
    }
}

/// Whether every vector of the store has the store's dimensionality.
pub open spec fn dims_uniform(vs: Seq<Vector>) -> bool {
    forall|i: int| 0 <= i < vs.len() ==> (#[trigger] vs[i])@.len() == dim_of(vs)
}

proof fn lemma_dedup_contains(vs: Seq<Seq<u32>>, x: Seq<u32>)
    ensures
        dedup_vec_bits(vs).contains(x) <==> vs.contains(x),
    decreases vs.len(),
{
    if vs.len() > 0 {
        lemma_dedup_contains(vs.drop_last(), x);
        let d = vs.drop_last();
        let rest = dedup_vec_bits(d);
        assert(vs.contains(x) <==> d.contains(x) || x == vs.last()) by {
            if vs.contains(x) {
                let i = choose|i: int| 0 <= i < vs.len() && vs[i] == x;
                if i < vs.len() - 1 {
                    assert(d[i] == x);
                }
            }
            if d.contains(x) {
                let i = choose|i: int| 0 <= i < d.len() && d[i] == x;
                assert(vs[i] == x);
            }
            if x == vs.last() {
                assert(vs[vs.len() - 1] == x);
            }
        }
        if d.contains(vs.last()) {
            if x == vs.last() {
                assert(d.contains(x));
            }
        } else {
            assert(rest.push(vs.last()).contains(x) <==> rest.contains(x) || x == vs.last()) by {
                if rest.push(vs.last()).contains(x) {
                    let i = choose|i: int|
                        0 <= i < rest.push(vs.last()).len() && rest.push(vs.last())[i] == x;
                    if i < rest.len() {
                        assert(rest[i] == x);
                    }
                }
                if rest.contains(x) {
                    let i = choose|i: int| 0 <= i < rest.len() && rest[i] == x;
                    assert(rest.push(vs.last())[i] == x);
                }
                assert(rest.push(vs.last())[rest.len() as int] == vs.last());
            }
        }
    }
}

proof fn lemma_dedup_no_duplicates(vs: Seq<Seq<u32>>)
    ensures
        dedup_vec_bits(vs).no_duplicates(),
    decreases vs.len(),
{
    if vs.len() > 0 {
        lemma_dedup_no_duplicates(vs.drop_last());
        if !vs.drop_last().contains(vs.last()) {
            lemma_dedup_contains(vs.drop_last(), vs.last());
            let rest = dedup_vec_bits(vs.drop_last());
            assert forall|i: int, j: int|
                0 <= i < rest.push(vs.last()).len() && 0 <= j < rest.push(vs.last()).len() && i
                    != j implies rest.push(vs.last())[i] != rest.push(vs.last())[j] by {
                if i < rest.len() && j < rest.len() {
                    assert(rest[i] != rest[j]);
                } else if i < rest.len() {
                    assert(rest.contains(rest[i]));
                } else if j < rest.len() {
                    assert(rest.contains(rest[j]));
                }
            }
        }
    }
}

proof fn lemma_dedup_id_len(vs: Seq<Seq<u32>>, ids: Seq<i32>)
    requires
        ids.len() == vs.len(),
    ensures
        dedup_id_seq(vs, ids).len() == dedup_vec_bits(vs).len(),
    decreases vs.len(),
{
    if vs.len() > 0 {
        lemma_dedup_id_len(vs.drop_last(), ids.drop_last());
    }
}

/// Whether the pair of a vector's bits `v` and an external id `id` is
/// exactly what some first occurrence in the input carries: `v` stands
/// at a position with no earlier bit-identical vector, beside `id`.
pub open spec fn kept_from_first(vs: Seq<Seq<u32>>, ids: Seq<i32>, v: Seq<u32>, id: i32) -> bool {
    exists|p: int|
        0 <= p < vs.len() && #[trigger] vs[p] == v && id == ids[p] && (forall|q: int|
            0 <= q < p ==> vs[q] != vs[p])
}

/// Deduplication keeps, at every kept position, a first occurrence of
/// that exact bit pattern in the input, paired with the external id that
/// stood beside it.
pub proof fn lemma_dedup_first_occurrence(vs: Seq<Seq<u32>>, ids: Seq<i32>)
    requires
        ids.len() == vs.len(),
    ensures
        forall|j: int|
            0 <= j < dedup_vec_bits(vs).len() ==> kept_from_first(
                vs,
                ids,
                dedup_vec_bits(vs)[j],
                #[trigger] dedup_id_seq(vs, ids)[j],
            ),
    decreases vs.len(),
{
    lemma_dedup_id_len(vs, ids);
    if vs.len() > 0 {
        lemma_dedup_first_occurrence(vs.drop_last(), ids.drop_last());
        lemma_dedup_id_len(vs.drop_last(), ids.drop_last());
        let rest = dedup_vec_bits(vs.drop_last());
        let rest_ids = dedup_id_seq(vs.drop_last(), ids.drop_last());
        let d = vs.drop_last();
        let id_d = ids.drop_last();
        assert forall|j: int| 0 <= j < dedup_vec_bits(vs).len() implies kept_from_first(
            vs,
            ids,
            dedup_vec_bits(vs)[j],
            #[trigger] dedup_id_seq(vs, ids)[j],
        ) by {
            if j < rest.len() {
                assert(kept_from_first(d, id_d, rest[j], rest_ids[j]));
                let p = choose|p: int|
                    0 <= p < d.len() && #[trigger] d[p] == rest[j] && rest_ids[j] == id_d[p] && (
                    forall|q: int| 0 <= q < p ==> d[q] != d[p]);
                assert(vs[p] == d[p]);
                assert(ids[p] == id_d[p]);
                assert(vs[p] == dedup_vec_bits(vs)[j]);
                assert(dedup_id_seq(vs, ids)[j] == ids[p]);
                assert forall|q: int| 0 <= q < p implies vs[q] != vs[p] by {
                    assert(vs[q] == d[q]);
                    assert(d[q] != d[p]);
                }
            } else {
                let p = vs.len() - 1;
                assert(!d.contains(vs.last()));
                assert(vs[p] == dedup_vec_bits(vs)[j]);
                assert(dedup_id_seq(vs, ids)[j] == ids[p]);
                assert forall|q: int| 0 <= q < p implies vs[q] != vs[p] by {
                    assert(vs[q] == d[q]);
                    if vs[q] == vs[p] {
                        assert(d.contains(vs.last()));
                    }
                }
            }
        }
    }
}

/// Deduplication keeps exactly one vector per distinct bit pattern: its
/// length is the number of distinct coordinate-bit sequences in the
/// input, and membership is unchanged.
pub proof fn lemma_dedup_distinct_count(vs: Seq<Seq<u32>>)
    ensures
        dedup_vec_bits(vs).len() == vs.to_set().len(),
        dedup_vec_bits(vs).no_duplicates(),
        forall|x: Seq<u32>| #[trigger] dedup_vec_bits(vs).contains(x) <==> vs.contains(x),
{
    lemma_dedup_no_duplicates(vs);
    assert forall|x: Seq<u32>| #[trigger] dedup_vec_bits(vs).contains(x) <==> vs.contains(x) by {
        lemma_dedup_contains(vs, x);
    }
    dedup_vec_bits(vs).unique_seq_to_set();
    assert(dedup_vec_bits(vs).to_set() =~= vs.to_set());
}

/// Whether every entry of `idx` addresses a store of `count` vectors.
pub open spec fn indexes_in_range(idx: Seq<usize>, count: int) -> bool {
    forall|i: int| 0 <= i < idx.len() ==> (#[trigger] idx[i] as int) < count
}

/// Relies on rand's thread-local generator and `Rng::gen_range` over the
/// half-open range `0..n`, which returns a uniformly sampled value of
/// the range; which value comes back is random, so nothing beyond the
/// bound is promised.
#[verifier::external_body]
fn random_below(n: usize) -> (r: usize)
    requires
        n > 0,
    ensures
        r < n,
{
    rand::Rng::gen_range(&mut rand::thread_rng(), 0..n)
}

/// Sample two distinct positions below `len`, uniformly without
/// replacement.
fn sample_two_distinct(len: usize) -> (r: (usize, usize))
    requires
        len >= 2,
    ensures
        r.0 < len,
        r.1 < len,
        r.0 != r.1,
{
    let a = random_below(len);
    let b = random_below(len - 1);
    if b >= a {
        (a, b + 1)
    } else {
        (a, b)
    }
}

/// Insert one internal id into the candidate set, a no-op when the id
/// is already present.
pub open spec fn insert_candidate(cand: Seq<usize>, x: usize) -> Seq<usize> {
    if cand.contains(x) {
        cand
    } else {
        cand.push(x)
    }
}

/// Insert the first `m` indices of a leaf into the candidate set, in
/// leaf order.
pub open spec fn insert_leaf_prefix(cand: Seq<usize>, leaf: Seq<usize>, m: int) -> Seq<usize>
    decreases m,
{
    if m <= 0 {
        cand
    } else {
        insert_candidate(insert_leaf_prefix(cand, leaf, m - 1), leaf[m - 1])
    }
}

/// One tree traversal for query `q` with `n` results still wanted: the
/// count of candidates the tree reports satisfied, and the candidate
/// set it leaves behind. A leaf contributes up to `n` of its indices; a
/// branch descends first into the child on the query's side of its
/// plane and visits the other child only for whatever that side left
/// unsatisfied.
pub open spec fn spec_query_tree(q: Seq<u32>, n: int, t: TreeNode, cand: Seq<usize>) -> (
    int,
    Seq<usize>,
)
    decreases t,
{
    match t {
        TreeNode::Leaf(l) => {
            let m = if n <= l.value@.len() {
                n
            } else {
                l.value@.len() as int
            };
            (m, insert_leaf_prefix(cand, l.value@, m))
        },
        TreeNode::Branch(b) => {
            let above = point_above(b.hyperplane.coefficients@, b.hyperplane.constant, q);
            let main = if above {
                b.right_node
            } else {
                b.left_node
            };
            let backup = if above {
                b.left_node
            } else {
                b.right_node
            };
            let first = spec_query_tree(q, n, main, cand);
            if first.0 < n {
                let second = spec_query_tree(q, n - first.0, backup, first.1);
                (first.0 + second.0, second.1)
            } else {
                first
            }
        },
    }
}

proof fn lemma_insert_leaf_prefix_props(cand: Seq<usize>, leaf: Seq<usize>, m: int, count: int)
    requires
        cand.no_duplicates(),
        indexes_in_range(cand, count),
        indexes_in_range(leaf, count),
        m <= leaf.len(),
    ensures
        insert_leaf_prefix(cand, leaf, m).no_duplicates(),
        indexes_in_range(insert_leaf_prefix(cand, leaf, m), count),
        insert_leaf_prefix(cand, leaf, m).len() >= cand.len(),
    decreases m,
{
    if m > 0 {
        lemma_insert_leaf_prefix_props(cand, leaf, m - 1, count);
        let prev = insert_leaf_prefix(cand, leaf, m - 1);
        let x = leaf[m - 1];
        if !prev.contains(x) {
            assert forall|i: int, j: int|
                0 <= i < prev.push(x).len() && 0 <= j < prev.push(x).len() && i != j implies prev
                .push(x)[i] != prev.push(x)[j] by {
                if i < prev.len() && j < prev.len() {
                } else if i < prev.len() {
                    assert(prev.contains(prev[i]));
                } else if j < prev.len() {
                    assert(prev.contains(prev[j]));
                }
            }
            assert forall|i: int| 0 <= i < prev.push(x).len() implies (
            #[trigger] prev.push(x)[i] as int) < count by {
                if i < prev.len() {
                    assert((prev[i] as int) < count);
                } else {
                    assert((leaf[m - 1] as int) < count);
                }
            }
        }
    }
}

proof fn lemma_spec_query_tree_props(q: Seq<u32>, n: int, t: TreeNode, cand: Seq<usize>, count: int)
    requires
        n >= 0,
        cand.no_duplicates(),
        indexes_in_range(cand, count),
        tree_indices_ok(t, count),
    ensures
        spec_query_tree(q, n, t, cand).1.no_duplicates(),
        indexes_in_range(spec_query_tree(q, n, t, cand).1, count),
        spec_query_tree(q, n, t, cand).1.len() >= cand.len(),
        0 <= spec_query_tree(q, n, t, cand).0 <= n,
    decreases t,
{
    match t {
        TreeNode::Leaf(l) => {
            let m = if n <= l.value@.len() {
                n
            } else {
                l.value@.len() as int
            };
            assert(indexes_in_range(l.value@, count));
            lemma_insert_leaf_prefix_props(cand, l.value@, m, count);
        },
        TreeNode::Branch(b) => {
            let above = point_above(b.hyperplane.coefficients@, b.hyperplane.constant, q);
            let main = if above {
                b.right_node
            } else {
                b.left_node
            };
            let backup = if above {
                b.left_node
            } else {
                b.right_node
            };
            lemma_spec_query_tree_props(q, n, main, cand, count);
            let first = spec_query_tree(q, n, main, cand);
            if first.0 < n {
                lemma_spec_query_tree_props(q, n - first.0, backup, first.1, count);
            }
        },
    }
}

/// The candidate ids that a forest surfaces for one query: the trees
/// visited in forest order, each traversal given the full requested
/// count and the candidate set left by the trees before it.
pub open spec fn spec_forest_candidates(q: Seq<u32>, k: int, trees: Seq<TreeNode>) -> Seq<usize>
    decreases trees.len(),
{
    if trees.len() == 0 {
        Seq::empty()
    } else {
        spec_query_tree(q, k, trees.last(), spec_forest_candidates(q, k, trees.drop_last())).1
    }
}

/// Every candidate paired with the IEEE bit pattern of its exact
/// squared Euclidean distance to the query, in candidate order.
pub open spec fn spec_pairs(cand: Seq<usize>, store: Seq<Vector>, q: Seq<u32>) -> Seq<
    (usize, u32),
> {
    Seq::new(cand.len(), |i: int| (cand[i], sq_dist_bits(store[cand[i] as int]@, q)))
}

/// Non-decreasing distance keys. A squared distance is a sum of IEEE
/// squares, whose bit pattern has a clear sign bit; on such values the
/// unsigned order of the bit patterns is the numeric order, so sorting
/// the keys sorts the distances.
pub open spec fn pairs_sorted_by_distance(s: Seq<(usize, u32)>) -> bool {
    forall|i: int, j: int| 0 <= i <= j < s.len() ==> (#[trigger] s[i]).1 <= (#[trigger] s[j]).1
}

/// Stable insertion into a distance-sorted sequence: the new pair lands
/// after every pair whose key does not exceed its own.
pub open spec fn spec_insert_sorted(p: (usize, u32), s: Seq<(usize, u32)>) -> Seq<(usize, u32)>
    decreases s.len(),
{
    if s.len() == 0 {
        Seq::empty().push(p)
    } else if p.1 >= s.last().1 {
        s.push(p)
    } else {
        spec_insert_sorted(p, s.drop_last()).push(s.last())
    }
}

/// Stable insertion sort of the candidate pairs by distance key.
pub open spec fn spec_sort_pairs(s: Seq<(usize, u32)>) -> Seq<(usize, u32)>
    decreases s.len(),
{
    if s.len() == 0 {
        Seq::empty()
    } else {
        spec_insert_sorted(s.last(), spec_sort_pairs(s.drop_last()))
    }
}

proof fn lemma_insert_sorted_props(p: (usize, u32), s: Seq<(usize, u32)>)
    requires
        pairs_sorted_by_distance(s),
    ensures
        pairs_sorted_by_distance(spec_insert_sorted(p, s)),
        spec_insert_sorted(p, s).to_multiset() == s.to_multiset().insert(p),
        spec_insert_sorted(p, s).len() == s.len() + 1,
    decreases s.len(),
{
    broadcast use vstd::seq_lib::group_to_multiset_ensures;
    broadcast use vstd::multiset::group_multiset_axioms;

    if s.len() == 0 {
        assert(Seq::<(usize, u32)>::empty().push(p).to_multiset() =~= s.to_multiset().insert(p));
    } else if p.1 >= s.last().1 {
        assert(s.push(p).to_multiset() =~= s.to_multiset().insert(p));
        assert forall|i: int, j: int|
            0 <= i <= j < s.push(p).len() implies (#[trigger] s.push(p)[i]).1 <= (#[trigger] s.push(
            p,
        )[j]).1 by {
            if j < s.len() {
            } else {
                if i < s.len() {
                    assert(s[i].1 <= s[s.len() - 1].1);
                }
            }
        }
    } else {
        let dl = s.drop_last();
        assert(pairs_sorted_by_distance(dl)) by {
            assert(forall|i: int, j: int|
                0 <= i <= j < dl.len() ==> (#[trigger] dl[i]).1 <= (#[trigger] dl[j]).1);
        }
        lemma_insert_sorted_props(p, dl);
        let r2 = spec_insert_sorted(p, dl);
        assert(s =~= dl.push(s.last()));
        assert(r2.push(s.last()).to_multiset() =~= s.to_multiset().insert(p));
        assert forall|i: int| 0 <= i < r2.len() implies (#[trigger] r2[i]).1 <= s.last().1 by {
            let x = r2[i];
            assert(r2.contains(x));
            assert(r2.to_multiset().count(x) > 0);
            if x != p {
                assert(dl.to_multiset().count(x) > 0);
                assert(dl.contains(x));
                let jj = choose|jj: int| 0 <= jj < dl.len() && dl[jj] == x;
                assert(s[jj] == x);
                assert(s[jj].1 <= s[s.len() - 1].1);
            }
        }
        assert forall|i: int, j: int|
            0 <= i <= j < r2.push(s.last()).len() implies (#[trigger] r2.push(s.last())[i]).1 <= (
        #[trigger] r2.push(s.last())[j]).1 by {
            if j < r2.len() {
            } else if i < r2.len() {
                assert(r2[i].1 <= s.last().1);
            }
        }
    }
}

proof fn lemma_sort_pairs_props(s: Seq<(usize, u32)>)
    ensures
        pairs_sorted_by_distance(spec_sort_pairs(s)),
        spec_sort_pairs(s).to_multiset() == s.to_multiset(),
        spec_sort_pairs(s).len() == s.len(),
    decreases s.len(),
{
    broadcast use vstd::seq_lib::group_to_multiset_ensures;
    broadcast use vstd::multiset::group_multiset_axioms;

    if s.len() > 0 {
        lemma_sort_pairs_props(s.drop_last());
        lemma_insert_sorted_props(s.last(), spec_sort_pairs(s.drop_last()));
        assert(s =~= s.drop_last().push(s.last()));
        assert(spec_sort_pairs(s).to_multiset() =~= s.to_multiset());
    }
}

proof fn lemma_insert_sorted_at(p: (usize, u32), s: Seq<(usize, u32)>, j: int)
    requires
        pairs_sorted_by_distance(s),
        0 <= j <= s.len(),
        forall|i: int| j <= i < s.len() ==> (#[trigger] s[i]).1 > p.1,
        j > 0 ==> s[j - 1].1 <= p.1,
    ensures
        spec_insert_sorted(p, s) == s.insert(j, p),
    decreases s.len(),
{
    if s.len() == 0 {
        assert(Seq::<(usize, u32)>::empty().push(p) =~= s.insert(0, p));
    } else if p.1 >= s.last().1 {
        assert(j == s.len()) by {
            if j < s.len() {
                assert(s[s.len() - 1].1 > p.1);
            }
        }
        assert(s.push(p) =~= s.insert(j, p));
    } else {
        assert(j < s.len()) by {
            if j == s.len() {
                assert(s[j - 1].1 <= p.1);
                assert(s.last().1 > p.1);
            }
        }
        let dl = s.drop_last();
        assert(pairs_sorted_by_distance(dl)) by {
            assert(forall|a: int, b: int|
                0 <= a <= b < dl.len() ==> (#[trigger] dl[a]).1 <= (#[trigger] dl[b]).1);
        }
        assert forall|i: int| j <= i < dl.len() implies (#[trigger] dl[i]).1 > p.1 by {
            assert(s[i].1 > p.1);
        }
        lemma_insert_sorted_at(p, dl, j);
        assert(spec_insert_sorted(p, dl).push(s.last()) =~= s.insert(j, p));
    }
}

proof fn lemma_distinct_in_range_len(s: Seq<usize>, count: int)
    requires
        s.no_duplicates(),
        indexes_in_range(s, count),
        count >= 0,
    ensures
        s.len() <= count,
{
    let ints = s.map_values(|x: usize| x as int);
    assert(ints.len() == s.len());
    assert forall|i: int, j: int|
        0 <= i < ints.len() && 0 <= j < ints.len() && i != j implies ints[i] != ints[j] by {
        assert(s[i] != s[j]);
    }
    ints.unique_seq_to_set();
    vstd::set_lib::lemma_int_range(0, count);
    assert(ints.to_set().subset_of(vstd::set_lib::set_int_range(0, count))) by {
        assert forall|x: int| ints.to_set().contains(x) implies vstd::set_lib::set_int_range(
            0,
            count,
        ).contains(x) by {
            assert(ints.contains(x));
            let i = choose|i: int| 0 <= i < ints.len() && ints[i] == x;
            assert((s[i] as int) < count);
        }
    }
    vstd::set_lib::lemma_len_subset(ints.to_set(), vstd::set_lib::set_int_range(0, count));
}

proof fn lemma_forest_candidates_empty_store(q: Seq<u32>, k: int, trees: Seq<TreeNode>)
    requires
        k >= 0,
        forall|t: int| 0 <= t < trees.len() ==> tree_indices_ok(#[trigger] trees[t], 0),
    ensures
        spec_forest_candidates(q, k, trees).len() == 0,
        spec_forest_candidates(q, k, trees).no_duplicates(),
        indexes_in_range(spec_forest_candidates(q, k, trees), 0),
    decreases trees.len(),
{
    if trees.len() > 0 {
        assert forall|t: int| 0 <= t < trees.drop_last().len() implies tree_indices_ok(
            #[trigger] trees.drop_last()[t],
            0,
        ) by {
            assert(trees.drop_last()[t] == trees[t]);
        }
        lemma_forest_candidates_empty_store(q, k, trees.drop_last());
        let prev = spec_forest_candidates(q, k, trees.drop_last());
        assert(tree_indices_ok(trees.last(), 0));
        lemma_spec_query_tree_props(q, k, trees.last(), prev, 0);
        let res = spec_query_tree(q, k, trees.last(), prev).1;
        if res.len() > 0 {
            assert((res[0] as int) < 0);
        }
    }
}

/// Partition completeness: in a well-formed index, the union, with no
/// duplication, of all leaf index sets of every tree is exactly the
/// full set of internal ids `0 .. store-size` — as multisets, each
/// tree's concatenated leaves equal the id range.
pub proof fn lemma_forest_partition(ix: ApproximateNearestNeighborsIndex)
    requires
        ix.wf(),
    ensures
        forall|t: int|
            0 <= t < ix.forest().len() ==> tree_indices(#[trigger] ix.forest()[t]).to_multiset()
                == range_usize_seq(ix.store().len() as nat).to_multiset(),
{
}

/// Idempotent search: the search contract pins the returned values as a
/// function of the index, the query, and the requested count alone, so
/// any two outcomes of searching one unmodified index with the same
/// query and count carry identical ids, distances, and vectors, in the
/// same order.
pub proof fn lemma_search_idempotent(
    ix: ApproximateNearestNeighborsIndex,
    q: Seq<u32>,
    k: int,
    r1: Seq<(i32, u32, Seq<u32>)>,
    r2: Seq<(i32, u32, Seq<u32>)>,
)
    requires
        r1 == ix.spec_search(q, k),
        r2 == ix.spec_search(q, k),
    ensures
        r1 == r2,
{
}

/// Empty-index search: an index whose store is empty yields no results,
/// for every query and every requested count.
pub proof fn lemma_empty_index_search(ix: ApproximateNearestNeighborsIndex, q: Seq<u32>, k: int)
    requires
        ix.wf(),
        ix.store().len() == 0,
        k >= 0,
    ensures
        ix.spec_search(q, k).len() == 0,
{
    assert forall|t: int| 0 <= t < ix.forest().len() implies tree_indices_ok(
        #[trigger] ix.forest()[t],
        0,
    ) by {
        assert(tree_wf(ix.forest()[t], ix.dim(), 0));
    }
    lemma_forest_candidates_empty_store(q, k, ix.forest());
    let cand = spec_forest_candidates(q, k, ix.forest());
    assert(spec_pairs(cand, ix.store(), q).len() == 0);
    lemma_sort_pairs_props(spec_pairs(cand, ix.store(), q));
}

/// Exact-match ranking: whenever the candidates that a search surfaces
/// include one at distance zero — as an indexed vector bit-identical to
/// the query is, once surfaced — the top-ranked result has distance
/// zero, since zero is the least unsigned bit pattern and results come
/// sorted by distance key. A bit-identical match that a leaf did not
/// surface, because the leaf offered more indices than were still
/// wanted, is not covered: the walk keeps only a leaf's first indices.
pub proof fn lemma_zero_distance_ranks_first(
    ix: ApproximateNearestNeighborsIndex,
    q: Seq<u32>,
    k: int,
)
    requires
        k >= 1,
        exists|j: int|
            0 <= j < ix.spec_search_pairs(q, k).len() && (#[trigger] ix.spec_search_pairs(
                q,
                k,
            )[j]).1 == 0,
    ensures
        ix.spec_search(q, k).len() >= 1,
        ix.spec_search(q, k)[0].1 == 0,
{
    let s = ix.spec_search_pairs(q, k);
    lemma_sort_pairs_props(spec_pairs(spec_forest_candidates(q, k, ix.forest()), ix.store(), q));
    let j = choose|j: int| 0 <= j < s.len() && s[j].1 == 0;
    assert(s[0].1 <= s[j].1);
}

/// The three plain values that one search result carries: external id,
/// distance bits, and coordinate bits.
pub open spec fn result_views(rs: Seq<ApproximateNearestNeighborsSearchResult>) -> Seq<
    (i32, u32, Seq<u32>),
> {
    rs.map_values(
        |x: ApproximateNearestNeighborsSearchResult| (x.vector_id, x.distance, x.vector@),
    )
}

/// True when `cand` already holds the id `x`.
fn contains_usize(cand: &Vec<usize>, x: usize) -> (r: bool)
    ensures
        r == cand@.contains(x),
{
    let n = cand.len();
    let mut i: usize = 0;
    while i < n
        invariant
            n == cand@.len(),
            i <= n,
            forall|j: int| 0 <= j < i ==> cand@[j] != x,
        decreases n - i,
    {
        if cand[i] == x {
            assert(cand@[i as int] == x);
            return true;
        }
        i = i + 1;
    }
    false
}

/// True when `keys` holds a key whose contents equal `k`'s.
fn hashkey_contains(keys: &Vec<HashKey>, k: &HashKey) -> (r: bool)
    ensures
        r == keys@.map_values(|h: HashKey| h@).contains(k@),
{
    let ghost key_bits = keys@.map_values(|h: HashKey| h@);
    let n = keys.len();
    let mut i: usize = 0;
    while i < n
        invariant
            n == keys@.len(),
            key_bits == keys@.map_values(|h: HashKey| h@),
            i <= n,
            forall|j: int| 0 <= j < i ==> key_bits[j] != k@,
        decreases n - i,
    {
        if keys[i].eq(k) {
            assert(key_bits[i as int] == k@);
            return true;
        }
        i = i + 1;
    }
    assert(forall|j: int| 0 <= j < key_bits.len() ==> key_bits[j] != k@);
    false
}

impl ApproximateNearestNeighborsIndex {
    /// The deduplicated vector store, in internal-id order.
    pub closed spec fn store(self) -> Seq<Vector> {
        self.vectors@
    }

    /// The external ids, position-parallel to the store.
    pub closed spec fn ids_seq(self) -> Seq<i32> {
        self.ids@
    }

    /// The forest of tree roots.
    pub closed spec fn forest(self) -> Seq<TreeNode> {
        self.trees@
    }

    /// The store's coordinate-bit sequences.
    pub open spec fn store_bits(self) -> Seq<Seq<u32>> {
        seq_bits(self.store())
    }

    /// The index's dimensionality.
    pub open spec fn dim(self) -> int {
        dim_of(self.store())
    }

    /// The index's invariant: ids parallel the store, every stored
    /// vector has the index's dimensionality, and every tree is sound
    /// over the store, its leaves together holding each internal id
    /// exactly once.
    pub open spec fn wf(self) -> bool {
        &&& self.ids_seq().len() == self.store().len()
        &&& dims_uniform(self.store())
        &&& forall|t: int|
            0 <= t < self.forest().len() ==> tree_wf(
                #[trigger] self.forest()[t],
                self.dim(),
                self.store().len() as int,
            )
        &&& forall|t: int|
            0 <= t < self.forest().len() ==> tree_indices(
                #[trigger] self.forest()[t],
            ).to_multiset() == range_usize_seq(self.store().len() as nat).to_multiset()
    }

    /// Scan the vectors in input order and keep the first occurrence of
    /// each distinct hash key together with its external id.
    fn deduplicate(
        vectors: &Vec<Vector>,
        ids: &[i32],
        dedup_vectors: &mut Vec<Vector>,
        dedup_ids: &mut Vec<i32>,
    )
        requires
            ids@.len() == vectors@.len(),
            old(dedup_vectors)@.len() == 0,
            old(dedup_ids)@.len() == 0,
        ensures
            seq_bits(final(dedup_vectors)@) == dedup_vec_bits(seq_bits(vectors@)),
            final(dedup_ids)@ == dedup_id_seq(seq_bits(vectors@), ids@),
    {
        let ghost all_bits = seq_bits(vectors@);
        let mut hashes_seen: Vec<HashKey> = Vec::new();
        let n = vectors.len();
        let mut i: usize = 0;
        while i < n
            invariant
                n == vectors@.len(),
                ids@.len() == n,
                all_bits == seq_bits(vectors@),
                i <= n,
                hashes_seen@.map_values(|h: HashKey| h@) == dedup_vec_bits(
                    all_bits.take(i as int),
                ),
                seq_bits(dedup_vectors@) == dedup_vec_bits(all_bits.take(i as int)),
                dedup_ids@ == dedup_id_seq(all_bits.take(i as int), ids@.take(i as int)),
            decreases n - i,
        {
            let hash_key = vectors[i].hashkey();
            proof {
                assert(all_bits[i as int] == vectors@[i as int]@);
                assert(all_bits.take(i + 1).drop_last() =~= all_bits.take(i as int));
                assert(ids@.take(i + 1).drop_last() =~= ids@.take(i as int));
                assert(all_bits.take(i + 1).last() == all_bits[i as int]);
                lemma_dedup_contains(all_bits.take(i as int), all_bits[i as int]);
            }
            if !hashkey_contains(&hashes_seen, &hash_key) {
                hashes_seen.push(hash_key);
                dedup_vectors.push(vectors[i].clone());
                dedup_ids.push(ids[i]);
                proof {
                    assert(hashes_seen@.map_values(|h: HashKey| h@) =~= dedup_vec_bits(
                        all_bits.take(i + 1),
                    ));
                    assert(seq_bits(dedup_vectors@) =~= dedup_vec_bits(all_bits.take(i + 1)));
                }
            } else {
                proof {
                    assert(hashes_seen@.map_values(|h: HashKey| h@) =~= dedup_vec_bits(
                        all_bits.take(i + 1),
                    ));
                    assert(seq_bits(dedup_vectors@) =~= dedup_vec_bits(all_bits.take(i + 1)));
                }
            }
            i = i + 1;
        }
        proof {
            assert(all_bits.take(n as int) =~= all_bits);
            assert(ids@.take(n as int) =~= ids@);
        }
    }

    /// Sample two distinct members of the current subset, build the
    /// plane through their midpoint orthogonal to their difference, and
    /// partition the whole subset by the plane test, above and below.
    fn build_hyperplane(indexes: &Vec<usize>, all_vecs: &Vec<Vector>) -> (r: (
        HyperPlane,
        Vec<usize>,
        Vec<usize>,
    ))
        requires
            indexes@.len() >= 2,
            indexes_in_range(indexes@, all_vecs@.len() as int),
            dims_uniform(all_vecs@),
        ensures
            r.0.coefficients@.len() == dim_of(all_vecs@),
            exists|ai: int, bi: int|
                0 <= ai < indexes@.len() && 0 <= bi < indexes@.len() && ai != bi
                    && r.0.coefficients@ == sub_vec_bits(
                    all_vecs@[#[trigger] indexes@[bi] as int]@,
                    all_vecs@[#[trigger] indexes@[ai] as int]@,
                ) && r.0.constant == neg_bits(
                    dot_bits(
                        r.0.coefficients@,
                        avg_vec_bits(
                            all_vecs@[indexes@[ai] as int]@,
                            all_vecs@[indexes@[bi] as int]@,
                        ),
                    ),
                ),
            indexes_in_range(r.1@, all_vecs@.len() as int),
            indexes_in_range(r.2@, all_vecs@.len() as int),
            forall|i: int|
                0 <= i < r.1@.len() ==> point_above(
                    r.0.coefficients@,
                    r.0.constant,
                    all_vecs@[#[trigger] r.1@[i] as int]@,
                ),
            forall|i: int|
                0 <= i < r.2@.len() ==> !point_above(
                    r.0.coefficients@,
                    r.0.constant,
                    all_vecs@[#[trigger] r.2@[i] as int]@,
                ),
            r.1@.to_multiset().add(r.2@.to_multiset()) == indexes@.to_multiset(),
            r.1@.len() + r.2@.len() == indexes@.len(),
    {
        let (pa, pb) = sample_two_distinct(indexes.len());
        let a = indexes[pa];
        let b = indexes[pb];
        let ghost dim = dim_of(all_vecs@);
        // cartesian form of the plane: the normal is the direction from
        // sample a to sample b, and the plane passes through their midpoint
        let coefficients = all_vecs[b].sub(&all_vecs[a]);
        let point_on_plane = all_vecs[a].avg(&all_vecs[b]);
        let constant = crate::single::single_neg(coefficients.dot(&point_on_plane));
        let hyperplane = HyperPlane::new(coefficients, constant);
        proof {
            assert(all_vecs@[indexes@[pa as int] as int]@.len() == dim);
            assert(all_vecs@[indexes@[pb as int] as int]@.len() == dim);
        }
        let mut above: Vec<usize> = Vec::new();
        let mut below: Vec<usize> = Vec::new();
        proof {
            broadcast use vstd::seq_lib::group_to_multiset_ensures;
            broadcast use vstd::multiset::group_multiset_axioms;

            assert(above@ =~= indexes@.take(0 as int));
            assert(below@ =~= indexes@.take(0 as int));
            assert(forall|x: usize| indexes@.take(0 as int).to_multiset().count(x) == 0);
            assert(above@.to_multiset().add(below@.to_multiset()) =~= indexes@.take(
                0 as int,
            ).to_multiset());
        }
        let n = indexes.len();
        let mut i: usize = 0;
        while i < n
            invariant
                n == indexes@.len(),
                indexes_in_range(indexes@, all_vecs@.len() as int),
                dims_uniform(all_vecs@),
                hyperplane.coefficients@.len() == dim_of(all_vecs@),
                i <= n,
                indexes_in_range(above@, all_vecs@.len() as int),
                indexes_in_range(below@, all_vecs@.len() as int),
                forall|j: int|
                    0 <= j < above@.len() ==> point_above(
                        hyperplane.coefficients@,
                        hyperplane.constant,
                        all_vecs@[#[trigger] above@[j] as int]@,
                    ),
                forall|j: int|
                    0 <= j < below@.len() ==> !point_above(
                        hyperplane.coefficients@,
                        hyperplane.constant,
                        all_vecs@[#[trigger] below@[j] as int]@,
                    ),
                above@.to_multiset().add(below@.to_multiset()) == indexes@.take(
                    i as int,
                ).to_multiset(),
                above@.len() + below@.len() == i,
            decreases n - i,
        {
            let id = indexes[i];
            proof {
                broadcast use vstd::seq_lib::group_to_multiset_ensures;
                broadcast use vstd::multiset::group_multiset_axioms;

                assert(indexes@.take(i + 1).drop_last() =~= indexes@.take(i as int));
                assert(indexes@.take(i + 1) =~= indexes@.take(i as int).push(indexes@[i as int]));
            }
            if hyperplane.is_point_above(&all_vecs[id]) {
                above.push(id);
                proof {
                    broadcast use vstd::seq_lib::group_to_multiset_ensures;
                    broadcast use vstd::multiset::group_multiset_axioms;

                    assert(above@.to_multiset().add(below@.to_multiset()) =~= indexes@.take(
                        i + 1,
                    ).to_multiset());
                }
            } else {
                below.push(id);
                proof {
                    broadcast use vstd::seq_lib::group_to_multiset_ensures;
                    broadcast use vstd::multiset::group_multiset_axioms;

                    assert(above@.to_multiset().add(below@.to_multiset()) =~= indexes@.take(
                        i + 1,
                    ).to_multiset());
                }
            }
            i = i + 1;
        }
        proof {
            broadcast use vstd::seq_lib::group_to_multiset_ensures;
            broadcast use vstd::multiset::group_multiset_axioms;

            assert(indexes@.take(n as int) =~= indexes@);
            assert(indexes@[pa as int] == a && indexes@[pb as int] == b);
        }
        (hyperplane, above, below)
    }

    /// Build one partition tree over the given subset of internal ids:
    /// a leaf once the subset fits the configured maximum, otherwise a
    /// branch over a sampled hyperplane and its two sides.
    fn build_tree(max_size: i32, indexes: &Vec<usize>, all_vecs: &Vec<Vector>) -> (r: Result<
        TreeNode,
        IndexError,
    >)
        requires
            indexes_in_range(indexes@, all_vecs@.len() as int),
            dims_uniform(all_vecs@),
        ensures
            r is Ok ==> tree_indices(r->Ok_0).to_multiset() == indexes@.to_multiset(),
            r is Ok ==> tree_wf(r->Ok_0, dim_of(all_vecs@), all_vecs@.len() as int),
            r is Ok ==> tree_leaf_bound(r->Ok_0, max_size as int),
            max_size >= 0 && indexes@.len() <= max_size as int ==> r is Ok,
            r is Err ==> r->Err_0 == IndexError::InvalidConfiguration,
        decreases indexes@.len(),
    {
        if max_size >= 0 && indexes.len() <= max_size as usize {
            let leaf = LeafNode::new(indexes.clone());
            return Ok(TreeNode::Leaf(Box::new(leaf)));
        }
        if indexes.len() < 2 {
            // deduplication leaves nothing to split two ways here; only a
            // maximum leaf size below 2 reaches this subset
            return Err(IndexError::InvalidConfiguration);
        }
        let (plane, above, below) = Self::build_hyperplane(indexes, all_vecs);
        if above.len() == 0 || below.len() == 0 {
            // the sampled plane failed to separate the subset, so the
            // split cannot make progress
            return Err(IndexError::InvalidConfiguration);
        }
        proof {
            broadcast use vstd::seq_lib::group_to_multiset_ensures;
            broadcast use vstd::multiset::group_multiset_axioms;

            assert(above@.len() < indexes@.len());
            assert(below@.len() < indexes@.len());
        }
        let node_above = match Self::build_tree(max_size, &above, all_vecs) {
            Ok(t) => t,
            Err(e) => {
                return Err(e);
            },
        };
        let node_below = match Self::build_tree(max_size, &below, all_vecs) {
            Ok(t) => t,
            Err(e) => {
                return Err(e);
            },
        };
        let ghost below_indices = tree_indices(node_below);
        let ghost above_indices = tree_indices(node_above);
        let inner = InnerNode::new(plane, node_below, node_above);
        let node = TreeNode::Branch(Box::new(inner));
        proof {
            broadcast use vstd::multiset::group_multiset_axioms;

            vstd::seq_lib::lemma_multiset_commutative(below_indices, above_indices);
            assert(tree_indices(node) == below_indices + above_indices);
            assert(below_indices.to_multiset().add(above_indices.to_multiset()) =~= above@
                .to_multiset().add(below@.to_multiset()));
        }
        Ok(node)
    }

    /// Build an index: deduplicate the vectors, then construct
    /// `num_trees` independent partition trees over the full
    /// deduplicated store, each split at most `max_size` indices per
    /// leaf.
    pub fn build(
        num_trees: i32,
        max_size: i32,
        vectors: &Vec<Vector>,
        vector_ids: &[i32],
    ) -> (r: Result<Self, IndexError>)
        ensures
            r is Ok ==> {
                let ix = r->Ok_0;
                &&& ix.wf()
                &&& ix.store_bits() == dedup_vec_bits(seq_bits(vectors@))
                &&& ix.ids_seq() == dedup_id_seq(seq_bits(vectors@), vector_ids@)
                &&& ix.forest().len() == (if num_trees >= 0 {
                    num_trees as int
                } else {
                    0
                })
                &&& forall|t: int|
                    0 <= t < ix.forest().len() ==> tree_leaf_bound(
                        #[trigger] ix.forest()[t],
                        max_size as int,
                    )
            },
            r == Result::<Self, IndexError>::Err(IndexError::InvalidInput) <==> (vector_ids@.len()
                != vectors@.len() || !dims_uniform(vectors@)),
            vector_ids@.len() == vectors@.len() && dims_uniform(vectors@) && (num_trees <= 0 || (
            max_size >= 0 && dedup_vec_bits(seq_bits(vectors@)).len() <= max_size as int)) ==> r
                is Ok,
    {
        if vector_ids.len() != vectors.len() {
            return Err(IndexError::InvalidInput);
        }
        let dims_ok = Self::check_dims_uniform(vectors);
        if !dims_ok {
            return Err(IndexError::InvalidInput);
        }
        let mut unique_vecs: Vec<Vector> = Vec::new();
        let mut ids: Vec<i32> = Vec::new();
        Self::deduplicate(vectors, vector_ids, &mut unique_vecs, &mut ids);
        proof {
            lemma_dedup_distinct_count(seq_bits(vectors@));
            assert forall|i: int|
                0 <= i < unique_vecs@.len() implies (#[trigger] unique_vecs@[i])@.len() == dim_of(
                unique_vecs@,
            ) by {
                let bits = seq_bits(unique_vecs@);
                assert(bits[i] == unique_vecs@[i]@);
                assert(bits.contains(bits[i]));
                let p = choose|p: int|
                    0 <= p < seq_bits(vectors@).len() && seq_bits(vectors@)[p] == bits[i];
                assert(vectors@[p]@.len() == dim_of(vectors@));
                assert(bits[0] == unique_vecs@[0]@);
                assert(bits.contains(bits[0]));
                let p0 = choose|p0: int|
                    0 <= p0 < seq_bits(vectors@).len() && seq_bits(vectors@)[p0] == bits[0];
                assert(vectors@[p0]@.len() == dim_of(vectors@));
            }
        }
        let d = unique_vecs.len();
        let mut all_indexes: Vec<usize> = Vec::new();
        let mut k: usize = 0;
        while k < d
            invariant
                k <= d,
                all_indexes@.len() == k,
                forall|j: int| 0 <= j < k ==> (#[trigger] all_indexes@[j]) == j,
            decreases d - k,
        {
            all_indexes.push(k);
            k = k + 1;
        }
        proof {
            assert(all_indexes@ =~= range_usize_seq(d as nat));
        }
        proof {
            lemma_dedup_id_len(seq_bits(vectors@), vector_ids@);
        }
        let mut trees: Vec<TreeNode> = Vec::new();
        let mut t: i32 = 0;
        while t < num_trees
            invariant
                num_trees > 0 ==> 0 <= t <= num_trees,
                num_trees <= 0 ==> t == 0,
                vector_ids@.len() == vectors@.len(),
                dims_uniform(vectors@),
                seq_bits(unique_vecs@) == dedup_vec_bits(seq_bits(vectors@)),
                ids@ == dedup_id_seq(seq_bits(vectors@), vector_ids@),
                ids@.len() == unique_vecs@.len(),
                all_indexes@ == range_usize_seq(unique_vecs@.len() as nat),
                indexes_in_range(all_indexes@, unique_vecs@.len() as int),
                dims_uniform(unique_vecs@),
                trees@.len() == t,
                forall|j: int|
                    0 <= j < trees@.len() ==> tree_wf(
                        #[trigger] trees@[j],
                        dim_of(unique_vecs@),
                        unique_vecs@.len() as int,
                    ),
                forall|j: int|
                    0 <= j < trees@.len() ==> tree_indices(#[trigger] trees@[j]).to_multiset()
                        == range_usize_seq(unique_vecs@.len() as nat).to_multiset(),
                forall|j: int|
                    0 <= j < trees@.len() ==> tree_leaf_bound(
                        #[trigger] trees@[j],
                        max_size as int,
                    ),
            decreases num_trees - t,
        {
            let tree = match Self::build_tree(max_size, &all_indexes, &unique_vecs) {
                Ok(tr) => tr,
                Err(e) => {
                    return Err(e);
                },
            };
            trees.push(tree);
            t = t + 1;
        }
        let ix = ApproximateNearestNeighborsIndex { trees, ids, vectors: unique_vecs };
        Ok(ix)
    }

    /// Whether every vector shares the first vector's dimensionality.
    fn check_dims_uniform(vectors: &Vec<Vector>) -> (r: bool)
        ensures
            r == dims_uniform(vectors@),
    {
        if vectors.len() == 0 {
            return true;
        }
        let dim = vectors[0].len();
        let n = vectors.len();
        let mut i: usize = 0;
        while i < n
            invariant
                n == vectors@.len(),
                n > 0,
                dim == dim_of(vectors@),
                i <= n,
                forall|j: int| 0 <= j < i ==> (#[trigger] vectors@[j])@.len() == dim_of(vectors@),
            decreases n - i,
        {
            if vectors[i].len() != dim {
                return false;
            }
            i = i + 1;
        }
        true
    }

    /// A copy of the full deduplicated vector store, in internal-id
    /// order.
    pub fn all_vectors(&self) -> (r: Vec<Vector>)
        ensures
            r@.len() == self.store().len(),
            seq_bits(r@) == self.store_bits(),
    {
        let mut out: Vec<Vector> = Vec::new();
        let n = self.vectors.len();
        let mut i: usize = 0;
        while i < n
            invariant
                n == self.vectors@.len(),
                self.store() == self.vectors@,
                i <= n,
                out@.len() == i,
                forall|j: int| 0 <= j < i ==> (#[trigger] out@[j])@ == self.vectors@[j]@,
            decreases n - i,
        {
            out.push(self.vectors[i].clone());
            i = i + 1;
        }
        proof {
            assert(seq_bits(out@) =~= self.store_bits());
        }
        out
    }

    /// Walk one tree for the query, preferring the query's own side of
    /// each plane and visiting the sibling only when the preferred side
    /// under-supplied; report how many candidates were satisfied.
    fn query_tree(query: &Vector, n: i32, tree: &TreeNode, candidates: &mut Vec<usize>) -> (r: i32)
        requires
            n >= 0,
            tree_dims_ok(*tree, query@.len() as int),
        ensures
            r as int == spec_query_tree(query@, n as int, *tree, old(candidates)@).0,
            final(candidates)@ == spec_query_tree(query@, n as int, *tree, old(candidates)@).1,
            0 <= r <= n,
        decreases *tree,
    {
        match tree {
            TreeNode::Leaf(box_leaf) => {
                let leaf_values = box_leaf.value();
                let num = if (n as usize) <= leaf_values.len() {
                    n as usize
                } else {
                    leaf_values.len()
                };
                let mut j: usize = 0;
                while j < num
                    invariant
                        num <= leaf_values@.len(),
                        j <= num,
                        candidates@ == insert_leaf_prefix(
                            old(candidates)@,
                            leaf_values@,
                            j as int,
                        ),
                    decreases num - j,
                {
                    let item = leaf_values[j];
                    if !contains_usize(candidates, item) {
                        candidates.push(item);
                    }
                    j = j + 1;
                }
                num as i32
            },
            TreeNode::Branch(inner) => {
                let above = inner.hyperplane().is_point_above(query);
                let (main, backup) = if above {
                    (inner.right(), inner.left())
                } else {
                    (inner.left(), inner.right())
                };
                let k = Self::query_tree(query, n, main, candidates);
                if k < n {
                    let k2 = Self::query_tree(query, n - k, backup, candidates);
                    k + k2
                } else {
                    k
                }
            },
        }
    }

    /// Stable insertion sort of candidate pairs by distance key,
    /// ascending.
    fn sort_pairs(pairs: &Vec<(usize, u32)>) -> (r: Vec<(usize, u32)>)
        ensures
            r@ == spec_sort_pairs(pairs@),
            pairs_sorted_by_distance(r@),
            r@.len() == pairs@.len(),
    {
        let mut out: Vec<(usize, u32)> = Vec::new();
        let n = pairs.len();
        let mut i: usize = 0;
        while i < n
            invariant
                n == pairs@.len(),
                i <= n,
                out@ == spec_sort_pairs(pairs@.take(i as int)),
                pairs_sorted_by_distance(out@),
                out@.len() == i,
            decreases n - i,
        {
            let p = pairs[i];
            let mut j: usize = out.len();
            while j > 0 && out[j - 1].1 > p.1
                invariant
                    j <= out@.len(),
                    forall|q2: int| j <= q2 < out@.len() ==> (#[trigger] out@[q2]).1 > p.1,
                decreases j,
            {
                j = j - 1;
            }
            let ghost out_before = out@;
            out.insert(j, p);
            proof {
                lemma_insert_sorted_at(p, out_before, j as int);
                lemma_insert_sorted_props(p, out_before);
                assert(pairs@.take(i + 1).drop_last() =~= pairs@.take(i as int));
                assert(pairs@.take(i + 1).last() == pairs@[i as int]);
            }
            i = i + 1;
        }
        proof {
            assert(pairs@.take(n as int) =~= pairs@);
        }
        out
    }

    /// Search the index for the `top_k` approximate nearest neighbors
    /// of the query: every tree contributes candidates into one shared
    /// deduplicated set, each distinct candidate's exact squared
    /// Euclidean distance is computed, and the candidates are returned
    /// sorted by ascending distance, truncated to `top_k`. The search
    /// is approximate: a tree visits a plane's far side only when the
    /// near side under-supplies, so true neighbors can be missed. The
    /// index is never mutated, and fewer than `top_k` results come back
    /// whenever the forest surfaced fewer distinct candidates.
    pub fn search(&self, query: Vector, top_k: i32) -> (r: Result<
        Vec<ApproximateNearestNeighborsSearchResult>,
        IndexError,
    >)
        requires
            self.wf(),
        ensures
            (r is Err && r->Err_0 == IndexError::InvalidConfiguration) <==> top_k < 0,
            (r is Err && r->Err_0 == IndexError::InvalidInput) <==> (top_k >= 0
                && self.store().len() > 0 && query@.len() != self.dim()),
            r is Ok ==> result_views(r->Ok_0@) == self.spec_search(query@, top_k as int),
            r is Ok ==> r->Ok_0@.len() <= top_k as int,
            r is Ok ==> r->Ok_0@.len() <= self.store().len(),
            r is Ok ==> forall|i: int, j: int|
                0 <= i <= j < r->Ok_0@.len() ==> (#[trigger] r->Ok_0@[i]).distance <= (
                #[trigger] r->Ok_0@[j]).distance,
    {
        if top_k < 0 {
            return Err(IndexError::InvalidConfiguration);
        }
        let ghost q = query@;
        let ghost kk = top_k as int;
        if self.vectors.len() == 0 {
            let results: Vec<ApproximateNearestNeighborsSearchResult> = Vec::new();
            proof {
                assert forall|t: int| 0 <= t < self.forest().len() implies tree_indices_ok(
                    #[trigger] self.forest()[t],
                    0,
                ) by {
                    assert(tree_wf(self.forest()[t], self.dim(), 0));
                }
                lemma_forest_candidates_empty_store(q, kk, self.forest());
                let cand = spec_forest_candidates(q, kk, self.forest());
                assert(spec_pairs(cand, self.store(), q).len() == 0);
                lemma_sort_pairs_props(spec_pairs(cand, self.store(), q));
                assert(self.spec_search_len(q, kk) == 0);
                assert(result_views(results@) =~= self.spec_search(q, kk));
            }
            return Ok(results);
        }
        if query.len() != self.vectors[0].len() {
            return Err(IndexError::InvalidInput);
        }
        let ghost count = self.store().len() as int;
        let mut candidates: Vec<usize> = Vec::new();
        let n_trees = self.trees.len();
        let mut t: usize = 0;
        proof {
            assert(self.forest().take(0) =~= Seq::<TreeNode>::empty());
        }
        while t < n_trees
            invariant
                self.wf(),
                n_trees == self.forest().len(),
                query@ == q,
                top_k >= 0,
                top_k as int == kk,
                query@.len() == self.dim(),
                count == self.store().len() as int,
                t <= n_trees,
                candidates@ == spec_forest_candidates(q, kk, self.forest().take(t as int)),
                candidates@.no_duplicates(),
                indexes_in_range(candidates@, count),
            decreases n_trees - t,
        {
            let ghost pre = candidates@;
            proof {
                assert(tree_wf(self.forest()[t as int], self.dim(), count));
            }
            let _ = Self::query_tree(&query, top_k, &self.trees[t], &mut candidates);
            proof {
                assert(self.forest().take(t + 1).drop_last() =~= self.forest().take(t as int));
                assert(self.forest().take(t + 1).last() == self.forest()[t as int]);
                lemma_spec_query_tree_props(q, kk, self.forest()[t as int], pre, count);
            }
            t = t + 1;
        }
        proof {
            assert(self.forest().take(n_trees as int) =~= self.forest());
        }
        let ghost cand = candidates@;
        let mut pairs: Vec<(usize, u32)> = Vec::new();
        let nc = candidates.len();
        let mut ci: usize = 0;
        while ci < nc
            invariant
                self.wf(),
                query@ == q,
                query@.len() == self.dim(),
                count == self.store().len() as int,
                candidates@ == cand,
                nc == cand.len(),
                indexes_in_range(cand, count),
                ci <= nc,
                pairs@.len() == ci,
                forall|j: int|
                    0 <= j < ci ==> pairs@[j] == (
                        cand[j],
                        sq_dist_bits(self.store()[#[trigger] cand[j] as int]@, q),
                    ),
            decreases nc - ci,
        {
            let idx = candidates[ci];
            let dist = self.vectors[idx].squared_euclidian_distance(&query);
            pairs.push((idx, dist));
            ci = ci + 1;
        }
        proof {
            assert(pairs@ =~= spec_pairs(cand, self.store(), q));
        }
        let sorted = Self::sort_pairs(&pairs);
        proof {
            broadcast use vstd::seq_lib::group_to_multiset_ensures;
            broadcast use vstd::multiset::group_multiset_axioms;

            lemma_sort_pairs_props(pairs@);
            assert forall|j: int| 0 <= j < sorted@.len() implies (
            #[trigger] sorted@[j].0 as int) < count by {
                let x = sorted@[j];
                assert(sorted@.contains(x));
                assert(sorted@.to_multiset().count(x) > 0);
                assert(pairs@.to_multiset().count(x) > 0);
                assert(pairs@.contains(x));
                let jj = choose|jj: int| 0 <= jj < pairs@.len() && pairs@[jj] == x;
                assert((cand[jj] as int) < count);
            }
            lemma_distinct_in_range_len(cand, count);
            assert(sorted@ == self.spec_search_pairs(q, kk));
        }
        let limit = if (top_k as usize) <= sorted.len() {
            top_k as usize
        } else {
            sorted.len()
        };
        let mut results: Vec<ApproximateNearestNeighborsSearchResult> = Vec::new();
        let mut ri: usize = 0;
        while ri < limit
            invariant
                self.wf(),
                query@ == q,
                count == self.store().len() as int,
                sorted@ == self.spec_search_pairs(q, kk),
                forall|j: int| 0 <= j < sorted@.len() ==> (#[trigger] sorted@[j].0 as int) < count,
                limit <= sorted@.len(),
                limit == self.spec_search_len(q, kk),
                ri <= limit,
                results@.len() == ri,
                forall|j: int|
                    0 <= j < ri ==> (#[trigger] results@[j]).vector_id == self.ids_seq()[sorted@[j].0 as int]
                        && results@[j].distance == sorted@[j].1 && results@[j].vector@
                        == self.store()[sorted@[j].0 as int]@,
            decreases limit - ri,
        {
            let pair = sorted[ri];
            let idx = pair.0;
            let res = ApproximateNearestNeighborsSearchResult {
                vector_id: self.ids[idx],
                distance: pair.1,
                vector: self.vectors[idx].clone(),
            };
            results.push(res);
            ri = ri + 1;
        }
        proof {
            assert(result_views(results@) =~= self.spec_search(q, kk));
        }
        Ok(results)
    }

    /// All candidate pairs of one search, ranked: the forest's
    /// candidates, each paired with its exact squared distance to the
    /// query, stably sorted by ascending distance key.
    pub open spec fn spec_search_pairs(self, q: Seq<u32>, k: int) -> Seq<(usize, u32)> {
        spec_sort_pairs(spec_pairs(spec_forest_candidates(q, k, self.forest()), self.store(), q))
    }

    /// How many results a search returns: the requested count, capped
    /// by how many distinct candidates the forest surfaced.
    pub open spec fn spec_search_len(self, q: Seq<u32>, k: int) -> int {
        if k <= self.spec_search_pairs(q, k).len() {
            k
        } else {
            self.spec_search_pairs(q, k).len() as int
        }
    }

    /// The search outcome as plain values, in rank order: for each kept
    /// pair, the external id stored at the internal id's position, the
    /// distance bits, and the stored vector's coordinate bits.
    pub open spec fn spec_search(self, q: Seq<u32>, k: int) -> Seq<(i32, u32, Seq<u32>)> {
        Seq::new(
            self.spec_search_len(q, k) as nat,
            |i: int|
                {
                    let pr = self.spec_search_pairs(q, k)[i];
                    (self.ids_seq()[pr.0 as int], pr.1, self.store()[pr.0 as int]@)
                },
        )
    }
}

} // verus!
