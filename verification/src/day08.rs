//! Junction boxes joined into circuits: each pair of boxes that is connected
//! joins the circuits of the two boxes into one.

use std::collections::HashSet;
use vstd::prelude::*;

verus! {

/// The members of each cluster.
pub open spec fn sets_of(clusters: Seq<HashSet<usize>>) -> Seq<Set<usize>> {
    Seq::new(clusters.len(), |i: int| clusters[i]@)
}

/// The cluster holds one of the two points.
pub open spec fn touches(cluster: Set<usize>, a: usize, b: usize) -> bool {
    cluster.contains(a) || cluster.contains(b)
}

/// No point is in two clusters.
pub open spec fn disjoint_clusters(clusters: Seq<Set<usize>>) -> bool {
    forall|i: int, j: int, x: usize|
        0 <= i < j < clusters.len() && #[trigger] clusters[i].contains(x) ==> !#[trigger] clusters[j].contains(x)
}

/// The first cluster at or after `from` that holds one of the two points, or the number of
/// clusters where there is none.
pub open spec fn first_touching(clusters: Seq<Set<usize>>, a: usize, b: usize, from: int) -> int
    decreases clusters.len() - from,
{
    if from >= clusters.len() {
        clusters.len() as int
    } else if from >= 0 && touches(clusters[from], a, b) {
        from
    } else {
        first_touching(clusters, a, b, from + 1)
    }
}

/// The clusters after the points `a` and `b` are connected: a new cluster of the two where
/// no cluster holds either, the one cluster that holds one of them with both added, or the
/// first of the two clusters that hold them with both added and with the second cluster,
/// which leaves the list, poured in.
pub open spec fn connected(clusters: Seq<Set<usize>>, a: usize, b: usize) -> Seq<Set<usize>> {
    let i = first_touching(clusters, a, b, 0);
    if i >= clusters.len() {
        clusters.push(Set::empty().insert(a).insert(b))
    } else {
        let j = first_touching(clusters, a, b, i + 1);
        if j >= clusters.len() {
            clusters.update(i, clusters[i].insert(a).insert(b))
        } else {
            clusters.update(i, clusters[i].insert(a).insert(b).union(clusters[j])).remove(j)
        }
    }
}

/// The clusters after the first `count` pairs are connected, one after the other, to a
/// single cluster of the two points of the first pair.
pub open spec fn clusters_after(pairs: Seq<(usize, usize)>, count: int) -> Seq<Set<usize>>
    decreases count,
{
    if count <= 0 {
        seq![Set::empty().insert(pairs[0].0).insert(pairs[0].1)]
    } else {
        connected(clusters_after(pairs, count - 1), pairs[count - 1].0, pairs[count - 1].1)
    }
}

/// `first_touching` finds a cluster that holds one of the points, and none before it does.
pub proof fn lemma_first_touching(clusters: Seq<Set<usize>>, a: usize, b: usize, from: int)
    requires
        0 <= from,
    ensures
        from <= first_touching(clusters, a, b, from) || first_touching(clusters, a, b, from)
            == clusters.len(),
        first_touching(clusters, a, b, from) <= clusters.len(),
        first_touching(clusters, a, b, from) < clusters.len() ==> touches(
            clusters[first_touching(clusters, a, b, from)],
            a,
            b,
        ),
        forall|k: int|
            from <= k < first_touching(clusters, a, b, from) ==> !touches(
                #[trigger] clusters[k],
                a,
                b,
            ),
    decreases clusters.len() - from,
{
    if from < clusters.len() && !touches(clusters[from], a, b) {
        lemma_first_touching(clusters, a, b, from + 1);
    }
}

/// Among clusters that share no point, two at most hold one of two points.
pub proof fn lemma_no_third(clusters: Seq<Set<usize>>, a: usize, b: usize)
    requires
        disjoint_clusters(clusters),
    ensures
        ({
            let i = first_touching(clusters, a, b, 0);
            let j = first_touching(clusters, a, b, i + 1);
            i < clusters.len() && j < clusters.len() ==> forall|k: int|
                0 <= k < clusters.len() && k != i && k != j ==> !touches(
                    #[trigger] clusters[k],
                    a,
                    b,
                )
        }),
{
    let i = first_touching(clusters, a, b, 0);
    lemma_first_touching(clusters, a, b, 0);
    if i < clusters.len() {
        let j = first_touching(clusters, a, b, i + 1);
        lemma_first_touching(clusters, a, b, i + 1);
        if j < clusters.len() {
            assert forall|k: int| 0 <= k < clusters.len() && k != i && k != j implies !touches(
                #[trigger] clusters[k],
                a,
                b,
            ) by {
                if k > j && touches(clusters[k], a, b) {
                    if clusters[k].contains(a) {
                        assert(!clusters[i].contains(a));
                        assert(!clusters[j].contains(a));
                        assert(clusters[i].contains(b) && clusters[j].contains(b));
                    } else {
                        assert(!clusters[i].contains(b));
                        assert(!clusters[j].contains(b));
                        assert(clusters[i].contains(a) && clusters[j].contains(a));
                    }
                }
            }
        }
    }
}

/// Connecting two points keeps the clusters free of shared points.
pub proof fn lemma_connected_stays_disjoint(clusters: Seq<Set<usize>>, a: usize, b: usize)
    requires
        disjoint_clusters(clusters),
    ensures
        disjoint_clusters(connected(clusters, a, b)),
{
    let i = first_touching(clusters, a, b, 0);
    let after = connected(clusters, a, b);
    lemma_first_touching(clusters, a, b, 0);
    lemma_no_third(clusters, a, b);
    if i >= clusters.len() {
        assert forall|p: int, q: int, x: usize|
            0 <= p < q < after.len() && #[trigger] after[p].contains(x) implies !#[trigger] after[q].contains(x) by {
            if q == clusters.len() {
                assert(!touches(clusters[p], a, b));
            } else {
                assert(clusters[p].contains(x) ==> !clusters[q].contains(x));
            }
        }
    } else {
        let j = first_touching(clusters, a, b, i + 1);
        lemma_first_touching(clusters, a, b, i + 1);
        if j >= clusters.len() {
            assert forall|p: int, q: int, x: usize|
                0 <= p < q < after.len() && #[trigger] after[p].contains(x) implies !#[trigger] after[q].contains(x) by {
                assert(clusters[p].contains(x) ==> !clusters[q].contains(x));
                if p == i {
                    assert(!touches(clusters[q], a, b));
                }
                if q == i {
                    assert(!touches(clusters[p], a, b));
                }
            }
        } else {
            assert forall|p: int, q: int, x: usize|
                0 <= p < q < after.len() && #[trigger] after[p].contains(x) implies !#[trigger] after[q].contains(x) by {
                let p0 = if p < j {
                    p
                } else {
                    p + 1
                };
                let q0 = if q < j {
                    q
                } else {
                    q + 1
                };
                assert(clusters[p0].contains(x) ==> !clusters[q0].contains(x));
                if p0 < j {
                    assert(clusters[p0].contains(x) ==> !clusters[j].contains(x));
                } else {
                    assert(clusters[j].contains(x) ==> !clusters[p0].contains(x));
                }
                if q0 < j {
                    assert(clusters[q0].contains(x) ==> !clusters[j].contains(x));
                } else {
                    assert(clusters[j].contains(x) ==> !clusters[q0].contains(x));
                }
                if p0 == i {
                    assert(!touches(clusters[q0], a, b));
                }
                if q0 == i {
                    assert(!touches(clusters[p0], a, b));
                }
            }
        }
    }
}

/// The clusters after any number of pairs share no point.
pub proof fn lemma_clusters_after_disjoint(pairs: Seq<(usize, usize)>, count: int)
    ensures
        disjoint_clusters(clusters_after(pairs, count)),
    decreases count,
{
    if count > 0 {
        lemma_clusters_after_disjoint(pairs, count - 1);
        lemma_connected_stays_disjoint(
            clusters_after(pairs, count - 1),
            pairs[count - 1].0,
            pairs[count - 1].1,
        );
    }
}

/// Calls `HashSet::extend` of std, which inserts every item that it is given: the set then
/// holds what it held and what the other set held.
#[verifier::external_body]
fn absorb(into: &mut HashSet<usize>, from: HashSet<usize>)
    ensures
        final(into)@ == old(into)@.union(from@),
{
    into.extend(from)
}

/// Finds the first cluster at or after `from` that holds one of the two points.
fn find_touching(clusters: &Vec<HashSet<usize>>, pt_a: usize, pt_b: usize, from: usize) -> (r:
    usize)
    ensures
        r == first_touching(sets_of(clusters@), pt_a, pt_b, from as int),
{
    broadcast use vstd::std_specs::hash::group_hash_axioms;

    let mut idx = from;
    while idx < clusters.len()
        invariant
            from <= idx,
            first_touching(sets_of(clusters@), pt_a, pt_b, from as int) == first_touching(
                sets_of(clusters@),
                pt_a,
                pt_b,
                idx as int,
            ),
        decreases clusters.len() - idx,
    {
        assert(sets_of(clusters@)[idx as int] == clusters@[idx as int]@);
        if clusters[idx].contains(&pt_a) || clusters[idx].contains(&pt_b) {
            return idx;
        }
        idx += 1;
    }
    clusters.len()
}

/// Connects the points `pt_a` and `pt_b`: their clusters become one, as [`connected`] says.
pub fn update_clusters(pt_a: usize, pt_b: usize, clusters: &mut Vec<HashSet<usize>>)
    requires
        disjoint_clusters(sets_of(old(clusters)@)),
    ensures
        sets_of(final(clusters)@) == connected(sets_of(old(clusters)@), pt_a, pt_b),
        disjoint_clusters(sets_of(final(clusters)@)),
{
    broadcast use vstd::std_specs::hash::group_hash_axioms;

    let ghost before = sets_of(clusters@);
    proof {
        lemma_connected_stays_disjoint(before, pt_a, pt_b);
        lemma_first_touching(before, pt_a, pt_b, 0);
    }
    let first = find_touching(clusters, pt_a, pt_b, 0);
    if first >= clusters.len() {
        let mut fresh: HashSet<usize> = HashSet::new();
        fresh.insert(pt_a);
        fresh.insert(pt_b);
        clusters.push(fresh);
        assert(sets_of(clusters@) =~= connected(before, pt_a, pt_b));
        return ;
    }
    proof {
        lemma_first_touching(before, pt_a, pt_b, first + 1);
    }
    let second = find_touching(clusters, pt_a, pt_b, first + 1);
    if second >= clusters.len() {
        let mut grown: HashSet<usize> = HashSet::new();
        std::mem::swap(&mut grown, &mut clusters[first]);
        grown.insert(pt_a);
        grown.insert(pt_b);
        clusters.set(first, grown);
        assert(sets_of(clusters@) =~= connected(before, pt_a, pt_b));
        return ;
    }
    let mut grown: HashSet<usize> = HashSet::new();
    std::mem::swap(&mut grown, &mut clusters[first]);
    grown.insert(pt_a);
    grown.insert(pt_b);
    let other_cluster = clusters.remove(second);
    absorb(&mut grown, other_cluster);
    clusters.set(first, grown);
    assert(sets_of(clusters@) =~= connected(before, pt_a, pt_b));
}

/// The number of members of each cluster.
pub open spec fn sizes_of(clusters: Seq<Set<usize>>) -> Seq<usize> {
    Seq::new(clusters.len(), |i: int| clusters[i].len() as usize)
}

/// The numbers never fall along the list.
pub open spec fn ascending(sizes: Seq<usize>) -> bool {
    forall|i: int, j: int| 0 <= i <= j < sizes.len() ==> sizes[i] <= sizes[j]
}

/// The number at `back` places from the end of the list, and one where the list is shorter.
pub open spec fn from_end(sizes: Seq<usize>, back: int) -> int {
    if 1 <= back <= sizes.len() {
        sizes[sizes.len() - back] as int
    } else {
        1
    }
}

/// The product of the last three numbers of the list, or of all where there are fewer.
pub open spec fn last_three_product(sizes: Seq<usize>) -> int {
    from_end(sizes, 3) * from_end(sizes, 2) * from_end(sizes, 1)
}

/// The cluster spans all `points` points by itself.
pub open spec fn is_complete(clusters: Seq<Set<usize>>, points: int) -> bool {
    clusters.len() == 1 && clusters[0].len() == points
}

/// Calls `sort_unstable` of std, whose documentation promises the items in ascending order,
/// none lost or made up: that is what is claimed.
#[verifier::external_body]
fn sort_sizes(sizes: &mut Vec<usize>)
    ensures
        ascending(final(sizes)@),
        final(sizes)@.to_multiset() == old(sizes)@.to_multiset(),
{
    sizes.sort_unstable()
}

/// A cluster of the two points of `pair`.
fn first_cluster(pair: (usize, usize)) -> (r: Vec<HashSet<usize>>)
    ensures
        sets_of(r@) == seq![Set::<usize>::empty().insert(pair.0).insert(pair.1)],
{
    broadcast use vstd::std_specs::hash::group_hash_axioms;

    let mut fresh: HashSet<usize> = HashSet::new();
    fresh.insert(pair.0);
    fresh.insert(pair.1);
    let mut clusters: Vec<HashSet<usize>> = Vec::new();
    clusters.push(fresh);
    assert(sets_of(clusters@) =~= seq![Set::<usize>::empty().insert(pair.0).insert(pair.1)]);
    clusters
}

/// The product of the sizes of the three greatest clusters, or of all clusters where there
/// are fewer, after the first `n_closest_pairs` pairs, or all pairs where there are fewer,
/// are connected. `None` where the product does not fit a `usize`.
pub fn solution_part1(pairs: &Vec<(usize, usize)>, n_closest_pairs: usize) -> (r: Option<usize>)
    requires
        pairs@.len() > 0,
    ensures
        exists|sorted: Seq<usize>|
            {
                &&& ascending(sorted)
                &&& sorted.to_multiset() == sizes_of(
                    clusters_after(
                        pairs@,
                        if n_closest_pairs <= pairs@.len() {
                            n_closest_pairs as int
                        } else {
                            pairs@.len() as int
                        },
                    ),
                ).to_multiset()
                &&& r == if #[trigger] last_three_product(sorted) <= usize::MAX {
                    Some(last_three_product(sorted) as usize)
                } else {
                    None
                }
            },
{
    broadcast use vstd::std_specs::hash::group_hash_axioms;

    let mut clusters = first_cluster(pairs[0]);
    let count = if n_closest_pairs <= pairs.len() {
        n_closest_pairs
    } else {
        pairs.len()
    };
    proof {
        lemma_clusters_after_disjoint(pairs@, 0);
    }
    let mut k: usize = 0;
    while k < count
        invariant
            k <= count <= pairs@.len(),
            sets_of(clusters@) == clusters_after(pairs@, k as int),
            disjoint_clusters(sets_of(clusters@)),
        decreases count - k,
    {
        let (pt_a, pt_b) = pairs[k];
        update_clusters(pt_a, pt_b, &mut clusters);
        k += 1;
    }
    let mut lengths: Vec<usize> = Vec::new();
    let mut i: usize = 0;
    while i < clusters.len()
        invariant
            i <= clusters@.len(),
            lengths@ == sizes_of(sets_of(clusters@)).take(i as int),
        decreases clusters@.len() - i,
    {
        assert(sets_of(clusters@)[i as int] == clusters@[i as int]@);
        lengths.push(clusters[i].len());
        assert(lengths@ =~= sizes_of(sets_of(clusters@)).take(i + 1));
        i += 1;
    }
    assert(lengths@ == sizes_of(sets_of(clusters@))) by {
        assert(sizes_of(sets_of(clusters@)).take(i as int) == sizes_of(sets_of(clusters@)));
    }
    sort_sizes(&mut lengths);
    let n = lengths.len();
    let third: usize = if n >= 3 {
        lengths[n - 3]
    } else {
        1
    };
    let second: usize = if n >= 2 {
        lengths[n - 2]
    } else {
        1
    };
    let first: usize = if n >= 1 {
        lengths[n - 1]
    } else {
        1
    };
    assert(last_three_product(lengths@) == third * second * first);
    let r = match third.checked_mul(second) {
        Some(two) => two.checked_mul(first),
        None => {
            proof {
                assert(third * second * first > usize::MAX) by (nonlinear_arith)
                    requires
                        third * second > usize::MAX,
                        first >= second,
                        second >= 0,
                        third >= 0,
                ;
            }
            None
        },
    };
    r
}

/// The product of the first coordinates of the two points of the pair whose connection
/// first leaves a single cluster of all the points that `xs` lists. `None` where no pair
/// does.
pub fn solution_part2(pairs: &Vec<(usize, usize)>, xs: &Vec<u32>) -> (r: Option<u64>)
    requires
        pairs@.len() > 0,
        forall|k: int|
            0 <= k < pairs@.len() ==> (#[trigger] pairs@[k]).0 < xs@.len() && pairs@[k].1 < xs@.len(),
    ensures
        match r {
            Some(product) => exists|k: int|
                {
                    &&& 0 <= k < pairs@.len()
                    &&& #[trigger] is_complete(clusters_after(pairs@, k + 1), xs@.len() as int)
                    &&& forall|j: int|
                        0 <= j < k ==> !#[trigger] is_complete(
                            clusters_after(pairs@, j + 1),
                            xs@.len() as int,
                        )
                    &&& product == xs@[pairs@[k].0 as int] * xs@[pairs@[k].1 as int]
                },
            None => forall|k: int|
                0 <= k < pairs@.len() ==> !#[trigger] is_complete(
                    clusters_after(pairs@, k + 1),
                    xs@.len() as int,
                ),
        },
{
    broadcast use vstd::std_specs::hash::group_hash_axioms;

    let mut clusters = first_cluster(pairs[0]);
    proof {
        lemma_clusters_after_disjoint(pairs@, 0);
    }
    let mut k: usize = 0;
    while k < pairs.len()
        invariant
            k <= pairs@.len(),
            sets_of(clusters@) == clusters_after(pairs@, k as int),
            disjoint_clusters(sets_of(clusters@)),
            forall|t: int|
                0 <= t < pairs@.len() ==> (#[trigger] pairs@[t]).0 < xs@.len() && pairs@[t].1
                    < xs@.len(),
            forall|j: int|
                0 <= j < k ==> !#[trigger] is_complete(
                    clusters_after(pairs@, j + 1),
                    xs@.len() as int,
                ),
        decreases pairs@.len() - k,
    {
        let (pt_a, pt_b) = pairs[k];
        update_clusters(pt_a, pt_b, &mut clusters);
        assert(sets_of(clusters@) == clusters_after(pairs@, k + 1));
        if clusters.len() == 1 {
            assert(sets_of(clusters@)[0] == clusters@[0]@);
            if clusters[0].len() == xs.len() {
                assert(is_complete(clusters_after(pairs@, k + 1), xs@.len() as int));
                let x_a = xs[pt_a] as u64;
                let x_b = xs[pt_b] as u64;
                assert(x_a * x_b <= u64::MAX) by (nonlinear_arith)
                    requires
                        x_a <= 0xffff_ffff,
                        x_b <= 0xffff_ffff,
                ;
                return Some(x_a * x_b);
            }
        }
        k += 1;
    }
    None
}

} // verus!
