//! Partitioning a pixel set into connected components.
//!
//! Two pixels are adjacent when both coordinate offsets are within
//! `ADJACENT_THRESHOLD` (a Chebyshev-distance bound, loose enough to bridge
//! small anti-aliasing gaps). Components are grown by a visited-guarded
//! flood fill over pixel indices; the contract states that the components
//! partition the input exactly (every input occurrence lands in exactly one
//! component) and that each component is closed under adjacency, so no
//! maximal connected component is ever split.

use vstd::prelude::*;
use vstd::multiset::Multiset;
use crate::pixel::{Pixel, valid_pixel, all_pixels_valid};

verus! {

broadcast use vstd::seq_lib::group_to_multiset_ensures;

/// Chebyshev radius within which two pixels count as adjacent.
pub const ADJACENT_THRESHOLD: i64 = 2;

/// Two pixels are adjacent when both coordinate offsets are within the
/// threshold; the relation is symmetric and reflexive.
pub open spec fn adjacent(p: Pixel, q: Pixel) -> bool {
    &&& -(ADJACENT_THRESHOLD as int) <= p.x - q.x <= ADJACENT_THRESHOLD as int
    &&& -(ADJACENT_THRESHOLD as int) <= p.y - q.y <= ADJACENT_THRESHOLD as int
}

/// Whether two pixels are adjacent.
pub fn is_adjacent(p: &Pixel, q: &Pixel) -> (r: bool)
    ensures
        r == adjacent(*p, *q),
{
    let dx = p.x as i64 - q.x as i64;
    let dy = p.y as i64 - q.y as i64;
    -ADJACENT_THRESHOLD <= dx && dx <= ADJACENT_THRESHOLD && -ADJACENT_THRESHOLD <= dy && dy
        <= ADJACENT_THRESHOLD
}

/// The views of a list of pixel vectors.
pub open spec fn views_of(cs: Seq<Vec<Pixel>>) -> Seq<Seq<Pixel>> {
    cs.map_values(|v: Vec<Pixel>| v@)
}

/// The combined multiset of pixels over a list of clusters.
pub open spec fn clusters_pixels_mset(cs: Seq<Seq<Pixel>>) -> Multiset<Pixel>
    decreases cs.len(),
{
    if cs.len() == 0 {
        Multiset::empty()
    } else {
        clusters_pixels_mset(cs.drop_last()).add(cs.last().to_multiset())
    }
}

/// A cluster is closed under adjacency: every input pixel adjacent to a
/// member is itself a member.
pub open spec fn cluster_closed(cluster: Seq<Pixel>, input: Seq<Pixel>) -> bool {
    forall|a: int, j: int|
        0 <= a < cluster.len() && 0 <= j < input.len() && #[trigger] adjacent(
            cluster[a],
            input[j],
        ) ==> cluster.contains(input[j])
}

pub open spec fn clusters_closed(cs: Seq<Seq<Pixel>>, input: Seq<Pixel>) -> bool {
    forall|k: int| 0 <= k < cs.len() ==> cluster_closed(#[trigger] cs[k], input)
}

/// Each member after the first is adjacent to an earlier member, so the
/// whole cluster is connected under the adjacency relation.
pub open spec fn chained(c: Seq<Pixel>) -> bool {
    forall|a: int|
        #![trigger c[a]]
        0 < a < c.len() ==> exists|b: int| 0 <= b < a && adjacent(c[b], c[a])
}

pub open spec fn clusters_chained(cs: Seq<Seq<Pixel>>) -> bool {
    forall|k: int| 0 <= k < cs.len() ==> chained(#[trigger] cs[k])
}

/// The clusters partition the input: their pixels add up to exactly the
/// input multiset (so components are exhaustive and pairwise disjoint), and
/// none is empty.
pub open spec fn is_partition(cs: Seq<Seq<Pixel>>, input: Seq<Pixel>) -> bool {
    &&& clusters_pixels_mset(cs) == input.to_multiset()
    &&& forall|k: int| 0 <= k < cs.len() ==> (#[trigger] cs[k]).len() > 0
}

/// Multiset of the input pixels whose index below `k` is marked visited.
spec fn visited_mset(input: Seq<Pixel>, visited: Seq<bool>, k: int) -> Multiset<Pixel>
    decreases k,
{
    if k <= 0 {
        Multiset::empty()
    } else if visited[k - 1] {
        visited_mset(input, visited, k - 1).insert(input[k - 1])
    } else {
        visited_mset(input, visited, k - 1)
    }
}

proof fn lemma_visited_mset_update(input: Seq<Pixel>, v: Seq<bool>, j: int, k: int)
    requires
        v.len() == input.len(),
        0 <= j < input.len(),
        !v[j],
        0 <= k <= input.len(),
    ensures
        visited_mset(input, v.update(j, true), k) == if j < k {
            visited_mset(input, v, k).insert(input[j])
        } else {
            visited_mset(input, v, k)
        },
    decreases k,
{
    if k > 0 {
        lemma_visited_mset_update(input, v, j, k - 1);
        let v2 = v.update(j, true);
        if j == k - 1 {
            assert(visited_mset(input, v2, k) == visited_mset(input, v2, k - 1).insert(
                input[k - 1],
            ));
        } else if j < k - 1 {
            if v[k - 1] {
                assert(visited_mset(input, v2, k) =~= visited_mset(input, v, k).insert(input[j]));
            }
        }
    }
}

proof fn lemma_visited_mset_all(input: Seq<Pixel>, visited: Seq<bool>, k: int)
    requires
        visited.len() == input.len(),
        0 <= k <= input.len(),
        forall|j: int| 0 <= j < k ==> visited[j],
    ensures
        visited_mset(input, visited, k) == input.take(k).to_multiset(),
    decreases k,
{
    if k == 0 {
        assert(input.take(0) =~= Seq::<Pixel>::empty());
        assert(Seq::<Pixel>::empty().to_multiset().len() == 0);
        assert(visited_mset(input, visited, 0) =~= input.take(0).to_multiset());
    } else {
        lemma_visited_mset_all(input, visited, k - 1);
        assert(input.take(k) =~= input.take(k - 1).push(input[k - 1]));
        assert(input.take(k - 1).push(input[k - 1]).to_multiset() =~= input.take(
            k - 1,
        ).to_multiset().insert(input[k - 1]));
    }
}

/// Count of indices not yet visited; the flood fill's termination measure.
spec fn count_unvisited(visited: Seq<bool>) -> int
    decreases visited.len(),
{
    if visited.len() == 0 {
        0int
    } else {
        count_unvisited(visited.drop_last()) + if visited.last() {
            0int
        } else {
            1int
        }
    }
}

proof fn lemma_count_unvisited_update(v: Seq<bool>, j: int)
    requires
        0 <= j < v.len(),
        !v[j],
    ensures
        count_unvisited(v.update(j, true)) == count_unvisited(v) - 1,
        count_unvisited(v) >= 1,
    decreases v.len(),
{
    let v2 = v.update(j, true);
    if j == v.len() - 1 {
        assert(v2.drop_last() =~= v.drop_last());
        lemma_count_unvisited_nonneg(v.drop_last());
    } else {
        lemma_count_unvisited_update(v.drop_last(), j);
        assert(v2.drop_last() =~= v.drop_last().update(j, true));
        assert(v2.last() == v.last());
    }
}

proof fn lemma_visited_mset_none(input: Seq<Pixel>, visited: Seq<bool>, k: int)
    requires
        0 <= k <= input.len(),
        forall|j: int| 0 <= j < k ==> !visited[j],
    ensures
        visited_mset(input, visited, k) == Multiset::<Pixel>::empty(),
    decreases k,
{
    if k > 0 {
        lemma_visited_mset_none(input, visited, k - 1);
    }
}

proof fn lemma_count_unvisited_nonneg(v: Seq<bool>)
    ensures
        count_unvisited(v) >= 0,
    decreases v.len(),
{
    if v.len() > 0 {
        lemma_count_unvisited_nonneg(v.drop_last());
    }
}

proof fn lemma_clusters_mset_len(cs: Seq<Seq<Pixel>>)
    requires
        forall|k: int| 0 <= k < cs.len() ==> (#[trigger] cs[k]).len() > 0,
    ensures
        clusters_pixels_mset(cs).len() >= cs.len(),
    decreases cs.len(),
{
    broadcast use vstd::multiset::group_multiset_axioms;

    if cs.len() > 0 {
        lemma_clusters_mset_len(cs.drop_last());
        assert(cs.last().to_multiset().len() == cs.last().len());
    }
}

/// A member of the component is either still on the frontier stack or has
/// had all its neighbors visited.
spec fn neighbors_visited(p: Pixel, input: Seq<Pixel>, visited: Seq<bool>) -> bool {
    forall|j: int| 0 <= j < input.len() && adjacent(p, #[trigger] input[j]) ==> visited[j]
}

spec fn in_stack(st: Seq<usize>, input: Seq<Pixel>, p: Pixel) -> bool {
    exists|t: int| 0 <= t < st.len() && input[#[trigger] st[t] as int] == p
}

spec fn stack_ok(st: Seq<usize>, input: Seq<Pixel>, visited: Seq<bool>, merged: Seq<Pixel>) -> bool {
    forall|t: int|
        0 <= t < st.len() ==> (#[trigger] st[t] as int) < input.len() && visited[st[t] as int]
            && merged.contains(input[st[t] as int])
}

spec fn frontier_ok(merged: Seq<Pixel>, st: Seq<usize>, input: Seq<Pixel>, visited: Seq<bool>) -> bool {
    forall|a: int|
        0 <= a < merged.len() ==> in_stack(st, input, #[trigger] merged[a]) || neighbors_visited(
            merged[a],
            input,
            visited,
        )
}

spec fn not_in_any(cs: Seq<Seq<Pixel>>, p: Pixel) -> bool {
    forall|k: int| 0 <= k < cs.len() ==> !(#[trigger] cs[k]).contains(p)
}

spec fn vis_covered(input: Seq<Pixel>, visited: Seq<bool>, cs: Seq<Seq<Pixel>>, merged: Seq<Pixel>) -> bool {
    forall|j: int|
        #![trigger input[j]]
        0 <= j < input.len() && visited[j] ==> merged.contains(input[j]) || exists|k: int|
            0 <= k < cs.len() && (#[trigger] cs[k]).contains(input[j])
}

spec fn unvis_not_in(input: Seq<Pixel>, visited: Seq<bool>, cs: Seq<Seq<Pixel>>) -> bool {
    forall|j: int|
        #![trigger input[j]]
        0 <= j < input.len() && !visited[j] ==> not_in_any(cs, input[j])
}

spec fn merged_from_input(merged: Seq<Pixel>, input: Seq<Pixel>) -> bool {
    forall|a: int| 0 <= a < merged.len() ==> input.contains(#[trigger] merged[a])
}

spec fn merged_fresh(merged: Seq<Pixel>, cs: Seq<Seq<Pixel>>) -> bool {
    forall|a: int| 0 <= a < merged.len() ==> not_in_any(cs, #[trigger] merged[a])
}

/// Grow the connected component seeded at index `seed` by a stack-based
/// flood fill, marking every newly reached index visited and returning the
/// component's pixels.
fn grow_component(
    pixel_list: &Vec<Pixel>,
    visited: &mut Vec<bool>,
    seed: usize,
    Ghost(cs): Ghost<Seq<Seq<Pixel>>>,
) -> (merged: Vec<Pixel>)
    requires
        old(visited)@.len() == pixel_list@.len(),
        seed < pixel_list@.len(),
        !old(visited)@[seed as int],
        clusters_closed(cs, pixel_list@),
        vis_covered(pixel_list@, old(visited)@, cs, Seq::<Pixel>::empty()),
        unvis_not_in(pixel_list@, old(visited)@, cs),
    ensures
        final (visited)@.len() == pixel_list@.len(),
        forall|j: int|
            0 <= j < pixel_list@.len() && old(visited)@[j] ==> final (visited)@[j],
        final (visited)@[seed as int],
        merged@.len() > 0,
        merged_from_input(merged@, pixel_list@),
        merged_fresh(merged@, cs),
        cluster_closed(merged@, pixel_list@),
        chained(merged@),
        visited_mset(pixel_list@, final (visited)@, pixel_list@.len() as int) == visited_mset(
            pixel_list@,
            old(visited)@,
            pixel_list@.len() as int,
        ).add(merged@.to_multiset()),
        vis_covered(pixel_list@, final (visited)@, cs, merged@),
        unvis_not_in(pixel_list@, final (visited)@, cs),
        forall|j: int|
            #![trigger pixel_list@[j]]
            0 <= j < pixel_list@.len() && !final (visited)@[j] ==> !merged@.contains(
                pixel_list@[j],
            ),
{
    let n = pixel_list.len();
    let ghost input = pixel_list@;
    let ghost base = visited@;
    let ghost nn = n as int;
    let seed_pixel = pixel_list[seed];
    visited[seed] = true;
    let mut merged: Vec<Pixel> = Vec::new();
    merged.push(seed_pixel);
    let mut stack: Vec<usize> = Vec::new();
    stack.push(seed);
    proof {
        lemma_visited_mset_update(input, base, seed as int, nn);
        assert(merged@.to_multiset() =~= Multiset::<Pixel>::empty().insert(input[seed as int]));
        assert(visited_mset(input, visited@, nn) =~= visited_mset(input, base, nn).add(
            merged@.to_multiset(),
        ));
        assert(stack@[0] == seed);
        assert(input[stack@[0] as int] == merged@[0]);
        assert(in_stack(stack@, input, merged@[0]));
        assert(input.contains(input[seed as int]));
    }
    while stack.len() > 0
        invariant
            input == pixel_list@,
            base.len() == input.len(),
            nn == input.len(),
            n == input.len(),
            visited@.len() == input.len(),
            seed < input.len(),
            visited@[seed as int],
            forall|j: int| 0 <= j < input.len() && base[j] ==> visited@[j],
            merged@.len() > 0,
            stack_ok(stack@, input, visited@, merged@),
            merged_from_input(merged@, input),
            merged_fresh(merged@, cs),
            clusters_closed(cs, input),
            vis_covered(input, visited@, cs, merged@),
            unvis_not_in(input, visited@, cs),
            chained(merged@),
            frontier_ok(merged@, stack@, input, visited@),
            visited_mset(input, visited@, nn) == visited_mset(input, base, nn).add(
                merged@.to_multiset(),
            ),
        decreases count_unvisited(visited@), stack@.len(),
    {
        proof {
            lemma_count_unvisited_nonneg(visited@);
        }
        let ghost count0 = count_unvisited(visited@);
        let ghost stack0 = stack@.len() as int;
        let ghost stack_before = stack@;
        let cur = stack.pop().unwrap();
        let cur_pixel = pixel_list[cur];
        proof {
            assert(cur == stack_before[stack_before.len() - 1]);
            assert(stack@ =~= stack_before.drop_last());
            // members pending on the popped entry fall under the scan clause
            assert forall|a: int|
                0 <= a < merged@.len() implies in_stack(stack@, input, #[trigger] merged@[a])
                || neighbors_visited(merged@[a], input, visited@) || merged@[a] == cur_pixel by {
                if in_stack(stack_before, input, merged@[a]) {
                    let t = choose|t: int|
                        0 <= t < stack_before.len() && input[#[trigger] stack_before[t] as int]
                            == merged@[a];
                    if t < stack_before.len() - 1 {
                        assert(input[stack@[t] as int] == merged@[a]);
                        assert(in_stack(stack@, input, merged@[a]));
                    } else {
                        assert(merged@[a] == cur_pixel);
                    }
                }
            }
        }
        let mut j: usize = 0;
        while j < n
            invariant
                input == pixel_list@,
                base.len() == input.len(),
                nn == input.len(),
                n == input.len(),
                visited@.len() == input.len(),
                seed < input.len(),
                visited@[seed as int],
                cur < input.len(),
                cur_pixel == input[cur as int],
                merged@.contains(cur_pixel),
                j <= n,
                forall|j2: int| 0 <= j2 < input.len() && base[j2] ==> visited@[j2],
                merged@.len() > 0,
                stack_ok(stack@, input, visited@, merged@),
                merged_from_input(merged@, input),
                merged_fresh(merged@, cs),
                clusters_closed(cs, input),
                vis_covered(input, visited@, cs, merged@),
                unvis_not_in(input, visited@, cs),
                chained(merged@),
                forall|a: int|
                    0 <= a < merged@.len() ==> in_stack(stack@, input, #[trigger] merged@[a])
                        || neighbors_visited(merged@[a], input, visited@) || (merged@[a]
                        == cur_pixel && forall|j2: int|
                        0 <= j2 < j && adjacent(cur_pixel, #[trigger] input[j2])
                            ==> visited@[j2]),
                visited_mset(input, visited@, nn) == visited_mset(input, base, nn).add(
                    merged@.to_multiset(),
                ),
                count_unvisited(visited@) + stack@.len() == count0 + stack0 - 1,
                count_unvisited(visited@) <= count0,
            decreases n - j,
        {
            if !visited[j] && is_adjacent(&cur_pixel, &pixel_list[j]) {
                proof {
                    lemma_count_unvisited_update(visited@, j as int);
                    lemma_visited_mset_update(input, visited@, j as int, nn);
                }
                let ghost old_stack = stack@;
                let ghost old_merged = merged@;
                visited[j] = true;
                merged.push(pixel_list[j]);
                stack.push(j);
                proof {
                    assert(merged@ =~= old_merged.push(input[j as int]));
                    assert(stack@ =~= old_stack.push(j));
                    assert(stack@[stack@.len() - 1] == j);
                    assert(merged@[merged@.len() - 1] == input[j as int]);
                    assert(in_stack(stack@, input, input[j as int]));
                    assert(merged@.contains(input[j as int]));
                    assert(input.contains(input[j as int]));
                    assert forall|p: Pixel| old_merged.contains(p) implies merged@.contains(
                        p,
                    ) by {
                        let a = choose|a: int| 0 <= a < old_merged.len() && old_merged[a] == p;
                        assert(merged@[a] == p);
                    }
                    assert forall|a: int|
                        0 <= a < old_merged.len() && in_stack(
                            old_stack,
                            input,
                            old_merged[a],
                        ) implies in_stack(stack@, input, old_merged[a]) by {
                        let t = choose|t: int|
                            0 <= t < old_stack.len() && input[#[trigger] old_stack[t] as int]
                                == old_merged[a];
                        assert(input[stack@[t] as int] == old_merged[a]);
                    }
                    // the new member is adjacent to the popped pixel, which
                    // is already somewhere in the component
                    assert forall|a: int|
                        #![trigger merged@[a]]
                        0 < a < merged@.len() implies exists|b: int|
                        0 <= b < a && adjacent(merged@[b], merged@[a]) by {
                        if a < old_merged.len() {
                            let b = choose|b: int|
                                0 <= b < a && adjacent(old_merged[b], old_merged[a]);
                            assert(adjacent(merged@[b], merged@[a]));
                        } else {
                            let bi = choose|bi: int|
                                0 <= bi < old_merged.len() && old_merged[bi] == cur_pixel;
                            assert(adjacent(merged@[bi], merged@[a]));
                        }
                    }
                    assert(merged@.to_multiset() =~= old_merged.to_multiset().insert(
                        input[j as int],
                    ));
                    assert(visited_mset(input, visited@, nn) =~= visited_mset(
                        input,
                        base,
                        nn,
                    ).add(merged@.to_multiset()));
                }
            }
            j += 1;
        }
        proof {
            lemma_count_unvisited_nonneg(visited@);
            // after the scan the popped pixel's neighbors are all visited
            assert forall|a: int|
                0 <= a < merged@.len() implies in_stack(stack@, input, #[trigger] merged@[a])
                || neighbors_visited(merged@[a], input, visited@) by {}
        }
    }
    proof {
        // the stack is empty, so every member has all its neighbors visited;
        // closure of the earlier clusters then forces every visited neighbor
        // back into this component
        assert forall|a: int, j: int|
            0 <= a < merged@.len() && 0 <= j < input.len() && #[trigger] adjacent(
                merged@[a],
                input[j],
            ) implies merged@.contains(input[j]) by {
            assert(!in_stack(stack@, input, merged@[a]));
            assert(neighbors_visited(merged@[a], input, visited@));
            assert(visited@[j]);
            if !merged@.contains(input[j]) {
                let k = choose|k: int| 0 <= k < cs.len() && (#[trigger] cs[k]).contains(input[j]);
                let a2 = choose|a2: int| 0 <= a2 < cs[k].len() && cs[k][a2] == input[j];
                let jm = choose|jm: int| 0 <= jm < input.len() && input[jm] == merged@[a];
                assert(adjacent(cs[k][a2], input[jm]));
                assert(cluster_closed(cs[k], input));
                assert(cs[k].contains(input[jm]));
                assert(not_in_any(cs, merged@[a]));
                assert(false);
            }
        }
        assert(cluster_closed(merged@, input));
        // an unvisited occurrence can share no value with the component:
        // equal pixels are adjacent, so its index would have been visited
        assert forall|j: int|
            #![trigger input[j]]
            0 <= j < input.len() && !visited@[j] implies !merged@.contains(input[j]) by {
            if merged@.contains(input[j]) {
                let a = choose|a: int| 0 <= a < merged@.len() && merged@[a] == input[j];
                assert(neighbors_visited(merged@[a], input, visited@));
                assert(visited@[j]);
            }
        }
    }
    merged
}

/// Partition the pixel list into maximal connected components under the
/// adjacency relation.
///
/// The components cover the input exactly — their pixel multisets add up to
/// the input multiset, so every input pixel occurrence belongs to exactly
/// one component — none is empty, and each is closed under adjacency with
/// respect to the whole input.
pub fn find_clusters(pixel_list: &Vec<Pixel>) -> (clusters: Vec<Vec<Pixel>>)
    ensures
        is_partition(views_of(clusters@), pixel_list@),
        clusters_closed(views_of(clusters@), pixel_list@),
        clusters_chained(views_of(clusters@)),
        all_pixels_valid(pixel_list@) ==> forall|k: int|
            0 <= k < clusters@.len() ==> all_pixels_valid(#[trigger] views_of(clusters@)[k]),
        clusters@.len() <= pixel_list@.len(),
{
    let n = pixel_list.len();
    let ghost input = pixel_list@;
    let ghost nn = n as int;
    let mut visited: Vec<bool> = vec![false; n];
    let mut clusters: Vec<Vec<Pixel>> = Vec::new();
    proof {
        assert(views_of(clusters@) =~= Seq::<Seq<Pixel>>::empty());
        lemma_visited_mset_none(input, visited@, nn);
        assert(clusters_pixels_mset(views_of(clusters@)) =~= visited_mset(input, visited@, nn));
    }
    let mut i: usize = 0;
    while i < n
        invariant
            input == pixel_list@,
            nn == input.len(),
            n == input.len(),
            visited@.len() == input.len(),
            i <= n,
            forall|j: int| 0 <= j < i ==> visited@[j],
            clusters_pixels_mset(views_of(clusters@)) == visited_mset(input, visited@, nn),
            forall|k: int| 0 <= k < views_of(clusters@).len() ==> (#[trigger] views_of(
                clusters@,
            )[k]).len() > 0,
            clusters_closed(views_of(clusters@), input),
            clusters_chained(views_of(clusters@)),
            vis_covered(input, visited@, views_of(clusters@), Seq::<Pixel>::empty()),
            unvis_not_in(input, visited@, views_of(clusters@)),
            forall|k: int|
                0 <= k < clusters@.len() ==> merged_from_input(
                    #[trigger] views_of(clusters@)[k],
                    input,
                ),
        decreases n - i,
    {
        if !visited[i] {
            let ghost cs = views_of(clusters@);
            let merged = grow_component(pixel_list, &mut visited, i, Ghost(cs));
            let ghost cs2 = cs.push(merged@);
            proof {
                assert(views_of(clusters@.push(merged)) =~= cs2);
                assert(cs2.drop_last() =~= cs);
                assert(cs2.last() == merged@);
                assert(clusters_pixels_mset(cs2) == clusters_pixels_mset(cs).add(
                    merged@.to_multiset(),
                ));
                // closure of the extended list
                assert forall|k: int| 0 <= k < cs2.len() implies cluster_closed(
                    #[trigger] cs2[k],
                    input,
                ) by {
                    if k < cs.len() {
                        assert(cs2[k] == cs[k]);
                    } else {
                        assert(cs2[k] == merged@);
                    }
                }
                // connectivity of the extended list
                assert forall|k: int| 0 <= k < cs2.len() implies chained(#[trigger] cs2[k]) by {
                    if k < cs.len() {
                        assert(cs2[k] == cs[k]);
                        assert(chained(views_of(clusters@)[k]));
                    } else {
                        assert(cs2[k] == merged@);
                    }
                }
                // coverage of the extended list
                assert forall|j: int|
                    #![trigger input[j]]
                    0 <= j < input.len() && visited@[j] implies Seq::<Pixel>::empty().contains(
                    input[j],
                ) || exists|k: int|
                    0 <= k < cs2.len() && (#[trigger] cs2[k]).contains(input[j]) by {
                    if merged@.contains(input[j]) {
                        assert(cs2[cs.len() as int] == merged@);
                        assert((cs.len() as int) < cs2.len() && cs2[cs.len() as int].contains(
                            input[j],
                        ));
                    } else {
                        let k = choose|k: int|
                            0 <= k < cs.len() && (#[trigger] cs[k]).contains(input[j]);
                        assert(cs2[k] == cs[k]);
                        assert(0 <= k < cs2.len() && cs2[k].contains(input[j]));
                    }
                }
                // unvisited pixels stay outside every cluster
                assert forall|j: int|
                    #![trigger input[j]]
                    0 <= j < input.len() && !visited@[j] implies not_in_any(cs2, input[j]) by {
                    assert(!merged@.contains(input[j]));
                    assert(not_in_any(cs, input[j]));
                    assert forall|k: int| 0 <= k < cs2.len() implies !(#[trigger] cs2[k]).contains(
                        input[j],
                    ) by {
                        if k < cs.len() {
                            assert(cs2[k] == cs[k]);
                        } else {
                            assert(cs2[k] == merged@);
                        }
                    }
                }
                // every cluster's pixels still come from the input
                assert forall|k: int|
                    0 <= k < cs2.len() implies merged_from_input(#[trigger] cs2[k], input) by {
                    if k < cs.len() {
                        assert(cs2[k] == cs[k]);
                        assert(merged_from_input(views_of(clusters@)[k], input));
                    } else {
                        assert(cs2[k] == merged@);
                    }
                }
            }
            clusters.push(merged);
        }
        i += 1;
    }
    proof {
        lemma_visited_mset_all(input, visited@, nn);
        assert(input.take(nn) =~= input);
        assert forall|k: int|
            all_pixels_valid(input) && 0 <= k < clusters@.len() implies all_pixels_valid(
            #[trigger] views_of(clusters@)[k],
        ) by {
            let c = views_of(clusters@)[k];
            assert forall|a: int| 0 <= a < c.len() implies valid_pixel(#[trigger] c[a]) by {
                assert(merged_from_input(c, input));
                assert(input.contains(c[a]));
                let jj = choose|jj: int| 0 <= jj < input.len() && input[jj] == c[a];
                assert(valid_pixel(input[jj]));
            }
        }
        lemma_clusters_mset_len(views_of(clusters@));
        assert(input.to_multiset().len() == input.len());
        assert(views_of(clusters@).len() == clusters@.len());
    }
    clusters
}

} // verus!
