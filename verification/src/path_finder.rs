//! Paths through the graph of sites: the successors of a site, the pairs of
//! sites to connect, and the longest of the k shortest paths between them.

use vstd::prelude::*;
use std::sync::atomic::AtomicUsize;
use std::sync::atomic::Ordering;
use crate::graph_builder::Edges;

verus! {

/// A path (the sites along it) and its total travel time.
pub type Path = (Vec<String>, i64);

/// A list of paths.
pub type Paths = Vec<Path>;

/// A pair of distinct sites to find paths between.
pub struct Endpoint {
    pub source: String,
    pub dest: String,
}

impl DeepView for Endpoint {
    type V = (Seq<char>, Seq<char>);

    open spec fn deep_view(&self) -> (Seq<char>, Seq<char>) {
        (self.source@, self.dest@)
    }
}

impl Clone for Endpoint {
    fn clone(&self) -> (r: Self)
        ensures
            r.deep_view() == self.deep_view(),
    {
        Endpoint { source: self.source.clone(), dest: self.dest.clone() }
    }
}

/// How many shortest paths are asked for between two sites.
pub const YEN_K: usize = 9600;

/// The successors of `node` with the travel time to each: its edges, or
/// none where the graph has no entry for it.
pub open spec fn successors(graph: Map<Seq<char>, Seq<(Seq<char>, i64)>>, node: Seq<char>) -> Seq<
    (Seq<char>, i64),
> {
    if graph.contains_key(node) {
        graph[node]
    } else {
        Seq::empty()
    }
}

/// The successors of `node`, with the travel time to each.
pub fn edge_list(node: &String, edges: &Edges) -> (r: Vec<(String, i64)>)
    requires
        edges.wf(),
    ensures
        r.deep_view() == successors(edges@, node@),
        edges@.contains_key(node@) ==> r.deep_view() == edges@[node@],
        !edges@.contains_key(node@) ==> r@.len() == 0,
{
    let mut edge_touples: Vec<(String, i64)> = Vec::new();
    match edges.get(node.as_str()) {
        Some(list) => {
            let ghost lv = list.deep_view();
            let mut i: usize = 0;
            while i < list.len()
                invariant
                    lv == list.deep_view(),
                    i <= lv.len(),
                    edge_touples.deep_view() == lv.take(i as int),
                decreases lv.len() - i,
            {
                let ghost prev = edge_touples.deep_view();
                let edge = &list[i];
                edge_touples.push((edge.node.clone(), edge.distance));
                proof {
                    assert(edge_touples.deep_view() =~= prev.push(lv[i as int]));
                    assert(lv.take(i + 1) =~= lv.take(i as int).push(lv[i as int]));
                }
                i = i + 1;
            }
            proof {
                assert(lv.take(i as int) =~= lv);
            }
        },
        None => {
            proof {
                assert(edge_touples.deep_view() =~= Seq::<(Seq<char>, i64)>::empty());
            }
        },
    }
    edge_touples
}

/// Whether `node` is the destination.
pub fn is_target(node: &String, dest: &String) -> (r: bool)
    ensures
        r == (node@ == dest@),
{
    *node == *dest
}

/// The sum of the travel times of a list of edges.
pub open spec fn list_weight(es: Seq<(Seq<char>, i64)>) -> int
    decreases es.len(),
{
    if es.len() == 0 {
        0
    } else {
        list_weight(es.drop_last()) + es.last().1
    }
}

/// The sum of the travel times of all edges.
pub open spec fn total_weight(lists: Seq<Seq<(Seq<char>, i64)>>) -> int
    decreases lists.len(),
{
    if lists.len() == 0 {
        0
    } else {
        total_weight(lists.drop_last()) + list_weight(lists.last())
    }
}

/// No travel time is negative, and their sum fits in an `i64`. Every sum
/// that the path search forms adds distinct edges, so none can overflow.
pub open spec fn weights_fit(edges: &Edges) -> bool {
    &&& forall|i: int, j: int|
        0 <= i < edges.val_seq().len() && 0 <= j < edges.val_seq()[i].len() ==> 0
            <= #[trigger] edges.val_seq()[i][j].1
    &&& total_weight(edges.val_seq()) <= i64::MAX
}

/// `p` is a path from `source` to `dest` in `graph`: it starts at the
/// source, ends at the destination, visits no site twice, and each site is
/// followed by one of its successors.
pub open spec fn path_ok(
    graph: Map<Seq<char>, Seq<(Seq<char>, i64)>>,
    source: Seq<char>,
    dest: Seq<char>,
    p: Seq<Seq<char>>,
) -> bool {
    &&& p.len() > 0
    &&& p[0] == source
    &&& p.last() == dest
    &&& p.no_duplicates()
    &&& forall|m: int|
        0 <= m < p.len() - 1 ==> exists|j: int|
            0 <= j < successors(graph, #[trigger] p[m]).len() && successors(graph, p[m])[j].0
                == p[m + 1]
}

/// The sum of the travel times of the edges of `succ` that lead to `target`.
pub open spec fn weight_to(succ: Seq<(Seq<char>, i64)>, target: Seq<char>) -> int
    decreases succ.len(),
{
    if succ.len() == 0 {
        0
    } else {
        weight_to(succ.drop_last(), target) + if succ.last().0 == target {
            succ.last().1 as int
        } else {
            0
        }
    }
}

/// The travel time along `p`: for each step, the travel time of the edge
/// that leads to the next site.
pub open spec fn path_cost(graph: Map<Seq<char>, Seq<(Seq<char>, i64)>>, p: Seq<Seq<char>>) -> int
    decreases p.len(),
{
    if p.len() < 2 {
        0
    } else {
        path_cost(graph, p.drop_last()) + weight_to(successors(graph, p[p.len() - 2]), p.last())
    }
}

/// No site lists two edges to the same successor.
pub open spec fn no_repeated_targets(graph: Map<Seq<char>, Seq<(Seq<char>, i64)>>) -> bool {
    forall|k: Seq<char>, i: int, j: int|
        graph.contains_key(k) && 0 <= i < graph[k].len() && 0 <= j < graph[k].len() && i != j
            ==> (#[trigger] graph[k][i]).0 != (#[trigger] graph[k][j]).0
}

/// `entry` is a path found from `source` to `dest` with its cost: the path
/// is valid, and where no site lists two edges to the same successor its
/// cost is the travel time along it.
pub open spec fn found_path(
    graph: Map<Seq<char>, Seq<(Seq<char>, i64)>>,
    source: Seq<char>,
    dest: Seq<char>,
    entry: (Seq<Seq<char>>, i64),
) -> bool {
    &&& path_ok(graph, source, dest, entry.0)
    &&& no_repeated_targets(graph) ==> entry.1 == path_cost(graph, entry.0)
}

/// The paths that Yen's algorithm finds from `source` to `dest` in `graph`
/// when asked for at most `k` of them.
pub uninterp spec fn yen_paths(
    graph: Map<Seq<char>, Seq<(Seq<char>, i64)>>,
    source: Seq<char>,
    dest: Seq<char>,
    k: usize,
) -> Seq<(Seq<Seq<char>>, i64)>;

/// Calls `pathfinding::directed::yen::yen` with the successors of the edge
/// table and the destination as goal. Its result is named `yen_paths`; as
/// the function's documentation and source show, there are at most `k`
/// paths, each starts at the source, ends at a goal node, visits no node
/// twice and follows successor edges, and they come in order of cost,
/// cheapest first. Where no site lists two edges to the same successor, a
/// path's cost is the sum of the travel times of its edges; otherwise the
/// first path takes the cheaper of two such edges and the others add both,
/// so no cost is stated there. The documentation asks for costs that are not negative; the
/// sums the search forms stay within the sum of all costs.
#[verifier::external_body]
fn k_shortest_paths(source: &String, dest: &String, edges: &Edges, k: usize) -> (r: Vec<
    (Vec<String>, i64),
>)
    requires
        edges.wf(),
        weights_fit(edges),
    ensures
        r.deep_view() == yen_paths(edges@, source@, dest@, k),
        r.deep_view().len() <= k,
        forall|i: int|
            0 <= i < r.deep_view().len() ==> found_path(
                edges@,
                source@,
                dest@,
                #[trigger] r.deep_view()[i],
            ),
        forall|i: int, j: int|
            0 <= i <= j < r.deep_view().len() ==> #[trigger] r.deep_view()[i].1
                <= #[trigger] r.deep_view()[j].1,
{
    pathfinding::directed::yen::yen(source, |c: &String| edge_list(c, edges), |c: &String| is_target(c, dest), k)
}

/// The last two elements of `ys`, last first; all of them if there are fewer.
pub open spec fn last_two_reversed<A>(ys: Seq<A>) -> Seq<A> {
    if ys.len() >= 2 {
        seq![ys[ys.len() - 1], ys[ys.len() - 2]]
    } else if ys.len() == 1 {
        seq![ys[0]]
    } else {
        Seq::empty()
    }
}

/// `paths` after one round of the search between `source` and `dest`: for
/// distinct sites, the two costliest of the paths found are appended,
/// costliest first; otherwise the list is unchanged.
pub open spec fn wrapper_result(
    source: Seq<char>,
    dest: Seq<char>,
    graph: Map<Seq<char>, Seq<(Seq<char>, i64)>>,
    paths: Seq<(Seq<Seq<char>>, i64)>,
) -> Seq<(Seq<Seq<char>>, i64)> {
    if source != dest {
        paths + last_two_reversed(yen_paths(graph, source, dest, YEN_K))
    } else {
        paths
    }
}

/// A round between different sites appends the last path that the search
/// found and then the one before it, as far as they exist, after the paths
/// already listed; a round from a site to itself changes nothing.
pub proof fn law_round_takes_last_found(
    source: Seq<char>,
    dest: Seq<char>,
    graph: Map<Seq<char>, Seq<(Seq<char>, i64)>>,
    paths: Seq<(Seq<Seq<char>>, i64)>,
)
    ensures
        source == dest ==> wrapper_result(source, dest, graph, paths) == paths,
        source != dest ==> ({
            let r = wrapper_result(source, dest, graph, paths);
            let ys = yen_paths(graph, source, dest, YEN_K);
            &&& r.len() == paths.len() + if ys.len() >= 2 {
                2
            } else {
                ys.len()
            }
            &&& r.take(paths.len() as int) == paths
            &&& ys.len() >= 1 ==> r[paths.len() as int] == ys[ys.len() - 1]
            &&& ys.len() >= 2 ==> r[paths.len() + 1int] == ys[ys.len() - 2]
        }),
{
    let r = wrapper_result(source, dest, graph, paths);
    assert(r.take(paths.len() as int) =~= paths);
}

/// After rounds from `source` to each site of `dests`, the listed paths
/// come first, and for every site other than the source the last path the
/// search found to it, and the one before it, are in the result.
pub proof fn law_rounds_collect_every_site(
    source: Seq<char>,
    dests: Seq<Seq<char>>,
    graph: Map<Seq<char>, Seq<(Seq<char>, i64)>>,
    paths: Seq<(Seq<Seq<char>>, i64)>,
)
    ensures
        paths.len() <= rounds_to(source, dests, graph, paths).len(),
        rounds_to(source, dests, graph, paths).take(paths.len() as int) == paths,
        forall|i: int|
            0 <= i < dests.len() && #[trigger] dests[i] != source ==> ({
                let ys = yen_paths(graph, source, dests[i], YEN_K);
                &&& ys.len() >= 1 ==> rounds_to(source, dests, graph, paths).contains(
                    ys[ys.len() - 1],
                )
                &&& ys.len() >= 2 ==> rounds_to(source, dests, graph, paths).contains(
                    ys[ys.len() - 2],
                )
            }),
    decreases dests.len(),
{
    if dests.len() == 0 {
        assert(paths.take(paths.len() as int) =~= paths);
    } else {
        let init = dests.drop_last();
        let d = dests.last();
        law_rounds_collect_every_site(source, init, graph, paths);
        let prev = rounds_to(source, init, graph, paths);
        let r = rounds_to(source, dests, graph, paths);
        law_round_takes_last_found(source, d, graph, prev);
        assert(r.take(prev.len() as int) == prev);
        assert(r.take(paths.len() as int) =~= prev.take(paths.len() as int));
        assert forall|i: int| 0 <= i < dests.len() && #[trigger] dests[i] != source implies ({
            let ys = yen_paths(graph, source, dests[i], YEN_K);
            &&& ys.len() >= 1 ==> r.contains(ys[ys.len() - 1])
            &&& ys.len() >= 2 ==> r.contains(ys[ys.len() - 2])
        }) by {
            let ys = yen_paths(graph, source, dests[i], YEN_K);
            if i < init.len() {
                assert(init[i] == dests[i]);
                if ys.len() >= 1 {
                    assert(prev.contains(ys[ys.len() - 1]));
                    let k = prev.index_of(ys[ys.len() - 1]);
                    assert(r.take(prev.len() as int)[k] == r[k]);
                    assert(r[k] == ys[ys.len() - 1]);
                }
                if ys.len() >= 2 {
                    assert(prev.contains(ys[ys.len() - 2]));
                    let k = prev.index_of(ys[ys.len() - 2]);
                    assert(r.take(prev.len() as int)[k] == r[k]);
                    assert(r[k] == ys[ys.len() - 2]);
                }
            } else {
                assert(dests[i] == d);
                if ys.len() >= 1 {
                    assert(r[prev.len() as int] == ys[ys.len() - 1]);
                }
                if ys.len() >= 2 {
                    assert(r[prev.len() + 1int] == ys[ys.len() - 2]);
                }
            }
        }
    }
}

/// A copy of a path.
fn copy_path(p: &Path) -> (r: Path)
    ensures
        r.deep_view() == p.deep_view(),
{
    let nodes = p.0.clone();
    assert(nodes.deep_view() =~= p.0.deep_view());
    (nodes, p.1)
}

/// Searches the paths from `source` to a different `dest` and appends the
/// two costliest of those found, costliest first.
pub fn yen_wrapper(source: &String, dest: &String, edges: &Edges, paths: Paths) -> (r: Paths)
    requires
        edges.wf(),
        source@ != dest@ ==> weights_fit(edges),
    ensures
        r.deep_view() == wrapper_result(source@, dest@, edges@, paths.deep_view()),
        paths@.len() <= r@.len() <= paths@.len() + 2,
        r.deep_view().take(paths@.len() as int) == paths.deep_view(),
        forall|i: int|
            paths@.len() <= i < r@.len() ==> found_path(
                edges@,
                source@,
                dest@,
                #[trigger] r.deep_view()[i],
            ),
        forall|i: int, j: int|
            paths@.len() <= i <= j < r@.len() ==> #[trigger] r.deep_view()[j].1
                <= #[trigger] r.deep_view()[i].1,
        source@ == dest@ ==> r.deep_view() == paths.deep_view(),
        source@ != dest@ ==> ({
            let ys = yen_paths(edges@, source@, dest@, YEN_K);
            &&& r@.len() == paths@.len() + if ys.len() >= 2 {
                2
            } else {
                ys.len()
            }
            &&& ys.len() >= 1 ==> r.deep_view()[paths@.len() as int] == ys[ys.len() - 1]
            &&& ys.len() >= 2 ==> r.deep_view()[paths@.len() + 1int] == ys[ys.len() - 2]
            &&& forall|j: int|
                0 <= j < ys.len() ==> #[trigger] ys[j].1 <= r.deep_view()[paths@.len() as int].1
        }),
{
    let ghost input = paths.deep_view();
    proof {
        law_round_takes_last_found(source@, dest@, edges@, input);
    }
    let mut paths = paths;
    if *source != *dest {
        let yen_output = k_shortest_paths(source, dest, edges, YEN_K);
        let ghost found = yen_output.deep_view();
        proof {
            assert forall|j: int| 0 <= j < found.len() implies #[trigger] found[j].1
                <= found[found.len() - 1].1 by {
                assert(found[j].1 <= found[found.len() - 1].1);
            }
            lemma_round_appends_paths(source@, dest@, edges, input);
        }
        let take: usize = 2;
        let actual_take: usize = if yen_output.len() >= take {
            take
        } else {
            yen_output.len()
        };
        {
            let ghost start = paths.deep_view();
            let n = yen_output.len();
            let mut t: usize = 0;
            while t < actual_take
                invariant
                    found == yen_output.deep_view(),
                    n == found.len(),
                    actual_take <= n,
                    actual_take == (if n >= 2 { 2 } else { n }),
                    t <= actual_take,
                    paths.deep_view() == start + last_two_reversed(found).take(t as int),
                decreases actual_take - t,
            {
                let copy = copy_path(&yen_output[n - 1 - t]);
                let ghost prev = paths.deep_view();
                paths.push(copy);
                proof {
                    assert(found[n - 1 - t] == yen_output@[n - 1 - t].deep_view());
                    assert(paths.deep_view() =~= prev.push(found[n - 1 - t]));
                    assert(last_two_reversed(found)[t as int] == found[n - 1 - t]);
                    assert(last_two_reversed(found).take(t + 1) =~= last_two_reversed(found).take(
                        t as int,
                    ).push(found[n - 1 - t]));
                }
                t = t + 1;
            }
            proof {
                assert(last_two_reversed(found).take(t as int) =~= last_two_reversed(found));
            }
        }
    }
    proof {
        if !(source@ != dest@) {
            assert(input.take(input.len() as int) =~= input);
        }
    }
    paths
}

/// `paths` after a round of the search from `source` to each site of
/// `dests`, in order.
pub open spec fn rounds_to(
    source: Seq<char>,
    dests: Seq<Seq<char>>,
    graph: Map<Seq<char>, Seq<(Seq<char>, i64)>>,
    paths: Seq<(Seq<Seq<char>>, i64)>,
) -> Seq<(Seq<Seq<char>>, i64)>
    decreases dests.len(),
{
    if dests.len() == 0 {
        paths
    } else {
        wrapper_result(source, dests.last(), graph, rounds_to(source, dests.drop_last(), graph, paths))
    }
}

/// `entry` is a path found from `source` to a site of `ks` other than the
/// source, with its cost.
pub open spec fn path_to_other_site(
    graph: Map<Seq<char>, Seq<(Seq<char>, i64)>>,
    source: Seq<char>,
    ks: Seq<Seq<char>>,
    entry: (Seq<Seq<char>>, i64),
) -> bool {
    exists|d: Seq<char>| ks.contains(d) && d != source && #[trigger] found_path(graph, source, d, entry)
}

/// Runs the search from `source` to every site of the graph, in order, and
/// collects, for each other site, the two costliest paths found, costliest
/// first.
pub fn yen_for_each_dest(source: &String, edges: &Edges) -> (r: Paths)
    requires
        edges.wf(),
        forall|i: int|
            0 <= i < edges.key_seq().len() && #[trigger] edges.key_seq()[i] != source@
                ==> weights_fit(edges),
    ensures
        r.deep_view() == rounds_to(source@, edges.key_seq(), edges@, Seq::empty()),
        forall|i: int|
            0 <= i < r@.len() ==> path_to_other_site(
                edges@,
                source@,
                edges.key_seq(),
                #[trigger] r.deep_view()[i],
            ),
        forall|i: int|
            0 <= i < edges.key_seq().len() && #[trigger] edges.key_seq()[i] != source@ ==> ({
                let ys = yen_paths(edges@, source@, edges.key_seq()[i], YEN_K);
                &&& ys.len() >= 1 ==> r.deep_view().contains(ys[ys.len() - 1])
                &&& ys.len() >= 2 ==> r.deep_view().contains(ys[ys.len() - 2])
            }),
{
    proof {
        law_rounds_collect_every_site(source@, edges.key_seq(), edges@, Seq::empty());
    }
    let ghost ks = edges.key_seq();
    let mut paths: Paths = Vec::new();
    let n = edges.len();
    let mut i: usize = 0;
    proof {
        assert(ks.take(0) =~= Seq::<Seq<char>>::empty());
        assert(paths.deep_view() =~= Seq::<(Seq<Seq<char>>, i64)>::empty());
    }
    while i < n
        invariant
            edges.wf(),
            ks == edges.key_seq(),
            forall|j: int| 0 <= j < ks.len() && #[trigger] ks[j] != source@ ==> weights_fit(edges),
            n == ks.len(),
            i <= n,
            paths.deep_view() == rounds_to(source@, ks.take(i as int), edges@, Seq::empty()),
            forall|m: int|
                0 <= m < paths@.len() ==> path_to_other_site(
                    edges@,
                    source@,
                    ks,
                    #[trigger] paths.deep_view()[m],
                ),
        decreases n - i,
    {
        let dest = edges.key_at(i);
        let ghost before = paths.deep_view();
        proof {
            assert(ks[i as int] == dest@);
            assert(ks.take(i + 1).drop_last() =~= ks.take(i as int));
            assert(ks.take(i + 1).last() == dest@);
        }
        paths = yen_wrapper(source, dest, edges, paths);
        proof {
            assert forall|m: int| 0 <= m < paths@.len() implies path_to_other_site(
                edges@,
                source@,
                ks,
                #[trigger] paths.deep_view()[m],
            ) by {
                if m < before.len() {
                    assert(paths.deep_view().take(before.len() as int)[m] == before[m]);
                    assert(paths.deep_view()[m] == before[m]);
                    assert(path_to_other_site(edges@, source@, ks, before[m]));
                } else {
                    assert(source@ != dest@);
                    assert(ks[i as int] == dest@);
                    assert(ks.contains(dest@) && dest@ != source@ && found_path(
                        edges@,
                        source@,
                        dest@,
                        paths.deep_view()[m],
                    ));
                }
            }
        }
        i = i + 1;
    }
    proof {
        assert(ks.take(n as int) =~= ks);
    }
    paths
}

/// The pairs (`src`, `d`) for each `d` of `ks` other than `src`, in order.
pub open spec fn pairs_from(src: Seq<char>, ks: Seq<Seq<char>>) -> Seq<(Seq<char>, Seq<char>)>
    decreases ks.len(),
{
    if ks.len() == 0 {
        Seq::empty()
    } else {
        let p = pairs_from(src, ks.drop_last());
        if src != ks.last() {
            p.push((src, ks.last()))
        } else {
            p
        }
    }
}

/// The pairs of distinct elements of `ks`, sources taken from `srcs`, in
/// order of source and then of destination.
pub open spec fn all_pairs(srcs: Seq<Seq<char>>, ks: Seq<Seq<char>>) -> Seq<
    (Seq<char>, Seq<char>),
>
    decreases srcs.len(),
{
    if srcs.len() == 0 {
        Seq::empty()
    } else {
        all_pairs(srcs.drop_last(), ks) + pairs_from(srcs.last(), ks)
    }
}

/// Every ordered pair of distinct sites of the graph.
pub fn source_dest_pairs(edges: &Edges) -> (r: Vec<Endpoint>)
    requires
        edges.wf(),
    ensures
        r.deep_view() == all_pairs(edges.key_seq(), edges.key_seq()),
{
    let ghost ks = edges.key_seq();
    let n = edges.len();
    let mut endpoints: Vec<Endpoint> = Vec::new();
    let mut i: usize = 0;
    proof {
        assert(endpoints.deep_view() =~= all_pairs(ks.take(0), ks));
    }
    while i < n
        invariant
            edges.wf(),
            ks == edges.key_seq(),
            n == ks.len(),
            i <= n,
            endpoints.deep_view() == all_pairs(ks.take(i as int), ks),
        decreases n - i,
    {
        let source = edges.key_at(i);
        let ghost before = endpoints.deep_view();
        let mut j: usize = 0;
        proof {
            assert(ks.take(0) =~= Seq::<Seq<char>>::empty());
            assert(endpoints.deep_view() =~= before + pairs_from(source@, ks.take(0)));
        }
        while j < n
            invariant
                edges.wf(),
                ks == edges.key_seq(),
                n == ks.len(),
                i < n,
                j <= n,
                source@ == ks[i as int],
                endpoints.deep_view() == before + pairs_from(source@, ks.take(j as int)),
            decreases n - j,
        {
            let dest = edges.key_at(j);
            proof {
                assert(ks.take(j + 1).drop_last() =~= ks.take(j as int));
                assert(ks.take(j + 1).last() == dest@);
            }
            if *source != *dest {
                let ghost prev = endpoints.deep_view();
                endpoints.push(Endpoint { source: source.clone(), dest: dest.clone() });
                proof {
                    assert(endpoints.deep_view() =~= prev.push((source@, dest@)));
                }
            }
            j = j + 1;
        }
        proof {
            assert(ks.take(n as int) =~= ks);
            assert(ks.take(i + 1).drop_last() =~= ks.take(i as int));
            assert(ks.take(i + 1).last() == source@);
        }
        i = i + 1;
    }
    proof {
        assert(ks.take(n as int) =~= ks);
    }
    endpoints
}

/// The paths of `a` followed by those of `b`.
pub fn merge_paths(a: Paths, b: Paths) -> (r: Paths)
    ensures
        r.deep_view() == a.deep_view() + b.deep_view(),
{
    let ghost av = a.deep_view();
    let ghost bv = b.deep_view();
    let mut a = a;
    for each in it: b
        invariant
            it.seq() == b@,
            bv == b.deep_view(),
            a.deep_view() == av + bv.take(it.index() as int),
    {
        let ghost i = it.index();
        let ghost prev = a.deep_view();
        proof {
            assert(bv[i as int] == each.deep_view());
        }
        a.push(each);
        proof {
            assert(a.deep_view() =~= prev.push(bv[i as int]));
            assert(bv.take(i + 1) =~= bv.take(i as int).push(bv[i as int]));
        }
    }
    proof {
        assert(bv.take(bv.len() as int) =~= bv);
    }
    a
}

/// `paths` after the rounds of the search for the pairs at positions
/// `idxs` of `eps`, in order.
pub open spec fn rounds_result(
    paths: Seq<(Seq<Seq<char>>, i64)>,
    eps: Seq<(Seq<char>, Seq<char>)>,
    idxs: Seq<usize>,
    graph: Map<Seq<char>, Seq<(Seq<char>, i64)>>,
) -> Seq<(Seq<Seq<char>>, i64)>
    decreases idxs.len(),
{
    if idxs.len() == 0 {
        paths
    } else {
        let ep = eps[idxs.last() as int];
        wrapper_result(ep.0, ep.1, graph, rounds_result(paths, eps, idxs.drop_last(), graph))
    }
}

/// Runs the search for the pair at position `idx` of `to_process`.
pub fn search_pair(idx: usize, to_process: &Vec<Endpoint>, edges: &Edges, paths: Paths) -> (r: Paths)
    requires
        idx < to_process@.len(),
        edges.wf(),
        to_process.deep_view()[idx as int].0 != to_process.deep_view()[idx as int].1 ==> weights_fit(
            edges,
        ),
    ensures
        r.deep_view() == wrapper_result(
            to_process.deep_view()[idx as int].0,
            to_process.deep_view()[idx as int].1,
            edges@,
            paths.deep_view(),
        ),
{
    let endpoint = &to_process[idx];
    yen_wrapper(&endpoint.source, &endpoint.dest, edges, paths)
}

/// What a worker does with one position `idx` that it claimed from the
/// shared counter: past `max_idx` it is done and `paths` comes back
/// unchanged; otherwise it runs the search for the pair at position `idx`
/// (and no other) and goes on.
pub fn process_claimed_position(
    idx: usize,
    max_idx: usize,
    to_process: &Vec<Endpoint>,
    edges: &Edges,
    paths: Paths,
) -> (r: (bool, Paths))
    requires
        max_idx < to_process@.len(),
        edges.wf(),
        forall|i: int|
            0 <= i <= max_idx && (#[trigger] to_process.deep_view()[i]).0
                != to_process.deep_view()[i].1 ==> weights_fit(edges),
    ensures
        r.0 <==> idx > max_idx,
        idx > max_idx ==> r.1.deep_view() == paths.deep_view(),
        idx <= max_idx ==> r.1.deep_view() == wrapper_result(
            to_process.deep_view()[idx as int].0,
            to_process.deep_view()[idx as int].1,
            edges@,
            paths.deep_view(),
        ),
{
    if idx > max_idx {
        (true, paths)
    } else {
        (false, search_pair(idx, to_process, edges, paths))
    }
}

/// Claims positions of `to_process` from a counter shared with other
/// workers and runs the search for each claimed pair, until the counter
/// passes `max_idx`. The counter only grows, so one worker claims at most
/// `max_idx + 1` positions; the loop stops at that count.
pub fn process_next_pair(
    atomic_idx: &AtomicUsize,
    max_idx: usize,
    to_process: &Vec<Endpoint>,
    edges: &Edges,
    paths: Paths,
) -> (r: Paths)
    requires
        max_idx < to_process@.len(),
        edges.wf(),
        forall|i: int|
            0 <= i <= max_idx && (#[trigger] to_process.deep_view()[i]).0
                != to_process.deep_view()[i].1 ==> weights_fit(edges),
    ensures
        exists|idxs: Seq<usize>|
            (forall|k: int| 0 <= k < idxs.len() ==> #[trigger] idxs[k] <= max_idx) && r.deep_view()
                == rounds_result(paths.deep_view(), to_process.deep_view(), idxs, edges@),
{
    let ghost start = paths.deep_view();
    let ghost eps = to_process.deep_view();
    let ghost mut idxs: Seq<usize> = Seq::empty();
    let mut paths = paths;
    let mut claimed: usize = 0;
    let total = to_process.len();
    loop
        invariant
            max_idx < to_process@.len(),
            total == to_process@.len(),
            edges.wf(),
            forall|i: int| 0 <= i <= max_idx && (#[trigger] eps[i]).0 != eps[i].1 ==> weights_fit(edges),
            eps == to_process.deep_view(),
            claimed <= max_idx + 1,
            forall|k: int| 0 <= k < idxs.len() ==> #[trigger] idxs[k] <= max_idx,
            paths.deep_view() == rounds_result(start, eps, idxs, edges@),
        ensures
            exists|ids: Seq<usize>|
                (forall|k: int| 0 <= k < ids.len() ==> #[trigger] ids[k] <= max_idx)
                    && paths.deep_view() == rounds_result(start, eps, ids, edges@),
        decreases max_idx + 1 - claimed,
    {
        let idx = atomic_idx.fetch_add(1, Ordering::SeqCst);
        if claimed > max_idx {
            break;
        }
        let (done, next) = process_claimed_position(idx, max_idx, to_process, edges, paths);
        paths = next;
        if done {
            break;
        }
        proof {
            assert(idxs.push(idx).drop_last() =~= idxs);
            idxs = idxs.push(idx);
        }
        claimed = claimed + 1;
    }
    paths
}

/// Given what the path search promises of its result, a round keeps the
/// listed paths and appends at most two paths from the source to the
/// destination, costliest first.
proof fn lemma_round_appends_paths(
    source: Seq<char>,
    dest: Seq<char>,
    edges: &Edges,
    paths: Seq<(Seq<Seq<char>>, i64)>,
)
    requires
        edges.wf(),
        forall|i: int|
            0 <= i < yen_paths(edges@, source, dest, YEN_K).len() ==> found_path(
                edges@,
                source,
                dest,
                #[trigger] yen_paths(edges@, source, dest, YEN_K)[i],
            ),
        forall|i: int, j: int|
            0 <= i <= j < yen_paths(edges@, source, dest, YEN_K).len() ==> #[trigger] yen_paths(
                edges@,
                source,
                dest,
                YEN_K,
            )[i].1 <= #[trigger] yen_paths(edges@, source, dest, YEN_K)[j].1,
    ensures
        ({
            let r = wrapper_result(source, dest, edges@, paths);
            &&& paths.len() <= r.len() <= paths.len() + 2
            &&& r.take(paths.len() as int) == paths
            &&& forall|i: int|
                paths.len() <= i < r.len() ==> found_path(edges@, source, dest, #[trigger] r[i])
            &&& forall|i: int, j: int|
                paths.len() <= i <= j < r.len() ==> #[trigger] r[j].1 <= #[trigger] r[i].1
        }),
{
    let r = wrapper_result(source, dest, edges@, paths);
    let ys = yen_paths(edges@, source, dest, YEN_K);
    assert(r.take(paths.len() as int) =~= paths);
    if source != dest {
        let t = last_two_reversed(ys);
        assert forall|i: int| paths.len() <= i < r.len() implies found_path(
            edges@,
            source,
            dest,
            #[trigger] r[i],
        ) by {
            assert(r[i] == t[i - paths.len()]);
            if ys.len() >= 2 {
                if i == paths.len() {
                    assert(t[0] == ys[ys.len() - 1]);
                } else {
                    assert(t[1] == ys[ys.len() - 2]);
                }
            } else {
                assert(t[0] == ys[0]);
            }
        }
        assert forall|i: int, j: int| paths.len() <= i <= j < r.len() implies #[trigger] r[j].1
            <= #[trigger] r[i].1 by {
            if ys.len() >= 2 && i < j {
                assert(r[i] == ys[ys.len() - 1]);
                assert(r[j] == ys[ys.len() - 2]);
            }
        }
    }
}

/// Every pair from `src` to an element of `ks` joins two different sites,
/// and each element of `ks` other than `src` appears as a destination.
pub proof fn lemma_pairs_from(src: Seq<char>, ks: Seq<Seq<char>>)
    ensures
        forall|i: int|
            0 <= i < pairs_from(src, ks).len() ==> {
                let p = #[trigger] pairs_from(src, ks)[i];
                &&& p.0 == src
                &&& p.1 != src
                &&& ks.contains(p.1)
            },
        forall|d: Seq<char>| ks.contains(d) && d != src ==> pairs_from(src, ks).contains((src, d)),
    decreases ks.len(),
{
    if ks.len() > 0 {
        let init = ks.drop_last();
        lemma_pairs_from(src, init);
        let p = pairs_from(src, init);
        assert forall|i: int| 0 <= i < pairs_from(src, ks).len() implies {
            let q = #[trigger] pairs_from(src, ks)[i];
            &&& q.0 == src
            &&& q.1 != src
            &&& ks.contains(q.1)
        } by {
            if i < p.len() {
                let q = p[i];
                assert(pairs_from(src, ks)[i] == q);
                let j = init.index_of(q.1);
                assert(ks[j] == q.1);
            } else {
                assert(ks[ks.len() - 1] == ks.last());
            }
        }
        assert forall|d: Seq<char>| ks.contains(d) && d != src implies pairs_from(src, ks).contains(
            (src, d),
        ) by {
            let j = ks.index_of(d);
            if j < ks.len() - 1 {
                assert(init[j] == d);
                assert(init.contains(d));
                let k = p.index_of((src, d));
                assert(pairs_from(src, ks)[k] == (src, d));
            } else {
                assert(pairs_from(src, ks)[pairs_from(src, ks).len() - 1] == (src, d));
            }
        }
    }
}

/// The pairs to search join two different sites of the graph, and every
/// ordered pair of different sites of the graph is among them.
pub proof fn law_pairs_distinct_and_complete(edges: &Edges)
    requires
        edges.wf(),
    ensures
        forall|i: int|
            0 <= i < all_pairs(edges.key_seq(), edges.key_seq()).len() ==> {
                let p = #[trigger] all_pairs(edges.key_seq(), edges.key_seq())[i];
                &&& p.0 != p.1
                &&& edges@.contains_key(p.0)
                &&& edges@.contains_key(p.1)
            },
        forall|s: Seq<char>, d: Seq<char>|
            edges@.contains_key(s) && edges@.contains_key(d) && s != d ==> #[trigger] all_pairs(
                edges.key_seq(),
                edges.key_seq(),
            ).contains((s, d)),
{
    let ks = edges.key_seq();
    lemma_all_pairs(ks, ks);
}

/// Pairs of `all_pairs(srcs, ks)` run from an element of `srcs` to a
/// different element of `ks`, and every such pair is present.
pub proof fn lemma_all_pairs(srcs: Seq<Seq<char>>, ks: Seq<Seq<char>>)
    ensures
        forall|i: int|
            0 <= i < all_pairs(srcs, ks).len() ==> {
                let p = #[trigger] all_pairs(srcs, ks)[i];
                &&& p.0 != p.1
                &&& srcs.contains(p.0)
                &&& ks.contains(p.1)
            },
        forall|s: Seq<char>, d: Seq<char>|
            srcs.contains(s) && ks.contains(d) && s != d ==> #[trigger] all_pairs(srcs, ks).contains(
                (s, d),
            ),
    decreases srcs.len(),
{
    if srcs.len() > 0 {
        let init = srcs.drop_last();
        let src = srcs.last();
        lemma_all_pairs(init, ks);
        lemma_pairs_from(src, ks);
        let a = all_pairs(init, ks);
        let b = pairs_from(src, ks);
        assert(all_pairs(srcs, ks) == a + b);
        assert forall|i: int| 0 <= i < all_pairs(srcs, ks).len() implies {
            let p = #[trigger] all_pairs(srcs, ks)[i];
            &&& p.0 != p.1
            &&& srcs.contains(p.0)
            &&& ks.contains(p.1)
        } by {
            if i < a.len() {
                let p = a[i];
                assert((a + b)[i] == p);
                let j = init.index_of(p.0);
                assert(srcs[j] == p.0);
            } else {
                let p = b[i - a.len()];
                assert((a + b)[i] == p);
                assert(srcs[srcs.len() - 1] == src);
            }
        }
        assert forall|s: Seq<char>, d: Seq<char>|
            srcs.contains(s) && ks.contains(d) && s != d implies #[trigger] all_pairs(
            srcs,
            ks,
        ).contains((s, d)) by {
            let j = srcs.index_of(s);
            if j < srcs.len() - 1 {
                assert(init[j] == s);
                assert(init.contains(s));
                assert(all_pairs(init, ks).contains((s, d)));
                let k = a.index_of((s, d));
                assert((a + b)[k] == (s, d));
            } else {
                assert(b.contains((s, d)));
                let k = b.index_of((s, d));
                assert((a + b)[a.len() + k] == (s, d));
            }
        }
    }
}

} // verus!
