//! From sites to a weighted graph: which sites are connected, what the
//! distance service is asked, and the edges built from its answers.

use vstd::prelude::*;
use crate::locator::{CfaProfiles, ProfileView};
use crate::str_map::StrMap;

verus! {

/// A directed edge: the destination site and the travel time to it.
pub struct Edge {
    pub node: String,
    pub distance: i64,
}

impl DeepView for Edge {
    type V = (Seq<char>, i64);

    open spec fn deep_view(&self) -> (Seq<char>, i64) {
        (self.node@, self.distance)
    }
}

impl Clone for Edge {
    fn clone(&self) -> (r: Self)
        ensures
            r.deep_view() == self.deep_view(),
    {
        Edge { node: self.node.clone(), distance: self.distance }
    }
}

/// A travel time, in seconds.
pub struct Duration {
    pub value: i64,
}

/// One origin-destination entry of a distance answer.
pub struct ElementObject {
    pub status: String,
    pub duration: Duration,
}

/// The entries of a distance answer for one origin.
pub struct RowObject {
    pub elements: Vec<ElementObject>,
}

/// A distance answer: one row per origin.
pub struct DistanceResponse {
    pub status: String,
    pub destination_addresses: Vec<String>,
    pub rows: Vec<RowObject>,
}

/// For each site, the sites it is connected to.
pub type ConnectionLists = StrMap<Vec<String>>;

/// For each site, its outgoing edges.
pub type Edges = StrMap<Vec<Edge>>;

/// How the distance service is told where a site is: by its place
/// identifier where it has one, else by "latitude,longitude".
pub open spec fn location_text(p: ProfileView) -> Seq<char> {
    match p.googlePlaceId {
        Some(place_id) => "place_id:"@ + place_id,
        None => p.yextRoutableCoordinate.0 + ","@ + p.yextRoutableCoordinate.1,
    }
}

/// The location text of the site with identifier `site_id`.
pub fn location_str_from(site_id: &str, profiles: &CfaProfiles) -> (r: String)
    requires
        profiles.wf(),
        profiles@.contains_key(site_id@),
    ensures
        r@ == location_text(profiles@[site_id@]),
{
    let profile = profiles.get(site_id).unwrap();
    match &profile.googlePlaceId {
        Some(place_id) => {
            let mut label = "place_id:".to_owned();
            label.append(place_id.as_str());
            label
        },
        None => {
            let mut label = profile.yextRoutableCoordinate.lat.clone();
            label.append(",");
            label.append(profile.yextRoutableCoordinate.long.as_str());
            label
        },
    }
}

/// The identifiers of the first `j` sites that site `i` is connected to:
/// those near it (as `near[i]` says) that are not the site itself.
pub open spec fn neighbours(ps: Seq<ProfileView>, near: Seq<Seq<bool>>, i: int, j: nat) -> Seq<
    Seq<char>,
>
    decreases j,
{
    if j == 0 {
        Seq::empty()
    } else {
        let prev = neighbours(ps, near, i, (j - 1) as nat);
        if ps[i].meta != ps[j - 1].meta && near[i][j - 1] {
            prev.push(ps[j - 1].meta)
        } else {
            prev
        }
    }
}

/// The connection lists of the first `n` sites: each site with at least one
/// neighbour gets its neighbours appended under its identifier.
pub open spec fn connections_upto(ps: Seq<ProfileView>, near: Seq<Seq<bool>>, n: nat) -> Map<
    Seq<char>,
    Seq<Seq<char>>,
>
    decreases n,
{
    if n == 0 {
        Map::empty()
    } else {
        let m = connections_upto(ps, near, (n - 1) as nat);
        let id = ps[n - 1].meta;
        let found = neighbours(ps, near, n - 1, ps.len());
        if found.len() == 0 {
            m
        } else {
            let prior = if m.contains_key(id) {
                m[id]
            } else {
                Seq::empty()
            };
            m.insert(id, prior + found)
        }
    }
}

/// The neighbours of a site are other sites of the table.
proof fn lemma_neighbours(ps: Seq<ProfileView>, near: Seq<Seq<bool>>, i: int, j: nat)
    requires
        0 <= i < ps.len(),
        j <= ps.len(),
    ensures
        forall|x: Seq<char>|
            #[trigger] neighbours(ps, near, i, j).contains(x) ==> x != ps[i].meta && exists|l: int|
                0 <= l < ps.len() && #[trigger] ps[l].meta == x,
    decreases j,
{
    if j > 0 {
        lemma_neighbours(ps, near, i, (j - 1) as nat);
        let prev = neighbours(ps, near, i, (j - 1) as nat);
        assert forall|x: Seq<char>| #[trigger] neighbours(ps, near, i, j).contains(x) implies x
            != ps[i].meta && exists|l: int| 0 <= l < ps.len() && #[trigger] ps[l].meta == x by {
            let cur = neighbours(ps, near, i, j);
            let k = cur.index_of(x);
            if k < prev.len() {
                assert(prev[k] == x);
                assert(prev.contains(x));
            } else {
                assert(x == ps[j - 1].meta);
            }
        }
    }
}

/// In the connection lists of the first `n` sites, no site is connected to
/// itself and every connected site is a site of the table.
proof fn lemma_connections_upto(ps: Seq<ProfileView>, near: Seq<Seq<bool>>, n: nat)
    requires
        n <= ps.len(),
    ensures
        forall|k: Seq<char>, x: Seq<char>|
            connections_upto(ps, near, n).contains_key(k) && #[trigger] connections_upto(
                ps,
                near,
                n,
            )[k].contains(x) ==> x != k && exists|l: int|
                0 <= l < ps.len() && #[trigger] ps[l].meta == x,
    decreases n,
{
    if n > 0 {
        lemma_connections_upto(ps, near, (n - 1) as nat);
        lemma_neighbours(ps, near, n - 1, ps.len());
        let m = connections_upto(ps, near, (n - 1) as nat);
        let id = ps[n - 1].meta;
        let found = neighbours(ps, near, n - 1, ps.len());
        let prior = if m.contains_key(id) {
            m[id]
        } else {
            Seq::empty()
        };
        assert forall|k: Seq<char>, x: Seq<char>|
            connections_upto(ps, near, n).contains_key(k) && #[trigger] connections_upto(
                ps,
                near,
                n,
            )[k].contains(x) implies x != k && exists|l: int|
                0 <= l < ps.len() && #[trigger] ps[l].meta == x by {
            if found.len() > 0 && k == id {
                let all = prior + found;
                let q = all.index_of(x);
                if q < prior.len() {
                    assert(prior[q] == x);
                    assert(m[k].contains(x));
                } else {
                    assert(found[q - prior.len()] == x);
                    assert(found.contains(x));
                }
            } else {
                assert(m[k].contains(x));
            }
        }
    }
}

/// A site is among the neighbours of site `i` exactly when it is one of the
/// first `j` sites, near site `i`, and not site `i` itself.
proof fn lemma_neighbours_members(ps: Seq<ProfileView>, near: Seq<Seq<bool>>, i: int, j: nat, x: Seq<char>)
    requires
        0 <= i < ps.len(),
        j <= ps.len(),
    ensures
        neighbours(ps, near, i, j).contains(x) <==> exists|l: int|
            0 <= l < j && #[trigger] ps[l].meta == x && x != ps[i].meta && near[i][l],
    decreases j,
{
    if j > 0 {
        lemma_neighbours_members(ps, near, i, (j - 1) as nat, x);
        let prev = neighbours(ps, near, i, (j - 1) as nat);
        let cur = neighbours(ps, near, i, j);
        if cur.contains(x) {
            let k = cur.index_of(x);
            if k < prev.len() {
                assert(prev[k] == x);
                assert(prev.contains(x));
            } else {
                assert(ps[j - 1].meta == x);
            }
        }
        if exists|l: int| 0 <= l < j && #[trigger] ps[l].meta == x && x != ps[i].meta && near[i][l] {
            let l = choose|l: int| 0 <= l < j && #[trigger] ps[l].meta == x && x != ps[i].meta && near[i][l];
            if l < j - 1 {
                assert(prev.contains(x));
                let k = prev.index_of(x);
                assert(cur[k] == x);
            } else {
                assert(cur[cur.len() - 1] == x);
            }
        }
    }
}

/// In the connection lists of the first `n` sites, `x` is listed under `k`
/// exactly when some of those sites carries `k` and has `x` as a neighbour.
proof fn lemma_connections_members(ps: Seq<ProfileView>, near: Seq<Seq<bool>>, n: nat, k: Seq<char>, x: Seq<char>)
    requires
        n <= ps.len(),
    ensures
        (connections_upto(ps, near, n).contains_key(k) && connections_upto(ps, near, n)[k].contains(x))
            <==> exists|i: int|
            0 <= i < n && #[trigger] ps[i].meta == k && neighbours(ps, near, i, ps.len()).contains(x),
    decreases n,
{
    if n > 0 {
        lemma_connections_members(ps, near, (n - 1) as nat, k, x);
        let m = connections_upto(ps, near, (n - 1) as nat);
        let id = ps[n - 1].meta;
        let found = neighbours(ps, near, n - 1, ps.len());
        let prior = if m.contains_key(id) {
            m[id]
        } else {
            Seq::empty()
        };
        if found.len() > 0 && k == id {
            let all = prior + found;
            if all.contains(x) {
                let q = all.index_of(x);
                if q < prior.len() {
                    assert(prior[q] == x);
                    assert(m[k].contains(x));
                } else {
                    assert(found[q - prior.len()] == x);
                    assert(ps[n - 1].meta == k && found.contains(x));
                }
            }
            if exists|i: int|
                0 <= i < n && #[trigger] ps[i].meta == k && neighbours(ps, near, i, ps.len()).contains(x) {
                let i = choose|i: int|
                    0 <= i < n && #[trigger] ps[i].meta == k && neighbours(ps, near, i, ps.len()).contains(x);
                if i < n - 1 {
                    assert(m.contains_key(k) && m[k].contains(x));
                    let q = prior.index_of(x);
                    assert(all[q] == x);
                } else {
                    let q = found.index_of(x);
                    assert(all[prior.len() + q] == x);
                }
            }
        } else {
            if exists|i: int|
                0 <= i < n && #[trigger] ps[i].meta == k && neighbours(ps, near, i, ps.len()).contains(x) {
                let i = choose|i: int|
                    0 <= i < n && #[trigger] ps[i].meta == k && neighbours(ps, near, i, ps.len()).contains(x);
                if i == n - 1 {
                    assert(found.contains(x));
                    assert(found.len() > 0);
                }
            }
        }
    }
}

/// A site is connected to another exactly when the two carry different
/// identifiers and the second is near the first.
pub proof fn law_connections_are_near_pairs(ps: Seq<ProfileView>, near: Seq<Seq<bool>>)
    ensures
        forall|i: int, j: int|
            0 <= i < ps.len() && 0 <= j < ps.len() && ps[i].meta != ps[j].meta && #[trigger] near[i][j]
                ==> connections_upto(ps, near, ps.len()).contains_key(ps[i].meta)
                && connections_upto(ps, near, ps.len())[ps[i].meta].contains(ps[j].meta),
        forall|k: Seq<char>, x: Seq<char>|
            connections_upto(ps, near, ps.len()).contains_key(k) && #[trigger] connections_upto(
                ps,
                near,
                ps.len(),
            )[k].contains(x) ==> exists|i: int, j: int|
                0 <= i < ps.len() && 0 <= j < ps.len() && #[trigger] ps[i].meta == k
                    && #[trigger] ps[j].meta == x && k != x && near[i][j],
{
    let m = connections_upto(ps, near, ps.len());
    assert forall|i: int, j: int|
        0 <= i < ps.len() && 0 <= j < ps.len() && ps[i].meta != ps[j].meta && #[trigger] near[i][j]
            implies m.contains_key(ps[i].meta) && m[ps[i].meta].contains(ps[j].meta) by {
        lemma_neighbours_members(ps, near, i, ps.len(), ps[j].meta);
        assert(neighbours(ps, near, i, ps.len()).contains(ps[j].meta));
        lemma_connections_members(ps, near, ps.len(), ps[i].meta, ps[j].meta);
    }
    assert forall|k: Seq<char>, x: Seq<char>|
        m.contains_key(k) && #[trigger] m[k].contains(x) implies exists|i: int, j: int|
            0 <= i < ps.len() && 0 <= j < ps.len() && #[trigger] ps[i].meta == k
                && #[trigger] ps[j].meta == x && k != x && near[i][j] by {
        lemma_connections_members(ps, near, ps.len(), k, x);
        let i = choose|i: int|
            0 <= i < ps.len() && #[trigger] ps[i].meta == k && neighbours(ps, near, i, ps.len()).contains(x);
        lemma_neighbours_members(ps, near, i, ps.len(), x);
        let j = choose|l: int| 0 <= l < ps.len() && #[trigger] ps[l].meta == x && x != ps[i].meta && near[i][l];
        assert(ps[i].meta == k && ps[j].meta == x && k != x && near[i][j]);
    }
}

/// When nearness goes both ways, connections are mutual: if one site is
/// connected to another, the other is connected to it.
pub proof fn law_connections_mutual(ps: Seq<ProfileView>, near: Seq<Seq<bool>>)
    requires
        near.len() == ps.len(),
        forall|i: int| 0 <= i < near.len() ==> #[trigger] near[i].len() == ps.len(),
        forall|i: int, j: int| 0 <= i < ps.len() && 0 <= j < ps.len() ==> near[i][j] == near[j][i],
    ensures
        forall|k: Seq<char>, x: Seq<char>|
            connections_upto(ps, near, ps.len()).contains_key(k) && #[trigger] connections_upto(
                ps,
                near,
                ps.len(),
            )[k].contains(x) ==> connections_upto(ps, near, ps.len()).contains_key(x)
                && connections_upto(ps, near, ps.len())[x].contains(k),
{
    let m = connections_upto(ps, near, ps.len());
    assert forall|k: Seq<char>, x: Seq<char>|
        m.contains_key(k) && #[trigger] m[k].contains(x) implies m.contains_key(x) && m[x].contains(k) by {
        lemma_connections_members(ps, near, ps.len(), k, x);
        let i = choose|i: int|
            0 <= i < ps.len() && #[trigger] ps[i].meta == k && neighbours(ps, near, i, ps.len()).contains(x);
        lemma_neighbours_members(ps, near, i, ps.len(), x);
        let l = choose|l: int| 0 <= l < ps.len() && #[trigger] ps[l].meta == x && x != ps[i].meta && near[i][l];
        lemma_neighbours_members(ps, near, l, ps.len(), k);
        assert(near[l][i]);
        assert(ps[i].meta == k && k != ps[l].meta);
        assert(neighbours(ps, near, l, ps.len()).contains(k));
        lemma_connections_members(ps, near, ps.len(), x, k);
    }
}

/// Connects each site to every other site near it. `near[i][j]` tells
/// whether the `j`-th site of the table lies near the `i`-th.
pub fn decide_connections_from(data: &CfaProfiles, near: &Vec<Vec<bool>>) -> (r: ConnectionLists)
    requires
        data.wf(),
        near@.len() == data.key_seq().len(),
        forall|i: int| 0 <= i < near@.len() ==> #[trigger] near@[i]@.len() == data.key_seq().len(),
    ensures
        r.wf(),
        r@ == connections_upto(
            data.val_seq(),
            near.deep_view(),
            data.val_seq().len(),
        ),
        forall|k: Seq<char>, x: Seq<char>|
            r@.contains_key(k) && #[trigger] r@[k].contains(x) ==> x != k && exists|l: int|
                0 <= l < data.val_seq().len() && #[trigger] data.val_seq()[l].meta == x,
        forall|i: int, j: int|
            0 <= i < data.val_seq().len() && 0 <= j < data.val_seq().len()
                && data.val_seq()[i].meta != data.val_seq()[j].meta && #[trigger] near@[i]@[j]
                ==> r@.contains_key(data.val_seq()[i].meta) && r@[data.val_seq()[i].meta].contains(
                data.val_seq()[j].meta,
            ),
{
    proof {
        lemma_connections_upto(data.val_seq(), near.deep_view(), data.val_seq().len());
        law_connections_are_near_pairs(data.val_seq(), near.deep_view());
        assert forall|i: int, j: int|
            0 <= i < data.val_seq().len() && 0 <= j < data.val_seq().len()
                && data.val_seq()[i].meta != data.val_seq()[j].meta && #[trigger] near@[i]@[j]
                implies connections_upto(data.val_seq(), near.deep_view(), data.val_seq().len()).contains_key(
            data.val_seq()[i].meta,
        ) && connections_upto(data.val_seq(), near.deep_view(), data.val_seq().len())[data.val_seq()[i].meta].contains(
            data.val_seq()[j].meta,
        ) by {
            assert(near.deep_view()[i][j] == near@[i]@[j]);
        }
    }
    let ghost ps = data.val_seq();
    let ghost nv = near.deep_view();
    let n = data.len();
    let mut map = ConnectionLists::new();
    let mut i: usize = 0;
    while i < n
        invariant
            data.wf(),
            ps == data.val_seq(),
            nv == near.deep_view(),
            n == ps.len(),
            near@.len() == n,
            forall|k: int| 0 <= k < n ==> #[trigger] near@[k]@.len() == n,
            i <= n,
            map.wf(),
            map@ == connections_upto(ps, nv, i as nat),
        decreases n - i,
    {
        let profile = data.value_at(i);
        let ghost base = map@;
        let ghost id = ps[i as int].meta;
        let ghost prior = if base.contains_key(id) {
            base[id]
        } else {
            Seq::<Seq<char>>::empty()
        };
        let mut j: usize = 0;
        while j < n
            invariant
                data.wf(),
                ps == data.val_seq(),
                nv == near.deep_view(),
                n == ps.len(),
                near@.len() == n,
                forall|k: int| 0 <= k < n ==> #[trigger] near@[k]@.len() == n,
                i < n,
                j <= n,
                profile.deep_view() == ps[i as int],
                id == ps[i as int].meta,
                base == connections_upto(ps, nv, i as nat),
                prior == (if base.contains_key(id) {
                    base[id]
                } else {
                    Seq::<Seq<char>>::empty()
                }),
                map.wf(),
                map@ == (if neighbours(ps, nv, i as int, j as nat).len() == 0 {
                    base
                } else {
                    base.insert(id, prior + neighbours(ps, nv, i as int, j as nat))
                }),
            decreases n - j,
        {
            let node = data.value_at(j);
            proof {
                assert(nv[i as int][j as int] == near@[i as int]@[j as int]);
            }
            if profile.meta.id != node.meta.id && near[i][j] {
                let key = profile.meta.id.as_str();
                if !map.contains_key(key) {
                    let fresh: Vec<String> = Vec::new();
                    proof {
                        assert(fresh.deep_view() =~= Seq::<Seq<char>>::empty());
                    }
                    map.insert(profile.meta.id.clone(), fresh);
                }
                map.push_onto(key, node.meta.id.clone());
                proof {
                    let found = neighbours(ps, nv, i as int, (j + 1) as nat);
                    assert(found == neighbours(ps, nv, i as int, j as nat).push(ps[j as int].meta));
                    assert(prior + found =~= (prior + neighbours(ps, nv, i as int, j as nat)).push(
                        ps[j as int].meta,
                    ));
                    assert(map@ =~= base.insert(id, prior + found));
                }
            }
            j = j + 1;
        }
        i = i + 1;
    }
    map
}

/// How many destinations go into one question to the distance service.
pub const CHUNK_SIZE: usize = 5;

/// One question to the distance service: travel times from `origin` to
/// each destination of `destinations` (location texts joined by '|'), for
/// chunk `chunk_idx` of the connections of `site`.
pub struct DistanceQuery {
    pub site: String,
    pub chunk_idx: usize,
    pub origin: String,
    pub destinations: String,
}

impl DeepView for DistanceQuery {
    type V = (Seq<char>, usize, Seq<char>, Seq<char>);

    open spec fn deep_view(&self) -> (Seq<char>, usize, Seq<char>, Seq<char>) {
        (self.site@, self.chunk_idx, self.origin@, self.destinations@)
    }
}

/// The texts of `items`, separated by '|'.
pub open spec fn join_bar(items: Seq<Seq<char>>) -> Seq<char>
    decreases items.len(),
{
    if items.len() == 0 {
        Seq::empty()
    } else if items.len() == 1 {
        items[0]
    } else {
        join_bar(items.drop_last()) + "|"@ + items.last()
    }
}

/// The number of chunks that `n` destinations make.
pub open spec fn chunk_count(n: nat) -> nat {
    ((n + CHUNK_SIZE - 1) / (CHUNK_SIZE as int)) as nat
}

/// The end of chunk `c` of `n` destinations.
pub open spec fn chunk_end(c: int, n: nat) -> int {
    if c * CHUNK_SIZE + CHUNK_SIZE < n {
        c * CHUNK_SIZE + CHUNK_SIZE
    } else {
        n as int
    }
}

/// The questions for one site: one per chunk of its destinations.
pub open spec fn site_queries(site: Seq<char>, origin: Seq<char>, dests: Seq<Seq<char>>) -> Seq<
    (Seq<char>, usize, Seq<char>, Seq<char>),
> {
    Seq::new(
        chunk_count(dests.len()),
        |c: int|
            (
                site,
                c as usize,
                origin,
                join_bar(dests.subrange(c * CHUNK_SIZE, chunk_end(c, dests.len()))),
            ),
    )
}

/// The questions for a site with `n` connections are as few as cover all
/// of them in chunks of five: question `c` is numbered `c` and asks about
/// connections `5c` up to `5c + 5`, or up to the last one, joined by '|'.
pub proof fn law_questions_cover_connections(site: Seq<char>, origin: Seq<char>, dests: Seq<Seq<char>>)
    ensures
        ({
            let qs = site_queries(site, origin, dests);
            let n = dests.len() as int;
            &&& qs.len() * 5 >= n
            &&& qs.len() > 0 ==> (qs.len() - 1) * 5 < n
            &&& forall|c: int|
                0 <= c < qs.len() ==> #[trigger] qs[c] == (
                    site,
                    c as usize,
                    origin,
                    join_bar(
                        dests.subrange(
                            5 * c,
                            if 5 * c + 5 < n {
                                5 * c + 5
                            } else {
                                n
                            },
                        ),
                    ),
                )
        }),
{
    assert(CHUNK_SIZE == 5);
    let n = dests.len();
    let q = chunk_count(n);
    assert(q == (n + 4) / 5);
    assert(q * 5 >= n);
    assert(q > 0 ==> (q - 1) * 5 < n);
}

/// The location texts of the sites `ids`.
pub open spec fn location_texts(ids: Seq<Seq<char>>, profiles: Map<Seq<char>, ProfileView>) -> Seq<
    Seq<char>,
> {
    ids.map_values(|d: Seq<char>| location_text(profiles[d]))
}

/// The questions for all `sites`, in order.
pub open spec fn queries_for(
    sites: Seq<Seq<char>>,
    profiles: Map<Seq<char>, ProfileView>,
    connections: Map<Seq<char>, Seq<Seq<char>>>,
) -> Seq<(Seq<char>, usize, Seq<char>, Seq<char>)>
    decreases sites.len(),
{
    if sites.len() == 0 {
        Seq::empty()
    } else {
        let site = sites.last();
        queries_for(sites.drop_last(), profiles, connections) + site_queries(
            site,
            location_text(profiles[site]),
            location_texts(connections[site], profiles),
        )
    }
}

/// The five elements of `s` from position `5c` on, or those up to its end.
pub open spec fn five_from<A>(s: Seq<A>, c: int) -> Seq<A> {
    s.subrange(
        5 * c,
        if 5 * c + 5 < s.len() {
            5 * c + 5
        } else {
            s.len() as int
        },
    )
}

/// Every chunk of five connections of every site gets its question: for
/// site `sites[i]` with `n` connections and each `c` with `5c < n`, the
/// question numbered `c`, from the site's location to the locations of
/// connections `5c` up to `5c + 5` (or the last), is among the questions.
pub proof fn law_queries_cover_every_site(
    sites: Seq<Seq<char>>,
    profiles: Map<Seq<char>, ProfileView>,
    connections: Map<Seq<char>, Seq<Seq<char>>>,
)
    ensures
        forall|i: int, c: int|
            0 <= i < sites.len() && 0 <= c && c * 5 < connections[sites[i]].len() ==> #[trigger] queries_for(
                sites,
                profiles,
                connections,
            ).contains(
                (
                    sites[i],
                    c as usize,
                    location_text(profiles[sites[i]]),
                    join_bar(five_from(location_texts(connections[sites[i]], profiles), c)),
                ),
            ),
    decreases sites.len(),
{
    if sites.len() > 0 {
        let init = sites.drop_last();
        let site = sites.last();
        law_queries_cover_every_site(init, profiles, connections);
        let a = queries_for(init, profiles, connections);
        let texts = location_texts(connections[site], profiles);
        let b = site_queries(site, location_text(profiles[site]), texts);
        law_questions_cover_connections(site, location_text(profiles[site]), texts);
        assert(queries_for(sites, profiles, connections) == a + b);
        assert forall|i: int, c: int|
            0 <= i < sites.len() && 0 <= c && c * 5 < connections[sites[i]].len() implies #[trigger] queries_for(
            sites,
            profiles,
            connections,
        ).contains(
            (
                sites[i],
                c as usize,
                location_text(profiles[sites[i]]),
                join_bar(five_from(location_texts(connections[sites[i]], profiles), c)),
            ),
        ) by {
            let n = connections[sites[i]].len() as int;
            let q = (
                sites[i],
                c as usize,
                location_text(profiles[sites[i]]),
                join_bar(five_from(location_texts(connections[sites[i]], profiles), c)),
            );
            if i < init.len() {
                assert(init[i] == sites[i]);
                assert(a.contains(q));
                let k = a.index_of(q);
                assert((a + b)[k] == q);
            } else {
                assert(sites[i] == site);
                assert(texts.len() == n);
                assert(c < b.len());
                assert(b[c] == q);
                assert((a + b)[a.len() + c] == q);
            }
        }
    }
}

/// Every site has a connection list whose sites are all known, and a site
/// with connections is known itself.
pub open spec fn sites_known(
    sites: Seq<Seq<char>>,
    profiles: Map<Seq<char>, ProfileView>,
    connections: Map<Seq<char>, Seq<Seq<char>>>,
) -> bool {
    forall|i: int|
        0 <= i < sites.len() ==> {
            let site = #[trigger] sites[i];
            &&& connections.contains_key(site)
            &&& forall|j: int|
                0 <= j < connections[site].len() ==> profiles.contains_key(
                    #[trigger] connections[site][j],
                )
            &&& connections[site].len() > 0 ==> profiles.contains_key(site)
        }
}

/// The texts of `items[from..to]`, separated by '|'.
fn join_range(items: &Vec<String>, from: usize, to: usize) -> (r: String)
    requires
        from < to <= items@.len(),
    ensures
        r@ == join_bar(items.deep_view().subrange(from as int, to as int)),
{
    let ghost all = items.deep_view();
    let mut r = String::new();
    let mut k = from;
    while k < to
        invariant
            from <= k <= to,
            to <= items@.len(),
            all == items.deep_view(),
            r@ == join_bar(all.subrange(from as int, k as int)),
        decreases to - k,
    {
        proof {
            assert(all.subrange(from as int, k + 1).drop_last() =~= all.subrange(from as int, k as int));
            assert(all.subrange(from as int, k + 1).last() == items@[k as int]@);
        }
        if k > from {
            r.append("|");
        } else {
            assert(all.subrange(from as int, k + 1) =~= seq![items@[k as int]@]);
            assert(r@ =~= Seq::<char>::empty());
        }
        r.append(items[k].as_str());
        proof {
            if k == from {
                assert(r@ =~= items@[k as int]@);
            }
        }
        k = k + 1;
    }
    r
}

/// The questions to put to the distance service for `sites`: for each site
/// in order, one per chunk of up to five of its connections, from the
/// site's location to the locations of that chunk.
pub fn distance_queries(sites: &Vec<String>, profiles: &CfaProfiles, connections: &ConnectionLists) -> (r: Vec<DistanceQuery>)
    requires
        profiles.wf(),
        connections.wf(),
        sites_known(sites.deep_view(), profiles@, connections@),
    ensures
        r.deep_view() == queries_for(sites.deep_view(), profiles@, connections@),
{
    let ghost sv = sites.deep_view();
    let mut queries: Vec<DistanceQuery> = Vec::new();
    let mut s: usize = 0;
    proof {
        assert(sv.take(0) =~= Seq::<Seq<char>>::empty());
        assert(queries.deep_view() =~= queries_for(sv.take(0), profiles@, connections@));
    }
    while s < sites.len()
        invariant
            profiles.wf(),
            connections.wf(),
            sv == sites.deep_view(),
            sites_known(sv, profiles@, connections@),
            s <= sv.len(),
            queries.deep_view() == queries_for(sv.take(s as int), profiles@, connections@),
        decreases sites.len() - s,
    {
        let site = &sites[s];
        proof {
            assert(sv[s as int] == site@);
        }
        let conns = connections.get(site.as_str()).unwrap();
        let ghost cv = conns.deep_view();
        let ghost texts = location_texts(cv, profiles@);
        let mut destinations: Vec<String> = Vec::new();
        let mut d: usize = 0;
        while d < conns.len()
            invariant
                profiles.wf(),
                cv == conns.deep_view(),
                texts == location_texts(cv, profiles@),
                forall|j: int| 0 <= j < cv.len() ==> profiles@.contains_key(#[trigger] cv[j]),
                d <= cv.len(),
                destinations.deep_view() == texts.take(d as int),
            decreases conns.len() - d,
        {
            proof {
                assert(cv[d as int] == conns@[d as int]@);
            }
            let text = location_str_from(conns[d].as_str(), profiles);
            proof {
                assert(texts[d as int] == location_text(profiles@[cv[d as int]]));
            }
            let ghost prev = destinations.deep_view();
            let ghost tv = text@;
            destinations.push(text);
            proof {
                assert(destinations.deep_view() =~= prev.push(tv));
                assert(texts.take(d + 1) =~= texts.take(d as int).push(tv));
            }
            d = d + 1;
        }
        proof {
            assert(destinations.deep_view() =~= texts);
        }
        let ghost before = queries.deep_view();
        let n = destinations.len();
        if n > 0 {
            let origin = location_str_from(site.as_str(), profiles);
            let ghost expected = site_queries(site@, origin@, texts);
            let mut start: usize = 0;
            let mut c: usize = 0;
            while start < n
                invariant
                    n == texts.len(),
                    destinations.deep_view() == texts,
                    expected == site_queries(site@, origin@, texts),
                    start == c * CHUNK_SIZE,
                    start < n + CHUNK_SIZE,
                    c <= chunk_count(n as nat),
                    start < n ==> c < chunk_count(n as nat),
                    start >= n ==> c == chunk_count(n as nat),
                    n <= sites@.len() + conns@.len(),
                    queries.deep_view() == before + expected.take(c as int),
                decreases n + CHUNK_SIZE - start,
            {
                let end = if start + CHUNK_SIZE < n {
                    start + CHUNK_SIZE
                } else {
                    n
                };
                let dests = join_range(&destinations, start, end);
                let ghost prev = queries.deep_view();
                queries.push(
                    DistanceQuery {
                        site: site.clone(),
                        chunk_idx: c,
                        origin: origin.clone(),
                        destinations: dests,
                    },
                );
                proof {
                    assert(chunk_end(c as int, n as nat) == end);
                    assert(expected[c as int] == (site@, c, origin@, dests@));
                    assert(queries.deep_view() =~= prev.push((site@, c, origin@, dests@)));
                    assert(expected.take(c + 1) =~= expected.take(c as int).push(expected[c as int]));
                    assert(queries.deep_view() =~= before + expected.take(c + 1));
                }
                start = start + CHUNK_SIZE;
                c = c + 1;
            }
            proof {
                assert(expected.take(c as int) =~= expected);
            }
        } else {
            proof {
                let origin = location_text(profiles@[site@]);
                assert(site_queries(site@, origin, texts) =~= Seq::<
                    (Seq<char>, usize, Seq<char>, Seq<char>),
                >::empty());
                assert(queries.deep_view() =~= before + site_queries(site@, origin, texts));
            }
        }
        s = s + 1;
        proof {
            assert(sv.take(s as int).drop_last() =~= sv.take(s - 1));
            assert(sv.take(s as int).last() == site@);
        }
    }
    proof {
        assert(sv.take(sites.len() as int) =~= sv);
    }
    queries
}

/// The edges that one answer gives: the `i`-th entry of its first row is
/// the travel time to the `i`-th connection of the answered chunk.
pub open spec fn response_edges(conns: Seq<Seq<char>>, chunk_idx: usize, resp: DistanceResponse) -> Seq<
    (Seq<char>, i64),
> {
    let elems = resp.rows@[0].elements@;
    Seq::new(
        elems.len(),
        |i: int| (conns[chunk_idx * CHUNK_SIZE + i], elems[i].duration.value),
    )
}

/// The edges that the first `n` answers give: an answer that failed or has
/// no row adds nothing; otherwise its edges are appended under its site.
pub open spec fn edges_upto(
    qs: Seq<(Seq<char>, usize, Seq<char>, Seq<char>)>,
    rs: Seq<Option<DistanceResponse>>,
    connections: Map<Seq<char>, Seq<Seq<char>>>,
    n: nat,
) -> Map<Seq<char>, Seq<(Seq<char>, i64)>>
    decreases n,
{
    if n == 0 {
        Map::empty()
    } else {
        let m = edges_upto(qs, rs, connections, (n - 1) as nat);
        let site = qs[n - 1].0;
        match rs[n - 1] {
            Some(resp) => {
                if resp.rows@.len() > 0 {
                    let prior = if m.contains_key(site) {
                        m[site]
                    } else {
                        Seq::empty()
                    };
                    m.insert(site, prior + response_edges(connections[site], qs[n - 1].1, resp))
                } else {
                    m
                }
            },
            None => m,
        }
    }
}

/// Each answer belongs to a question about a known site, and the first row
/// of an answer has no more entries than the chunk has connections.
pub open spec fn answers_fit(
    qs: Seq<(Seq<char>, usize, Seq<char>, Seq<char>)>,
    rs: Seq<Option<DistanceResponse>>,
    connections: Map<Seq<char>, Seq<Seq<char>>>,
) -> bool {
    &&& qs.len() == rs.len()
    &&& forall|i: int|
        0 <= i < qs.len() ==> {
            &&& connections.contains_key(#[trigger] qs[i].0)
            &&& match rs[i] {
                Some(resp) => resp.rows@.len() > 0 ==> qs[i].1 * CHUNK_SIZE
                    + resp.rows@[0].elements@.len() <= connections[qs[i].0].len(),
                None => true,
            }
        }
}

/// Each edge that the first `n` answers give for a site leads to one of the
/// site's connections.
proof fn lemma_edges_upto(
    qs: Seq<(Seq<char>, usize, Seq<char>, Seq<char>)>,
    rs: Seq<Option<DistanceResponse>>,
    connections: Map<Seq<char>, Seq<Seq<char>>>,
    n: nat,
)
    requires
        answers_fit(qs, rs, connections),
        n <= qs.len(),
    ensures
        forall|s: Seq<char>|
            #[trigger] edges_upto(qs, rs, connections, n).contains_key(s) ==> connections.contains_key(s),
        forall|s: Seq<char>, i: int|
            edges_upto(qs, rs, connections, n).contains_key(s) && 0 <= i < edges_upto(
                qs,
                rs,
                connections,
                n,
            )[s].len() ==> connections[s].contains(
                #[trigger] edges_upto(qs, rs, connections, n)[s][i].0,
            ),
    decreases n,
{
    if n > 0 {
        lemma_edges_upto(qs, rs, connections, (n - 1) as nat);
        let m = edges_upto(qs, rs, connections, (n - 1) as nat);
        let site = qs[n - 1].0;
        let conns = connections[site];
        assert(connections.contains_key(qs[n - 1].0));
        let grows = match rs[n - 1] {
            Some(resp) => resp.rows@.len() > 0,
            None => false,
        };
        assert forall|s: Seq<char>|
            #[trigger] edges_upto(qs, rs, connections, n).contains_key(s) implies connections.contains_key(s) by {
            if !(grows && s == site) {
                assert(m.contains_key(s));
            }
        }
        assert forall|s: Seq<char>, i: int|
            edges_upto(qs, rs, connections, n).contains_key(s) && 0 <= i < edges_upto(
                qs,
                rs,
                connections,
                n,
            )[s].len() implies connections[s].contains(
            #[trigger] edges_upto(qs, rs, connections, n)[s][i].0,
        ) by {
            if grows && s == site {
                let resp = rs[n - 1]->0;
                let prior = if m.contains_key(site) {
                    m[site]
                } else {
                    Seq::empty()
                };
                let es = response_edges(conns, qs[n - 1].1, resp);
                let all = prior + es;
                assert(edges_upto(qs, rs, connections, n)[s] == all);
                if i < prior.len() {
                    assert(m.contains_key(s));
                    assert(all[i] == m[s][i]);
                    assert(connections[s].contains(m[s][i].0));
                } else {
                    let e = i - prior.len();
                    assert(all[i] == es[e]);
                    let pos = qs[n - 1].1 * CHUNK_SIZE + e;
                    assert(0 <= pos < conns.len());
                    assert(es[e].0 == conns[pos]);
                    assert(conns.contains(conns[pos]));
                }
            } else {
                assert(edges_upto(qs, rs, connections, n)[s] == m[s]);
                assert(m.contains_key(s));
                assert(connections[s].contains(m[s][i].0));
            }
        }
    }
}

/// The edges of the first `n` answers depend on the first `n` questions and
/// answers only.
proof fn lemma_edges_upto_prefix(
    qs: Seq<(Seq<char>, usize, Seq<char>, Seq<char>)>,
    rs: Seq<Option<DistanceResponse>>,
    qs2: Seq<(Seq<char>, usize, Seq<char>, Seq<char>)>,
    rs2: Seq<Option<DistanceResponse>>,
    connections: Map<Seq<char>, Seq<Seq<char>>>,
    n: nat,
)
    requires
        n <= qs.len(),
        n <= rs.len(),
        n <= qs2.len(),
        n <= rs2.len(),
        forall|i: int| 0 <= i < n ==> qs[i] == qs2[i] && rs[i] == rs2[i],
    ensures
        edges_upto(qs, rs, connections, n) == edges_upto(qs2, rs2, connections, n),
    decreases n,
{
    if n > 0 {
        lemma_edges_upto_prefix(qs, rs, qs2, rs2, connections, (n - 1) as nat);
        assert(qs[n - 1] == qs2[n - 1] && rs[n - 1] == rs2[n - 1]);
    }
}

/// With the failed answer at `k` taken out, the edges of the first `n`
/// answers are those of the first `n - 1` of the rest.
proof fn lemma_edges_upto_drop(
    qs: Seq<(Seq<char>, usize, Seq<char>, Seq<char>)>,
    rs: Seq<Option<DistanceResponse>>,
    connections: Map<Seq<char>, Seq<Seq<char>>>,
    k: int,
    n: nat,
)
    requires
        qs.len() == rs.len(),
        0 <= k < n <= qs.len(),
        match rs[k] {
            Some(resp) => resp.rows@.len() == 0,
            None => true,
        },
    ensures
        edges_upto(qs, rs, connections, n) == edges_upto(
            qs.remove(k),
            rs.remove(k),
            connections,
            (n - 1) as nat,
        ),
    decreases n,
{
    if n == k + 1 {
        lemma_edges_upto_prefix(qs, rs, qs.remove(k), rs.remove(k), connections, k as nat);
    } else {
        lemma_edges_upto_drop(qs, rs, connections, k, (n - 1) as nat);
        assert(qs.remove(k)[n - 2] == qs[n - 1]);
        assert(rs.remove(k)[n - 2] == rs[n - 1]);
    }
}

/// A question whose answer failed, or came without rows, leaves the edge
/// table as if that question had not been asked.
pub proof fn law_failed_answer_is_dropped(
    qs: Seq<(Seq<char>, usize, Seq<char>, Seq<char>)>,
    rs: Seq<Option<DistanceResponse>>,
    connections: Map<Seq<char>, Seq<Seq<char>>>,
    k: int,
)
    requires
        qs.len() == rs.len(),
        0 <= k < qs.len(),
        match rs[k] {
            Some(resp) => resp.rows@.len() == 0,
            None => true,
        },
    ensures
        edges_upto(qs, rs, connections, qs.len()) == edges_upto(
            qs.remove(k),
            rs.remove(k),
            connections,
            (qs.len() - 1) as nat,
        ),
{
    lemma_edges_upto_drop(qs, rs, connections, k, qs.len());
}

/// The edges that the answers to `queries` give, in order. `responses[i]`
/// answers `queries[i]`; `None` stands for a question that failed.
pub fn edges_from_responses(
    queries: &Vec<DistanceQuery>,
    responses: &Vec<Option<DistanceResponse>>,
    connections: &ConnectionLists,
) -> (r: Edges)
    requires
        connections.wf(),
        answers_fit(queries.deep_view(), responses@, connections@),
    ensures
        r.wf(),
        r@ == edges_upto(queries.deep_view(), responses@, connections@, queries@.len()),
        forall|s: Seq<char>, i: int|
            r@.contains_key(s) && 0 <= i < r@[s].len() ==> connections@.contains_key(s)
                && connections@[s].contains(#[trigger] r@[s][i].0),
{
    proof {
        lemma_edges_upto(queries.deep_view(), responses@, connections@, queries@.len());
    }
    let ghost final_edges = edges_upto(queries.deep_view(), responses@, connections@, queries@.len());
    let ghost qs = queries.deep_view();
    let ghost rs = responses@;
    let mut map = Edges::new();
    let n = queries.len();
    let mut i: usize = 0;
    while i < n
        invariant
            connections.wf(),
            qs == queries.deep_view(),
            rs == responses@,
            n == qs.len(),
            answers_fit(qs, rs, connections@),
            i <= n,
            map.wf(),
            map@ == edges_upto(qs, rs, connections@, i as nat),
        decreases n - i,
    {
        let query = &queries[i];
        proof {
            assert(qs[i as int] == query.deep_view());
            assert(connections@.contains_key(qs[i as int].0));
        }
        match &responses[i] {
            Some(resp) => {
                if resp.rows.len() > 0 {
                    proof {
                        assert(rs[i as int] == Some(*resp));
                        assert(query.chunk_idx * CHUNK_SIZE + resp.rows@[0].elements@.len()
                            <= connections@[qs[i as int].0].len());
                    }
                    let conns = connections.get(query.site.as_str()).unwrap();
                    let ghost cv = conns.deep_view();
                    let elements = &resp.rows[0].elements;
                    let ghost expected = response_edges(cv, query.chunk_idx, *resp);
                    let mut distances: Vec<Edge> = Vec::new();
                    let conns_len = conns.len();
                    let mut e: usize = 0;
                    while e < elements.len()
                        invariant
                            cv == conns.deep_view(),
                            cv.len() == conns@.len(),
                            conns_len == conns@.len(),
                            resp.rows@.len() > 0,
                            query.chunk_idx * CHUNK_SIZE + elements@.len() <= cv.len(),
                            elements@ == resp.rows@[0].elements@,
                            expected == response_edges(cv, query.chunk_idx, *resp),
                            e <= elements@.len(),
                            distances.deep_view() == expected.take(e as int),
                        decreases elements@.len() - e,
                    {
                        let node = conns[query.chunk_idx * CHUNK_SIZE + e].clone();
                        let ghost prev = distances.deep_view();
                        let edge = Edge { node, distance: elements[e].duration.value };
                        proof {
                            assert(edge.deep_view() == expected[e as int]);
                        }
                        distances.push(edge);
                        proof {
                            assert(distances.deep_view() =~= prev.push(expected[e as int]));
                            assert(expected.take(e + 1) =~= expected.take(e as int).push(expected[e as int]));
                        }
                        e = e + 1;
                    }
                    proof {
                        assert(expected.take(e as int) =~= expected);
                    }
                    let ghost base = map@;
                    let ghost site = query.site@;
                    if map.contains_key(query.site.as_str()) {
                        let ghost prior = base[site];
                        let mut k: usize = 0;
                        while k < distances.len()
                            invariant
                                map.wf(),
                                base.contains_key(site),
                                prior == base[site],
                                site == query.site@,
                                distances.deep_view() == expected,
                                k <= distances@.len(),
                                map@ == base.insert(site, prior + expected.take(k as int)),
                            decreases distances@.len() - k,
                        {
                            let edge = distances[k].clone();
                            map.push_onto(query.site.as_str(), edge);
                            proof {
                                assert(distances@[k as int].deep_view() == expected[k as int]);
                                assert(prior + expected.take(k + 1) =~= (prior + expected.take(k as int)).push(expected[k as int]));
                                assert(map@ =~= base.insert(site, prior + expected.take(k + 1)));
                            }
                            k = k + 1;
                        }
                        proof {
                            assert(expected.take(k as int) =~= expected);
                        }
                    } else {
                        map.insert(query.site.clone(), distances);
                        proof {
                            assert(Seq::<(Seq<char>, i64)>::empty() + expected =~= expected);
                        }
                    }
                }
            },
            None => {},
        }
        i = i + 1;
    }
    proof {
        assert forall|s: Seq<char>, i: int|
            map@.contains_key(s) && 0 <= i < map@[s].len() implies connections@.contains_key(s)
            && connections@[s].contains(#[trigger] map@[s][i].0) by {
            assert(final_edges[s][i].0 == map@[s][i].0);
        }
    }
    map
}

/// Combines two edge tables; where both hold a site, the edges of `b` are
/// kept.
pub fn merge_edges(a: Edges, b: Edges) -> (r: Edges)
    requires
        a.wf(),
        b.wf(),
    ensures
        r.wf(),
        r@ == a@.union_prefer_right(b@),
{
    let mut a = a;
    a.extend(b);
    a
}

} // verus!
