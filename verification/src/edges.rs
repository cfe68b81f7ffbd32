//! Edge adjacency of a triangle index buffer, for the sharp-edge overlay.
//!
//! Each complete triple of the buffer is a triangle with edges
//! `(i0, i1)`, `(i1, i2)` and `(i2, i0)`; an edge is known by its two vertex
//! indices, smaller first. An edge used once lies on the boundary and one
//! used three times or more is non-manifold: both are drawn. An edge used
//! exactly twice is drawn when the angle between its two triangles is large,
//! which is decided on the vertices' coordinates, outside this module.
use vstd::prelude::*;
use std::collections::HashMap;

verus! {

/// How many triangles use an edge.
#[derive(Debug, Clone, Copy, PartialEq, Eq, Structural)]
pub enum EdgeShare {
    /// Exactly one triangle.
    Single,
    /// Exactly two: the positions of the two triangles (or of the same one
    /// twice) in the buffer, in order.
    Pair(usize, usize),
    /// Three or more.
    Many,
}

/// One undirected edge, `a <= b`, and the triangles that use it.
#[derive(Debug, Clone, Copy, PartialEq, Eq, Structural)]
pub struct SharedEdge {
    pub a: u32,
    pub b: u32,
    pub share: EdgeShare,
}

/// The undirected edge between `a` and `b`, smaller index first.
pub open spec fn edge_key(a: u32, b: u32) -> (u32, u32) {
    if a < b {
        (a, b)
    } else {
        (b, a)
    }
}

/// The edges of the first `t` triangles, each with its triangle's position,
/// in buffer order.
pub open spec fn edge_uses(idx: Seq<u32>, t: nat) -> Seq<((u32, u32), usize)>
    decreases t,
{
    if t == 0 {
        Seq::empty()
    } else {
        let f = (t - 1) as usize;
        let i0 = idx[3 * t - 3];
        let i1 = idx[3 * t - 2];
        let i2 = idx[3 * t - 1];
        edge_uses(idx, (t - 1) as nat) + seq![
            (edge_key(i0, i1), f),
            (edge_key(i1, i2), f),
            (edge_key(i2, i0), f),
        ]
    }
}

/// All edge uses of the complete triples of `idx`.
pub open spec fn all_edge_uses(idx: Seq<u32>) -> Seq<((u32, u32), usize)> {
    edge_uses(idx, idx.len() / 3)
}

/// The triangle positions, in order, of the uses of `key`.
pub open spec fn users_of(uses: Seq<((u32, u32), usize)>, key: (u32, u32)) -> Seq<usize>
    decreases uses.len(),
{
    if uses.len() == 0 {
        Seq::empty()
    } else {
        let prev = users_of(uses.drop_last(), key);
        if uses.last().0 == key {
            prev.push(uses.last().1)
        } else {
            prev
        }
    }
}

/// The `EdgeShare` of an edge with these users.
pub open spec fn share_of(users: Seq<usize>) -> EdgeShare {
    if users.len() == 1 {
        EdgeShare::Single
    } else if users.len() == 2 {
        EdgeShare::Pair(users[0], users[1])
    } else {
        EdgeShare::Many
    }
}

pub open spec fn key_of(e: SharedEdge) -> (u32, u32) {
    (e.a, e.b)
}

/// Each listed edge has its smaller index first, is used, and carries its share.
pub open spec fn edges_described(edges: Seq<SharedEdge>, uses: Seq<((u32, u32), usize)>) -> bool {
    forall|i: int|
        0 <= i < edges.len() ==> {
            &&& (#[trigger] edges[i]).a <= edges[i].b
            &&& users_of(uses, key_of(edges[i])).len() >= 1
            &&& edges[i].share == share_of(users_of(uses, key_of(edges[i])))
        }
}

/// No edge is listed twice.
pub open spec fn edges_distinct(edges: Seq<SharedEdge>) -> bool {
    forall|i: int, j: int|
        0 <= i < j < edges.len() ==> key_of(#[trigger] edges[i]) != key_of(#[trigger] edges[j])
}

/// Every used edge is listed.
pub open spec fn edges_cover(edges: Seq<SharedEdge>, uses: Seq<((u32, u32), usize)>) -> bool {
    forall|k: int|
        0 <= k < uses.len() ==> exists|i: int|
            0 <= i < edges.len() && key_of(#[trigger] edges[i]) == (#[trigger] uses[k]).0
}

/// `edges` lists each edge of `uses` once, with its share.
pub open spec fn lists_edges(edges: Seq<SharedEdge>, uses: Seq<((u32, u32), usize)>) -> bool {
    &&& edges_described(edges, uses)
    &&& edges_distinct(edges)
    &&& edges_cover(edges, uses)
}

/// Packs an edge into one hash key.
pub open spec fn pack(key: (u32, u32)) -> u64 {
    (key.0 as int * 0x1_0000_0000 + key.1 as int) as u64
}

proof fn lemma_pack_injective(k1: (u32, u32), k2: (u32, u32))
    ensures
        pack(k1) == pack(k2) ==> k1 == k2,
{
}

/// Users of `key` after one more use.
proof fn lemma_users_push(uses: Seq<((u32, u32), usize)>, u: ((u32, u32), usize), key: (u32, u32))
    ensures
        users_of(uses.push(u), key) == if u.0 == key {
            users_of(uses, key).push(u.1)
        } else {
            users_of(uses, key)
        },
{
    assert(uses.push(u).drop_last() =~= uses);
}

proof fn lemma_users_nonempty(uses: Seq<((u32, u32), usize)>, k: int)
    requires
        0 <= k < uses.len(),
    ensures
        users_of(uses, uses[k].0).len() >= 1,
    decreases uses.len(),
{
    if k < uses.len() - 1 {
        lemma_users_nonempty(uses.drop_last(), k);
    }
}

/// Bookkeeping for one edge while the buffer is read: number of users and the
/// first two of them.
pub open spec fn tally_matches(t: (usize, usize, usize), users: Seq<usize>) -> bool {
    &&& t.0 == users.len()
    &&& users.len() >= 1 ==> t.1 == users[0]
    &&& users.len() >= 2 ==> t.2 == users[1]
}

/// The edges found so far, with their tallies and hash index, agree with `uses`.
pub open spec fn table_ok(
    map: Map<u64, usize>,
    keys: Seq<(u32, u32)>,
    tallies: Seq<(usize, usize, usize)>,
    uses: Seq<((u32, u32), usize)>,
) -> bool {
    &&& keys.len() == tallies.len()
    &&& forall|i: int| 0 <= i < keys.len() ==> (#[trigger] keys[i]).0 <= keys[i].1
    &&& forall|i: int, j: int| 0 <= i < j < keys.len() ==> #[trigger] keys[i] != #[trigger] keys[j]
    &&& forall|i: int|
        0 <= i < keys.len() ==> tally_matches(#[trigger] tallies[i], users_of(uses, keys[i]))
            && users_of(uses, keys[i]).len() >= 1 && tallies[i].0 <= uses.len()
    &&& forall|k: int| 0 <= k < uses.len() ==> keys.contains((#[trigger] uses[k]).0)
    &&& forall|p: u64|
        #[trigger] map.contains_key(p) ==> 0 <= map[p] < keys.len() && pack(keys[map[p] as int])
            == p
    &&& forall|i: int| 0 <= i < keys.len() ==> #[trigger] map.contains_key(pack(keys[i]))
}

/// Records one use of the edge `key` by triangle `f`.
fn record_use(
    map: &mut HashMap<u64, usize>,
    keys: &mut Vec<(u32, u32)>,
    tallies: &mut Vec<(usize, usize, usize)>,
    key: (u32, u32),
    f: usize,
    Ghost(uses): Ghost<Seq<((u32, u32), usize)>>,
)
    requires
        key.0 <= key.1,
        uses.len() < usize::MAX,
        table_ok(old(map)@, old(keys)@, old(tallies)@, uses),
    ensures
        table_ok(final(map)@, final(keys)@, final(tallies)@, uses.push((key, f))),
{
    broadcast use vstd::std_specs::hash::group_hash_axioms;

    let ghost new_uses = uses.push((key, f));
    let ghost old_keys = keys@;
    let ghost old_tallies = tallies@;
    let p = (key.0 as u64) * 0x1_0000_0000 + (key.1 as u64);
    assert(p == pack(key));
    proof {
        assert forall|j: int| 0 <= j < keys.len() implies #[trigger] users_of(new_uses, keys@[j])
            == if keys@[j] == key {
            users_of(uses, keys@[j]).push(f)
        } else {
            users_of(uses, keys@[j])
        } by {
            lemma_users_push(uses, (key, f), keys@[j]);
        }
        assert forall|k: int| 0 <= k < uses.len() implies (#[trigger] new_uses[k]) == uses[k] by {}
    }
    match map.get(&p) {
        Some(pos) => {
            let i = *pos;
            let ghost gi = i as int;
            proof {
                lemma_pack_injective(keys@[gi], key);
            }
            let t = tallies[i];
            let nt = if t.0 == 1 {
                (2, t.1, f)
            } else {
                (t.0 + 1, t.1, t.2)
            };
            tallies.set(i, nt);
            proof {
                assert forall|k: int| 0 <= k < new_uses.len() implies keys@.contains(
                    (#[trigger] new_uses[k]).0,
                ) by {
                    if k == uses.len() {
                        assert(keys@[gi] == new_uses[k].0);
                    } else {
                        assert(keys@.contains(uses[k].0));
                    }
                }
                assert forall|j: int| 0 <= j < keys.len() implies tally_matches(
                    #[trigger] tallies@[j],
                    users_of(new_uses, keys@[j]),
                ) && users_of(new_uses, keys@[j]).len() >= 1 && tallies@[j].0
                    <= new_uses.len() by {
                    assert(users_of(new_uses, keys@[j]) == if keys@[j] == key {
                        users_of(uses, keys@[j]).push(f)
                    } else {
                        users_of(uses, keys@[j])
                    });
                    if j != gi {
                        assert(keys@[j] != keys@[gi]);
                        assert(tallies@[j] == old_tallies[j]);
                    }
                }
            }
        },
        None => {
            let n = keys.len();
            keys.push(key);
            tallies.push((1, f, 0));
            map.insert(p, n);
            proof {
                assert forall|j: int| 0 <= j < old_keys.len() implies #[trigger] old_keys[j]
                    != key by {
                    assert(old(map)@.contains_key(pack(old_keys[j])));
                }
                assert(users_of(uses, key).len() == 0) by {
                    if users_of(uses, key).len() > 0 {
                        lemma_users_absent(uses, key);
                        let k = choose|k: int| 0 <= k < uses.len() && (#[trigger] uses[k]).0 == key;
                        assert(old_keys.contains(uses[k].0));
                        let j = choose|j: int| 0 <= j < old_keys.len() && old_keys[j] == uses[k].0;
                        assert(old_keys[j] != key);
                    }
                }
                assert forall|k: int| 0 <= k < new_uses.len() implies keys@.contains(
                    (#[trigger] new_uses[k]).0,
                ) by {
                    if k == uses.len() {
                        assert(keys@[n as int] == new_uses[k].0);
                    } else {
                        assert(old_keys.contains(uses[k].0));
                        let j = choose|j: int| 0 <= j < old_keys.len() && old_keys[j] == uses[k].0;
                        assert(keys@[j] == old_keys[j]);
                    }
                }
                assert forall|j: int| 0 <= j < keys.len() implies tally_matches(
                    #[trigger] tallies@[j],
                    users_of(new_uses, keys@[j]),
                ) && users_of(new_uses, keys@[j]).len() >= 1 && tallies@[j].0
                    <= new_uses.len() by {
                    if j < n {
                        assert(keys@[j] == old_keys[j]);
                        assert(tallies@[j] == old_tallies[j]);
                        assert(users_of(new_uses, keys@[j]) == users_of(uses, keys@[j]));
                    } else {
                        lemma_users_push(uses, (key, f), key);
                        assert(users_of(new_uses, key) =~= seq![f]);
                    }
                }
                assert forall|j: int, l: int| 0 <= j < l < keys.len() implies #[trigger] keys@[j]
                    != #[trigger] keys@[l] by {
                    if l == n {
                        assert(keys@[j] == old_keys[j]);
                    } else {
                        assert(keys@[j] == old_keys[j]);
                        assert(keys@[l] == old_keys[l]);
                    }
                }
                assert forall|q: u64| #[trigger] map@.contains_key(q) implies 0 <= map@[q]
                    < keys.len() && pack(keys@[map@[q] as int]) == q by {
                    if q != p {
                        assert(old(map)@.contains_key(q));
                        let i = old(map)@[q] as int;
                        assert(keys@[i] == old_keys[i]);
                    }
                }
                assert forall|j: int| 0 <= j < keys.len() implies #[trigger] map@.contains_key(
                    pack(keys@[j]),
                ) by {
                    if j < n {
                        assert(keys@[j] == old_keys[j]);
                        assert(old(map)@.contains_key(pack(old_keys[j])));
                    }
                }
            }
        },
    }
}

/// A key with users occurs among the uses.
proof fn lemma_users_absent(uses: Seq<((u32, u32), usize)>, key: (u32, u32))
    requires
        users_of(uses, key).len() > 0,
    ensures
        exists|k: int| 0 <= k < uses.len() && (#[trigger] uses[k]).0 == key,
    decreases uses.len(),
{
    if uses.last().0 != key {
        lemma_users_absent(uses.drop_last(), key);
        let k = choose|k: int|
            0 <= k < uses.drop_last().len() && (#[trigger] uses.drop_last()[k]).0 == key;
        assert(uses[k] == uses.drop_last()[k]);
    } else {
        assert(uses[uses.len() - 1].0 == key);
    }
}

/// Every edge of the complete triples of `indices`, once each, with the
/// triangles that use it.
pub fn shared_edges(indices: &Vec<u32>) -> (r: Vec<SharedEdge>)
    ensures
        lists_edges(r@, all_edge_uses(indices@)),
{
    broadcast use vstd::std_specs::hash::group_hash_axioms;

    let mut map: HashMap<u64, usize> = HashMap::new();
    let mut keys: Vec<(u32, u32)> = Vec::new();
    let mut tallies: Vec<(usize, usize, usize)> = Vec::new();
    let count = indices.len() / 3;
    let mut t: usize = 0;
    while t < count
        invariant
            t <= count == indices.len() / 3,
            table_ok(map@, keys@, tallies@, edge_uses(indices@, t as nat)),
            edge_uses(indices@, t as nat).len() == 3 * t,
        decreases count - t,
    {
        let i0 = indices[3 * t];
        let i1 = indices[3 * t + 1];
        let i2 = indices[3 * t + 2];
        let ghost u0 = edge_uses(indices@, t as nat);
        let k0 = if i0 < i1 {
            (i0, i1)
        } else {
            (i1, i0)
        };
        let k1 = if i1 < i2 {
            (i1, i2)
        } else {
            (i2, i1)
        };
        let k2 = if i2 < i0 {
            (i2, i0)
        } else {
            (i0, i2)
        };
        record_use(&mut map, &mut keys, &mut tallies, k0, t, Ghost(u0));
        let ghost u1 = u0.push((k0, t));
        record_use(&mut map, &mut keys, &mut tallies, k1, t, Ghost(u1));
        let ghost u2 = u1.push((k1, t));
        record_use(&mut map, &mut keys, &mut tallies, k2, t, Ghost(u2));
        proof {
            assert(edge_uses(indices@, (t + 1) as nat) =~= u2.push((k2, t)));
        }
        t += 1;
    }
    let mut out: Vec<SharedEdge> = Vec::new();
    let ghost uses = edge_uses(indices@, count as nat);
    let mut i: usize = 0;
    while i < keys.len()
        invariant
            i <= keys.len(),
            uses == all_edge_uses(indices@),
            table_ok(map@, keys@, tallies@, uses),
            out.len() == i,
            forall|j: int|
                0 <= j < i ==> key_of(#[trigger] out@[j]) == keys@[j] && out@[j].share == share_of(
                    users_of(uses, keys@[j]),
                ),
        decreases keys.len() - i,
    {
        let (a, b) = keys[i];
        let tl = tallies[i];
        let share = if tl.0 == 1 {
            EdgeShare::Single
        } else if tl.0 == 2 {
            EdgeShare::Pair(tl.1, tl.2)
        } else {
            EdgeShare::Many
        };
        assert(tally_matches(tallies@[i as int], users_of(uses, keys@[i as int])));
        out.push(SharedEdge { a, b, share });
        i += 1;
    }
    proof {
        let edges = out@;
        assert(edges_described(edges, uses)) by {
            assert forall|j: int| 0 <= j < edges.len() implies {
                &&& (#[trigger] edges[j]).a <= edges[j].b
                &&& users_of(uses, key_of(edges[j])).len() >= 1
                &&& edges[j].share == share_of(users_of(uses, key_of(edges[j])))
            } by {
                assert(key_of(edges[j]) == keys@[j]);
                assert(keys@[j].0 <= keys@[j].1);
                assert(tally_matches(tallies@[j], users_of(uses, keys@[j])));
            }
        }
        assert(edges_distinct(edges)) by {
            assert forall|j: int, l: int| 0 <= j < l < edges.len() implies key_of(
                #[trigger] edges[j],
            ) != key_of(#[trigger] edges[l]) by {
                assert(keys@[j] != keys@[l]);
            }
        }
        assert(edges_cover(edges, uses)) by {
            assert forall|k: int| 0 <= k < uses.len() implies exists|j: int|
                0 <= j < edges.len() && key_of(#[trigger] edges[j]) == (#[trigger] uses[k]).0 by {
                assert(keys@.contains(uses[k].0));
                let j = choose|j: int| 0 <= j < keys@.len() && keys@[j] == uses[k].0;
                assert(key_of(edges[j]) == keys@[j]);
            }
        }
    }
    out
}

/// Whether an edge is drawn in the sharp-edge overlay: a boundary edge and a
/// non-manifold edge always, an edge between two triangles when the angle
/// between them is steep.
pub open spec fn is_drawn(e: SharedEdge, steep: bool) -> bool {
    match e.share {
        EdgeShare::Pair(_, _) => steep,
        _ => true,
    }
}

/// The line-list indices of the drawn edges, two per edge, in order.
pub open spec fn drawn_lines(edges: Seq<SharedEdge>, steep: Seq<bool>) -> Seq<u32>
    decreases edges.len(),
{
    if edges.len() == 0 {
        Seq::empty()
    } else {
        let prev = drawn_lines(edges.drop_last(), steep.drop_last());
        let e = edges.last();
        if is_drawn(e, steep.last()) {
            prev + seq![e.a, e.b]
        } else {
            prev
        }
    }
}

/// The sharp-edge overlay of a mesh whose edges are `edges`, where
/// `steep[i]` says whether the two triangles at `edges[i]` meet at a steep
/// angle. It replaces any earlier overlay.
pub fn wireframe_lines(edges: &Vec<SharedEdge>, steep: &Vec<bool>) -> (r: Vec<u32>)
    requires
        steep.len() == edges.len(),
    ensures
        r@ == drawn_lines(edges@, steep@),
{
    let mut out: Vec<u32> = Vec::new();
    let mut i: usize = 0;
    while i < edges.len()
        invariant
            i <= edges.len() == steep.len(),
            out@ == drawn_lines(edges@.take(i as int), steep@.take(i as int)),
        decreases edges.len() - i,
    {
        proof {
            assert(edges@.take(i + 1).drop_last() =~= edges@.take(i as int));
            assert(steep@.take(i + 1).drop_last() =~= steep@.take(i as int));
        }
        let e = edges[i];
        let drawn = match e.share {
            EdgeShare::Pair(_, _) => steep[i],
            _ => true,
        };
        if drawn {
            out.push(e.a);
            out.push(e.b);
        }
        i += 1;
        assert(out@ =~= drawn_lines(edges@.take(i as int), steep@.take(i as int)));
    }
    assert(edges@.take(edges.len() as int) =~= edges@);
    assert(steep@.take(steep.len() as int) =~= steep@);
    out
}

/// A buffer without a complete triangle has no edges, so its overlay is
/// empty: nothing of an earlier mesh's overlay is left.
pub proof fn law_no_triangle_no_overlay(indices: Seq<u32>, edges: Seq<SharedEdge>, steep: Seq<bool>)
    requires
        indices.len() < 3,
        lists_edges(edges, all_edge_uses(indices)),
    ensures
        edges.len() == 0,
        drawn_lines(edges, steep) == Seq::<u32>::empty(),
{
    assert(all_edge_uses(indices) =~= Seq::<((u32, u32), usize)>::empty());
    if edges.len() > 0 {
        assert(users_of(all_edge_uses(indices), key_of(edges[0])) =~= Seq::<usize>::empty());
    }
}

/// An edge is known by its two indices, smaller first, whichever way the
/// triangle runs along it.
pub proof fn law_edge_key_is_ordered(a: u32, b: u32)
    ensures
        edge_key(a, b) == edge_key(b, a),
        edge_key(a, b).0 <= edge_key(a, b).1,
        (edge_key(a, b).0 == a && edge_key(a, b).1 == b) || (edge_key(a, b).0 == b && edge_key(
            a,
            b,
        ).1 == a),
{
}

/// A triangle `i0 i1 i2` uses its three edges `i0-i1`, `i1-i2` and `i2-i0`,
/// in that order, after the edges of the triangles before it.
pub proof fn law_triangle_edges(idx: Seq<u32>, t: int)
    requires
        0 <= t,
        3 * t + 3 <= idx.len(),
    ensures
        edge_uses(idx, (t + 1) as nat) == edge_uses(idx, t as nat) + seq![
            (edge_key(idx[3 * t], idx[3 * t + 1]), t as usize),
            (edge_key(idx[3 * t + 1], idx[3 * t + 2]), t as usize),
            (edge_key(idx[3 * t + 2], idx[3 * t]), t as usize),
        ],
{
    assert(((t + 1) as nat - 1) as nat == t as nat);
}

/// Boundary and non-manifold edges are always drawn; an edge between two
/// triangles is drawn exactly when they meet at a steep angle. The overlay
/// of one more edge is that of the edges before, followed by its two
/// indices when it is drawn.
pub proof fn law_drawn_edges(edges: Seq<SharedEdge>, steep: Seq<bool>, e: SharedEdge, flag: bool)
    ensures
        e.share == EdgeShare::Single ==> is_drawn(e, flag),
        e.share == EdgeShare::Many ==> is_drawn(e, flag),
        e.share is Pair ==> (is_drawn(e, flag) == flag),
        drawn_lines(edges.push(e), steep.push(flag)) == if is_drawn(e, flag) {
            drawn_lines(edges, steep) + seq![e.a, e.b]
        } else {
            drawn_lines(edges, steep)
        },
{
    assert(edges.push(e).drop_last() =~= edges);
    assert(steep.push(flag).drop_last() =~= steep);
}

} // verus!
