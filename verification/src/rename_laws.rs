//! Renaming a file keeps the graph's invariants, where the new identifiers
//! are fresh.

use crate::evolution::{
    after_rename, members, moved_id, rekeyed_all, rekeyed_one, renamed_list,
    };
use crate::graph::{EdgeKind, EntityView, GraphView};
use crate::grounding::edges_grounded;
use crate::invariants::{entity_listed, index_agrees, listing_true, well_keyed};
use crate::strmap::{
    distinct_keys, has_key, lemma_absent, lemma_position, lemma_position_distinct, lookup, position, without,
};
use crate::text::starts_with;
use vstd::prelude::*;

verus! {

/// An entity entry after its file moved: the new identifier as key and `id`,
/// and the new file.
pub open spec fn moved(e: (Seq<char>, EntityView), from: Seq<char>, to: Seq<char>) -> (
    Seq<char>,
    EntityView,
) {
    (moved_id(e.0, from, to), EntityView { id: moved_id(e.0, from, to), file: to, ..e.1 })
}

/// The rename is clean: the identifiers of the entities of `from` begin with
/// `from`, no entity has one of the new identifiers yet, and the file index
/// has no entry for `to` yet.
pub open spec fn clean_rename(g: GraphView, from: Seq<char>, to: Seq<char>) -> bool {
    &&& forall|i: int|
        0 <= i < g.entities.len() && (#[trigger] g.entities[i]).1.file == from ==> starts_with(
            g.entities[i].0,
            from,
        ) && !has_key(g.entities, moved_id(g.entities[i].0, from, to))
    &&& !has_key(g.file_index, to)
}

/// Identifier number `q` of the members is the key of an entity of the file.
pub open spec fn member_row(
    es: Seq<(Seq<char>, EntityView)>,
    file: Seq<char>,
    upto: int,
    q: int,
) -> bool {
    exists|i: int|
        0 <= i < upto && (#[trigger] es[i]).1.file == file && members(es, file, upto)[q] == es[i].0
}

/// The members of a file are the keys of its entities, and no others.
pub proof fn lemma_members(es: Seq<(Seq<char>, EntityView)>, file: Seq<char>, upto: int)
    requires
        0 <= upto <= es.len(),
    ensures
        forall|i: int|
            0 <= i < upto && (#[trigger] es[i]).1.file == file ==> members(es, file, upto).contains(
                es[i].0,
            ),
        forall|q: int|
            0 <= q < members(es, file, upto).len() ==> #[trigger] member_row(es, file, upto, q),
        distinct_keys(es) ==> forall|a: int, b: int|
            0 <= a < b < members(es, file, upto).len() ==> members(es, file, upto)[a] != members(
                es,
                file,
                upto,
            )[b],
    decreases upto,
{
    if upto > 0 {
        lemma_members(es, file, upto - 1);
        let m0 = members(es, file, upto - 1);
        let m = members(es, file, upto);
        assert forall|i: int| 0 <= i < upto && (#[trigger] es[i]).1.file == file implies m.contains(
            es[i].0,
        ) by {
            if i < upto - 1 {
                let q = choose|q: int| 0 <= q < m0.len() && m0[q] == es[i].0;
                assert(m[q] == es[i].0);
            } else {
                assert(m[m.len() - 1] == es[i].0);
            }
        }
        assert forall|q: int| 0 <= q < m.len() implies #[trigger] member_row(es, file, upto, q) by {
            if q < m0.len() {
                assert(member_row(es, file, upto - 1, q));
                let i = choose|i: int|
                    0 <= i < upto - 1 && (#[trigger] es[i]).1.file == file && m0[q] == es[i].0;
                assert(m[q] == es[i].0);
            } else {
                assert(m[q] == es[upto - 1].0);
            }
        }
        if distinct_keys(es) {
            assert forall|a: int, b: int| 0 <= a < b < m.len() implies m[a] != m[b] by {
                if b < m0.len() {
                    assert(m[a] == m0[a] && m[b] == m0[b]);
                } else {
                    assert(member_row(es, file, upto - 1, a));
                    let i = choose|i: int|
                        0 <= i < upto - 1 && (#[trigger] es[i]).1.file == file && m0[a]
                            == es[i].0;
                    assert(es[i].0 != es[upto - 1].0);
                    assert(m[a] == m0[a]);
                }
            }
        }
    }
}

/// Identifiers that begin with the old path and differ keep differing when
/// the path is swapped.
pub proof fn lemma_moved_id_injective(a: Seq<char>, b: Seq<char>, from: Seq<char>, to: Seq<char>)
    requires
        starts_with(a, from),
        starts_with(b, from),
        moved_id(a, from, to) == moved_id(b, from, to),
    ensures
        a == b,
{
    let ta = a.subrange(from.len() as int, a.len() as int);
    let tb = b.subrange(from.len() as int, b.len() as int);
    assert(ta =~= (to + ta).subrange(to.len() as int, (to + ta).len() as int));
    assert(tb =~= (to + tb).subrange(to.len() as int, (to + tb).len() as int));
    assert(a =~= a.subrange(0, from.len() as int) + ta);
    assert(b =~= b.subrange(0, from.len() as int) + tb);
}

/// Where entity number `i` stands after the identifiers `done` were moved.
pub open spec fn home(
    es: Seq<(Seq<char>, EntityView)>,
    done: Seq<Seq<char>>,
    from: Seq<char>,
    to: Seq<char>,
    i: int,
) -> (Seq<char>, EntityView) {
    if done.contains(es[i].0) {
        moved(es[i], from, to)
    } else {
        es[i]
    }
}

/// The entry is the home of one of the entities.
pub open spec fn has_origin(
    es: Seq<(Seq<char>, EntityView)>,
    done: Seq<Seq<char>>,
    from: Seq<char>,
    to: Seq<char>,
    x: (Seq<char>, EntityView),
) -> bool {
    exists|i: int| 0 <= i < es.len() && x == #[trigger] home(es, done, from, to, i)
}

/// The entity map holds exactly the homes of the entities, each once.
pub open spec fn settled(
    es: Seq<(Seq<char>, EntityView)>,
    done: Seq<Seq<char>>,
    from: Seq<char>,
    to: Seq<char>,
    now: Seq<(Seq<char>, EntityView)>,
) -> bool {
    &&& distinct_keys(now)
    &&& forall|q: int| 0 <= q < now.len() ==> has_origin(es, done, from, to, #[trigger] now[q])
    &&& forall|i: int| 0 <= i < es.len() ==> now.contains(#[trigger] home(es, done, from, to, i))
}

proof fn lemma_found(now: Seq<(Seq<char>, EntityView)>, x: (Seq<char>, EntityView))
    requires
        distinct_keys(now),
        now.contains(x),
    ensures
        has_key(now, x.0),
        lookup(now, x.0) == x.1,
        0 <= position(now, x.0) < now.len(),
        now[position(now, x.0)] == x,
{
    let q = choose|q: int| 0 <= q < now.len() && now[q] == x;
    lemma_position_distinct(now, q);
}

proof fn lemma_settle_step(
    g: GraphView,
    from: Seq<char>,
    to: Seq<char>,
    ids: Seq<Seq<char>>,
    k: int,
    now: Seq<(Seq<char>, EntityView)>,
)
    requires
        well_keyed(g),
        clean_rename(g, from, to),
        ids == members(g.entities, from, g.entities.len() as int),
        0 <= k < ids.len(),
        settled(g.entities, ids.take(k), from, to, now),
    ensures
        settled(g.entities, ids.take(k + 1), from, to, rekeyed_one(now, ids[k], from, to)),
{
    let es = g.entities;
    let n = es.len() as int;
    let done = ids.take(k);
    let next = ids.take(k + 1);
    let id = ids[k];
    lemma_members(es, from, n);
    assert(member_row(es, from, n, k));
    let i0 = choose|i: int| 0 <= i < n && (#[trigger] es[i]).1.file == from && ids[k] == es[i].0;
    assert(next =~= done.push(id));
    assert forall|y: Seq<char>| next.contains(y) <==> (done.contains(y) || y == id) by {
        if next.contains(y) {
            let q = choose|q: int| 0 <= q < next.len() && next[q] == y;
            if q < k {
                assert(done[q] == y);
            }
        }
        if done.contains(y) {
            let q = choose|q: int| 0 <= q < done.len() && done[q] == y;
            assert(next[q] == y);
        }
        assert(next[k] == id);
    }
    assert(!done.contains(id)) by {
        if done.contains(id) {
            let q = choose|q: int| 0 <= q < done.len() && done[q] == id;
            assert(ids[q] != ids[k]);
        }
    }
    // the entity is still at home under its old key
    assert(home(es, done, from, to, i0) == es[i0]);
    assert(now.contains(home(es, done, from, to, i0)));
    lemma_found(now, es[i0]);
    let p = position(now, id);
    let rest = without(now, id);
    assert(rest == now.remove(p));
    let nid = moved_id(id, from, to);
    let fresh = moved(es[i0], from, to);
    // nothing that is left has the new key
    assert forall|q: int| 0 <= q < rest.len() implies (#[trigger] rest[q]).0 != nid by {
        let w = if q < p {
            q
        } else {
            q + 1
        };
        assert(rest[q] == now[w]);
        assert(has_origin(es, done, from, to, now[w]));
        let i = choose|i: int| 0 <= i < n && now[w] == #[trigger] home(es, done, from, to, i);
        if done.contains(es[i].0) {
            let d = choose|d: int| 0 <= d < done.len() && done[d] == es[i].0;
            assert(ids[d] == es[i].0);
            assert(member_row(es, from, n, d));
            let j = choose|j: int|
                0 <= j < n && (#[trigger] es[j]).1.file == from && ids[d] == es[j].0;
            if rest[q].0 == nid {
                lemma_moved_id_injective(es[j].0, es[i0].0, from, to);
                assert(now[w].0 != now[p].0);
            }
        } else {
            if rest[q].0 == nid {
                lemma_absent(es, nid);
            }
        }
    }
    lemma_absent(rest, nid);
    let after = rekeyed_one(now, id, from, to);
    assert(after == rest.push(fresh));
    assert(distinct_keys(after)) by {
        assert forall|a: int, b: int| 0 <= a < b < after.len() implies after[a].0
            != after[b].0 by {
            let wa = if a < p {
                a
            } else {
                a + 1
            };
            if b < rest.len() {
                let wb = if b < p {
                    b
                } else {
                    b + 1
                };
                assert(after[a] == now[wa] && after[b] == now[wb]);
            } else {
                assert(after[a] == rest[a]);
            }
        }
    }
    assert forall|q: int| 0 <= q < after.len() implies has_origin(
        es,
        next,
        from,
        to,
        #[trigger] after[q],
    ) by {
        if q < rest.len() {
            let w = if q < p {
                q
            } else {
                q + 1
            };
            assert(after[q] == now[w]);
            assert(has_origin(es, done, from, to, now[w]));
            let i = choose|i: int| 0 <= i < n && now[w] == #[trigger] home(es, done, from, to, i);
            assert(now[w].0 != now[p].0);
            assert(home(es, next, from, to, i) == now[w]);
        } else {
            assert(home(es, next, from, to, i0) == fresh);
        }
    }
    assert forall|i: int| 0 <= i < n implies after.contains(
        #[trigger] home(es, next, from, to, i),
    ) by {
        if es[i].0 == id {
            assert(i == i0) by {
                if i < i0 {
                    assert(es[i].0 != es[i0].0);
                } else if i0 < i {
                    assert(es[i0].0 != es[i].0);
                }
            }
            assert(after[after.len() - 1] == fresh);
        } else {
            let x = home(es, done, from, to, i);
            assert(home(es, next, from, to, i) == x);
            assert(now.contains(x));
            let w = choose|w: int| 0 <= w < now.len() && now[w] == x;
            if w == p {
                // the entry at `p` has the key `id`
                if done.contains(es[i].0) {
                    lemma_absent(es, moved_id(es[i].0, from, to));
                    let d = choose|d: int| 0 <= d < done.len() && done[d] == es[i].0;
                    assert(ids[d] == es[i].0);
                    assert(member_row(es, from, n, d));
                }
            } else {
                let q = if w < p {
                    w
                } else {
                    w - 1
                };
                assert(after[q] == x);
            }
        }
    }
}

/// After the entities of the file were moved, the map holds every other
/// entity as it was and every entity of the file under its new identifier.
pub proof fn lemma_settled(g: GraphView, from: Seq<char>, to: Seq<char>, k: int)
    requires
        well_keyed(g),
        clean_rename(g, from, to),
        0 <= k <= members(g.entities, from, g.entities.len() as int).len(),
    ensures
        settled(
            g.entities,
            members(g.entities, from, g.entities.len() as int).take(k),
            from,
            to,
            rekeyed_all(
                g.entities,
                members(g.entities, from, g.entities.len() as int),
                from,
                to,
                k,
            ),
        ),
    decreases k,
{
    let es = g.entities;
    let ids = members(es, from, es.len() as int);
    if k == 0 {
        let done = ids.take(0);
        assert forall|q: int| 0 <= q < es.len() implies has_origin(
            es,
            done,
            from,
            to,
            #[trigger] es[q],
        ) by {
            assert(home(es, done, from, to, q) == es[q]);
        }
        assert forall|i: int| 0 <= i < es.len() implies es.contains(
            #[trigger] home(es, done, from, to, i),
        ) by {
            assert(es[i] == home(es, done, from, to, i));
        }
    } else {
        lemma_settled(g, from, to, k - 1);
        lemma_settle_step(g, from, to, ids, k - 1, rekeyed_all(es, ids, from, to, k - 1));
    }
}

/// Renaming a file keeps every edge other than `Contains` between entities,
/// where the rename is clean.
pub proof fn lemma_rename_keeps_edges(g: GraphView, from: Seq<char>, to: Seq<char>)
    requires
        well_keyed(g),
        clean_rename(g, from, to),
        edges_grounded(g),
    ensures
        edges_grounded(after_rename(g, from, to)),
{
    let es = g.entities;
    let n = es.len() as int;
    let ids = members(es, from, n);
    let r = after_rename(g, from, to);
    lemma_settled(g, from, to, ids.len() as int);
    assert(ids.take(ids.len() as int) =~= ids);
    assert forall|q: int|
        0 <= q < r.edges.len() && (#[trigger] r.edges[q]).kind != EdgeKind::Contains implies has_key(
        r.entities,
        r.edges[q].source,
    ) && has_key(r.entities, r.edges[q].target) by {
        let e = g.edges[q];
        assert(e.kind != EdgeKind::Contains);
        lemma_position(es, e.source);
        lemma_position(es, e.target);
        let s = position(es, e.source);
        let t = position(es, e.target);
        assert(r.entities.contains(home(es, ids, from, to, s)));
        assert(r.entities.contains(home(es, ids, from, to, t)));
        lemma_found(r.entities, home(es, ids, from, to, s));
        lemma_found(r.entities, home(es, ids, from, to, t));
    }
}

/// Renaming a file keeps the file index in agreement with the entities,
/// where the rename is clean.
pub proof fn lemma_rename_keeps_index(g: GraphView, from: Seq<char>, to: Seq<char>)
    requires
        well_keyed(g),
        index_agrees(g),
        clean_rename(g, from, to),
    ensures
        well_keyed(after_rename(g, from, to)),
        index_agrees(after_rename(g, from, to)),
{
    let es = g.entities;
    let fi = g.file_index;
    let n = es.len() as int;
    let ids = members(es, from, n);
    let r = after_rename(g, from, to);
    lemma_settled(g, from, to, ids.len() as int);
    assert(ids.take(ids.len() as int) =~= ids);
    lemma_members(es, from, n);
    lemma_position(fi, from);
    lemma_position(fi, to);
    let moved_list = renamed_list(lookup(fi, from), ids, from, to);
    // the shape of the new index
    let pf = position(fi, from);
    let rest = without(fi, from);
    if has_key(fi, from) {
        assert(rest == fi.remove(pf));
        assert forall|q: int| 0 <= q < rest.len() implies (#[trigger] rest[q]).0 != to by {
            let w = if q < pf {
                q
            } else {
                q + 1
            };
            assert(rest[q] == fi[w]);
        }
        lemma_absent(rest, to);
        assert(r.file_index == rest.push((to, moved_list)));
        assert forall|a: int, b: int| 0 <= a < b < r.file_index.len() implies r.file_index[a].0
            != r.file_index[b].0 by {
            let wa = if a < pf {
                a
            } else {
                a + 1
            };
            if b < rest.len() {
                let wb = if b < pf {
                    b
                } else {
                    b + 1
                };
                assert(r.file_index[a] == fi[wa] && r.file_index[b] == fi[wb]);
            } else {
                assert(r.file_index[a] == rest[a]);
            }
        }
    }
    assert(distinct_keys(r.file_index));
    assert forall|q: int| 0 <= q < r.entities.len() implies (#[trigger] r.entities[q]).1.id
        == r.entities[q].0 by {
        assert(has_origin(es, ids, from, to, r.entities[q]));
    }
    assert forall|q: int| 0 <= q < r.entities.len() implies #[trigger] entity_listed(r, q) by {
        assert(has_origin(es, ids, from, to, r.entities[q]));
        let i = choose|i: int| 0 <= i < n && r.entities[q] == #[trigger] home(es, ids, from, to, i);
        assert(entity_listed(g, i));
        let file = es[i].1.file;
        lemma_position(fi, file);
        let f = position(fi, file);
        let list = fi[f].1;
        let j = choose|j: int| 0 <= j < list.len() && list[j] == es[i].0;
        if ids.contains(es[i].0) {
            let d = choose|d: int| 0 <= d < ids.len() && ids[d] == es[i].0;
            assert(member_row(es, from, n, d));
            let i2 = choose|i2: int|
                0 <= i2 < n && (#[trigger] es[i2]).1.file == from && ids[d] == es[i2].0;
            assert(i2 == i) by {
                if i2 < i {
                    assert(es[i2].0 != es[i].0);
                } else if i < i2 {
                    assert(es[i].0 != es[i2].0);
                }
            }
            assert(file == from);
            assert(moved_list[j] == moved_id(es[i].0, from, to));
            lemma_position_distinct(r.file_index, r.file_index.len() - 1);
        } else {
            assert(file != from);
            let w = if f < pf || !has_key(fi, from) {
                f
            } else {
                f - 1
            };
            assert(r.file_index[w] == fi[f]);
            lemma_position_distinct(r.file_index, w);
        }
    }
    assert forall|f: int, j: int|
        0 <= f < r.file_index.len() && 0 <= j < r.file_index[f].1.len() implies #[trigger] listing_true(
        r,
        f,
        j,
    ) by {
        if has_key(fi, from) && f == r.file_index.len() - 1 {
            let old_id = fi[pf].1[j];
            assert(listing_true(g, pf, j));
            lemma_position(es, old_id);
            let i = position(es, old_id);
            assert(ids.contains(es[i].0));
            assert(r.file_index[f].1[j] == moved_id(old_id, from, to));
            assert(r.entities.contains(home(es, ids, from, to, i)));
            lemma_found(r.entities, home(es, ids, from, to, i));
        } else {
            let w = if !has_key(fi, from) || f < pf {
                f
            } else {
                f + 1
            };
            assert(r.file_index[f] == fi[w]);
            assert(listing_true(g, w, j));
            let id = fi[w].1[j];
            lemma_position(es, id);
            let i = position(es, id);
            assert(es[i].1.file != from) by {
                if has_key(fi, from) {
                    assert(fi[w].0 != fi[pf].0);
                } else {
                    lemma_absent(fi, from);
                }
            }
            assert(!ids.contains(id)) by {
                if ids.contains(id) {
                    let d = choose|d: int| 0 <= d < ids.len() && ids[d] == id;
                    assert(member_row(es, from, n, d));
                    let i2 = choose|i2: int|
                        0 <= i2 < n && (#[trigger] es[i2]).1.file == from && ids[d] == es[i2].0;
                    if i2 < i {
                        assert(es[i2].0 != es[i].0);
                    } else if i < i2 {
                        assert(es[i].0 != es[i2].0);
                    }
                }
            }
            assert(r.entities.contains(home(es, ids, from, to, i)));
            lemma_found(r.entities, home(es, ids, from, to, i));
        }
    }
}

} // verus!
