//! Proofs that every store transform preserves the store invariant, together
//! with frame facts saying which records a transform leaves untouched.
//!
//! The transforms themselves are the spec functions on [`WorldV`]; the
//! executable store operations and the flush loop lean on these lemmas.

use vstd::prelude::*;

use crate::types::Component;
use crate::types::Entity;
use crate::world::apply_bundle;
use crate::world::entities_nodup;
use crate::world::has_kind;
use crate::world::kind_idx;
use crate::world::kinds_nodup;
use crate::world::lemma_idx;
use crate::world::set_comp_seq;
use crate::world::RecordV;
use crate::world::WorldV;

verus! {

/// A live entity's record carries that entity.
pub proof fn lemma_rec_entity(w: WorldV, x: Entity)
    requires
        w.has(x),
    ensures
        0 <= w.idx(x) < w.records.len(),
        w.records[w.idx(x)].entity == x,
{
}

/// Replacing a record without changing its entity keeps every id in place:
/// liveness, positions and all other records are untouched.
pub proof fn lemma_with_rec(w: WorldV, i: int, r: RecordV)
    requires
        w.ids_unique(),
        0 <= i < w.records.len(),
        r.entity == w.records[i].entity,
    ensures
        w.with_rec(i, r).records.len() == w.records.len(),
        w.with_rec(i, r).next_id == w.next_id,
        w.with_rec(i, r).ids_unique(),
        forall|x: Entity| #[trigger] w.with_rec(i, r).has(x) <==> w.has(x),
        w.with_rec(i, r).has(r.entity),
        w.with_rec(i, r).idx(r.entity) == i,
        w.with_rec(i, r).rec(r.entity) == r,
        forall|x: Entity|
            w.has(x) && x != r.entity ==> #[trigger] w.with_rec(i, r).rec(x) == w.rec(x),
        forall|x: Entity|
            w.has(x) && x != r.entity ==> #[trigger] w.with_rec(i, r).idx(x) == w.idx(x),
{
    let w2 = w.with_rec(i, r);
    assert forall|j: int| 0 <= j < w2.records.len() implies (#[trigger] w2.records[j]).entity
        == w.records[j].entity by {}
    assert forall|x: Entity| #[trigger] w2.has(x) implies w.has(x) by {
        let j = w2.idx(x);
        assert(w.records[j].entity == x);
        assert(w.has(x));
    }
    assert forall|x: Entity| w.has(x) implies #[trigger] w2.has(x) by {
        let j = w.idx(x);
        assert(w2.records[j].entity == x);
        assert(w2.has(x));
    }
    lemma_idx(w2, r.entity, i);
    assert forall|x: Entity| w.has(x) && x != r.entity implies #[trigger] w2.rec(x) == w.rec(x)
        && w2.idx(x) == w.idx(x) by {
        let j = w.idx(x);
        assert(w.records[j].entity == x);
        assert(j != i);
        assert(w2.records[j].entity == x);
        lemma_idx(w2, x, j);
    }
    assert forall|x: Entity|
        w.has(x) && x != r.entity implies #[trigger] w2.idx(x) == w.idx(x) by {
        let j = w.idx(x);
        assert(w.records[j].entity == x);
        assert(j != i);
        assert(w2.records[j].entity == x);
        lemma_idx(w2, x, j);
    }
}

/// Ensuring an entity below the allocation mark preserves the invariant;
/// existing records are untouched and the new record, if one is added, is
/// blank.
pub proof fn lemma_ensure_rec(w: WorldV, e: Entity)
    requires
        w.wf(),
        e.id < w.next_id,
    ensures
        w.ensure_rec(e).wf(),
        w.ensure_rec(e).next_id == w.next_id,
        w.ensure_rec(e).records.len() == w.records.len() + (if w.has(e) {
            0int
        } else {
            1int
        }),
        w.ensure_rec(e).has(e),
        forall|x: Entity| w.has(x) ==> #[trigger] w.ensure_rec(e).has(x),
        forall|x: Entity| #[trigger] w.ensure_rec(e).has(x) ==> (w.has(x) || x == e),
        forall|x: Entity| w.has(x) ==> #[trigger] w.ensure_rec(e).rec(x) == w.rec(x),
        !w.has(e) ==> w.ensure_rec(e).rec(e) == WorldV::blank_rec(e),
{
    let w2 = w.ensure_rec(e);
    if w.has(e) {
        assert(w2 == w);
    } else {
        let n = w.records.len() as int;
        assert forall|j: int| 0 <= j < n implies #[trigger] w2.records[j] == w.records[j] by {}
        assert(w2.records[n] == WorldV::blank_rec(e));
        // no existing record carries e
        assert forall|j: int| 0 <= j < n implies (#[trigger] w.records[j]).entity != e by {
            if w.records[j].entity == e {
                assert(w.has(e));
            }
        }
        assert(w2.ids_unique());
        lemma_idx(w2, e, n);
        assert forall|x: Entity| w.has(x) implies #[trigger] w2.has(x) && w2.rec(x) == w.rec(
            x,
        ) by {
            let j = w.idx(x);
            assert(w.records[j].entity == x);
            assert(w2.records[j].entity == x);
            lemma_idx(w2, x, j);
        }
        assert forall|x: Entity| #[trigger] w2.has(x) implies (w.has(x) || x == e) by {
            let j = w2.idx(x);
            assert(w2.records[j].entity == x);
            if j < n {
                assert(w.records[j].entity == x);
            }
        }
        assert forall|x: Entity| w.has(x) implies #[trigger] w2.rec(x) == w.rec(x) by {
            assert(w2.has(x));
        }
        assert(w2.ids_bounded());
        assert forall|i: int, k: int|
            0 <= i < w2.records.len() && 0 <= k < w2.records[i].children.len() implies {
            let c = #[trigger] w2.records[i].children[k];
            &&& w2.has(c)
            &&& w2.rec(c).parent == Some(w2.records[i].entity)
        } by {
            if i < n {
                let c = w.records[i].children[k];
                assert(w.has(c));
                assert(w2.has(c));
                assert(w2.rec(c) == w.rec(c));
            }
        }
        assert(w2.children_nodup());
        assert forall|i: int|
            0 <= i < w2.records.len() && (#[trigger] w2.records[i]).parent is Some implies {
            let p = w2.records[i].parent->0;
            &&& w2.has(p)
            &&& w2.rec(p).children.contains(w2.records[i].entity)
        } by {
            if i < n {
                let p = w.records[i].parent->0;
                assert(w.has(p));
                assert(w2.has(p));
                assert(w2.rec(p) == w.rec(p));
            }
        }
        assert(w2.comps_nodup());
    }
}

/// Ensuring a whole list of entities below the allocation mark preserves the
/// invariant; existing records are untouched.
pub proof fn lemma_ensure_all(w: WorldV, cs: Seq<Entity>)
    requires
        w.wf(),
        forall|i: int| 0 <= i < cs.len() ==> (#[trigger] cs[i]).id < w.next_id,
    ensures
        w.ensure_all(cs).wf(),
        w.ensure_all(cs).next_id == w.next_id,
        w.ensure_all(cs).records.len() >= w.records.len(),
        forall|x: Entity| w.has(x) ==> #[trigger] w.ensure_all(cs).has(x),
        forall|i: int| 0 <= i < cs.len() ==> w.ensure_all(cs).has(#[trigger] cs[i]),
        forall|x: Entity|
            #[trigger] w.ensure_all(cs).has(x) ==> (w.has(x) || cs.contains(x)),
        forall|x: Entity| w.has(x) ==> #[trigger] w.ensure_all(cs).rec(x) == w.rec(x),
        forall|x: Entity|
            w.ensure_all(cs).has(x) && !w.has(x) ==> #[trigger] w.ensure_all(cs).rec(x)
                == WorldV::blank_rec(x),
    decreases cs.len(),
{
    if cs.len() > 0 {
        let w1 = w.ensure_all(cs.drop_last());
        lemma_ensure_all(w, cs.drop_last());
        lemma_ensure_rec(w1, cs.last());
        let w2 = w1.ensure_rec(cs.last());
        assert forall|i: int| 0 <= i < cs.len() implies w2.has(#[trigger] cs[i]) by {
            if i < cs.len() - 1 {
                assert(cs.drop_last()[i] == cs[i]);
                assert(w1.has(cs[i]));
            }
        }
        assert forall|x: Entity| #[trigger] w2.has(x) implies (w.has(x) || cs.contains(x)) by {
            if !w.has(x) && x != cs.last() {
                assert(w1.has(x));
                assert(cs.drop_last().contains(x));
                let i = choose|i: int|
                    0 <= i < cs.drop_last().len() && cs.drop_last()[i] == x;
                assert(cs[i] == x);
            } else if x == cs.last() {
                assert(cs[cs.len() - 1] == x);
            }
        }
        assert forall|x: Entity|
            w2.has(x) && !w.has(x) implies #[trigger] w2.rec(x) == WorldV::blank_rec(x) by {
            if w1.has(x) {
                assert(w1.rec(x) == WorldV::blank_rec(x));
                assert(w2.rec(x) == w1.rec(x));
            }
        }
    }
}

/// The component of a given kind sits at a unique position when kinds are
/// duplicate-free.
pub proof fn lemma_kind_idx(comps: Seq<Component>, kind: u64, k: int)
    requires
        kinds_nodup(comps),
        0 <= k < comps.len(),
        comps[k].kind == kind,
    ensures
        has_kind(comps, kind),
        kind_idx(comps, kind) == k,
{
    assert(has_kind(comps, kind));
    let j = kind_idx(comps, kind);
    if j != k {
        assert(comps[j].kind != comps[k].kind);
    }
}

/// Attaching one component keeps kinds duplicate-free and touches only the
/// component of that kind.
pub proof fn lemma_set_comp_seq(comps: Seq<Component>, c: Component)
    requires
        kinds_nodup(comps),
    ensures
        kinds_nodup(set_comp_seq(comps, c)),
        forall|kind: u64|
            #[trigger] has_kind(set_comp_seq(comps, c), kind) <==> (has_kind(comps, kind) || kind
                == c.kind),
        set_comp_seq(comps, c).len() == comps.len() + (if has_kind(comps, c.kind) {
            0int
        } else {
            1int
        }),
        has_kind(set_comp_seq(comps, c), c.kind),
        set_comp_seq(comps, c)[kind_idx(set_comp_seq(comps, c), c.kind)] == c,
{
    let s2 = set_comp_seq(comps, c);
    if has_kind(comps, c.kind) {
        let k = kind_idx(comps, c.kind);
        assert(0 <= k < comps.len() && comps[k].kind == c.kind);
        assert(s2 == comps.update(k, c));
        assert forall|a: int, b: int|
            0 <= a < s2.len() && 0 <= b < s2.len() && a != b implies (
        #[trigger] s2[a]).kind != (#[trigger] s2[b]).kind by {
            assert(s2[a].kind == comps[a].kind);
            assert(s2[b].kind == comps[b].kind);
        }
        assert forall|kind: u64| #[trigger] has_kind(s2, kind) implies (has_kind(comps, kind)
            || kind == c.kind) by {
            let a = choose|a: int| 0 <= a < s2.len() && (#[trigger] s2[a]).kind == kind;
            if a != k {
                assert(comps[a].kind == kind);
            }
        }
        assert forall|kind: u64| has_kind(comps, kind) implies #[trigger] has_kind(s2, kind) by {
            let a = choose|a: int| 0 <= a < comps.len() && (#[trigger] comps[a]).kind == kind;
            if a == k {
                assert(s2[k].kind == c.kind);
            } else {
                assert(s2[a].kind == kind);
            }
        }
        assert(s2[k].kind == c.kind);
        lemma_kind_idx(s2, c.kind, k);
    } else {
        let n = comps.len() as int;
        assert(s2 == comps.push(c));
        assert forall|a: int| 0 <= a < n implies (#[trigger] s2[a]).kind == comps[a].kind by {}
        assert forall|a: int, b: int|
            0 <= a < s2.len() && 0 <= b < s2.len() && a != b implies (
        #[trigger] s2[a]).kind != (#[trigger] s2[b]).kind by {
            if a < n && b < n {
            } else if a == n && b < n {
                if comps[b].kind == c.kind {
                    assert(has_kind(comps, c.kind));
                }
            } else if b == n && a < n {
                if comps[a].kind == c.kind {
                    assert(has_kind(comps, c.kind));
                }
            }
        }
        assert forall|kind: u64| #[trigger] has_kind(s2, kind) implies (has_kind(comps, kind)
            || kind == c.kind) by {
            let a = choose|a: int| 0 <= a < s2.len() && (#[trigger] s2[a]).kind == kind;
            if a < n {
                assert(comps[a].kind == kind);
            }
        }
        assert forall|kind: u64| has_kind(comps, kind) implies #[trigger] has_kind(s2, kind) by {
            let a = choose|a: int| 0 <= a < comps.len() && (#[trigger] comps[a]).kind == kind;
            assert(s2[a].kind == kind);
        }
        assert(s2[n].kind == c.kind);
        lemma_kind_idx(s2, c.kind, n);
    }
}

/// Attaching a component to a live entity preserves the invariant and
/// touches only that entity's components.
pub proof fn lemma_set_comp(w: WorldV, e: Entity, c: Component)
    requires
        w.wf(),
        w.has(e),
    ensures
        w.set_comp(e, c).wf(),
        w.set_comp(e, c).next_id == w.next_id,
        w.set_comp(e, c).records.len() == w.records.len(),
        forall|x: Entity| #[trigger] w.set_comp(e, c).has(x) <==> w.has(x),
        forall|x: Entity|
            w.has(x) && x != e ==> #[trigger] w.set_comp(e, c).rec(x) == w.rec(x),
        w.set_comp(e, c).rec(e) == (RecordV {
            components: set_comp_seq(w.rec(e).components, c),
            ..w.rec(e)
        }),
{
    let i = w.idx(e);
    assert(w.records[i].entity == e);
    let r = RecordV { components: set_comp_seq(w.records[i].components, c), ..w.records[i] };
    lemma_with_rec(w, i, r);
    let w2 = w.set_comp(e, c);
    assert(w2 == w.with_rec(i, r));
    lemma_set_comp_seq(w.records[i].components, c);
    // invariant clauses: children and parents are untouched at every record
    assert forall|ii: int, k: int|
        0 <= ii < w2.records.len() && 0 <= k < w2.records[ii].children.len() implies {
        let ch = #[trigger] w2.records[ii].children[k];
        &&& w2.has(ch)
        &&& w2.rec(ch).parent == Some(w2.records[ii].entity)
    } by {
        assert(w2.records[ii].children == w.records[ii].children);
        assert(w2.records[ii].entity == w.records[ii].entity);
        let ch = w.records[ii].children[k];
        assert(w.has(ch));
        if ch == e {
            assert(w2.rec(ch).parent == w.rec(ch).parent);
        } else {
            assert(w2.rec(ch) == w.rec(ch));
        }
    }
    assert(w2.children_nodup());
    assert forall|ii: int|
        0 <= ii < w2.records.len() && (#[trigger] w2.records[ii]).parent is Some implies {
        let p = w2.records[ii].parent->0;
        &&& w2.has(p)
        &&& w2.rec(p).children.contains(w2.records[ii].entity)
    } by {
        assert(w2.records[ii].parent == w.records[ii].parent);
        assert(w2.records[ii].entity == w.records[ii].entity);
        let p = w.records[ii].parent->0;
        assert(w.has(p));
        if p == e {
            assert(w2.rec(p).children == w.rec(p).children);
        } else {
            assert(w2.rec(p) == w.rec(p));
        }
    }
    assert forall|ii: int, k: int, l: int|
        0 <= ii < w2.records.len() && 0 <= k < w2.records[ii].components.len() && 0 <= l
            < w2.records[ii].components.len() && k != l implies (
    #[trigger] w2.records[ii].components[k]).kind != (
    #[trigger] w2.records[ii].components[l]).kind by {
        if ii == i {
        } else {
            assert(w2.records[ii].components == w.records[ii].components);
        }
    }
}

/// Attaching a whole bundle to a live entity preserves the invariant and
/// touches only that entity's components.
pub proof fn lemma_set_bundle(w: WorldV, e: Entity, b: Seq<Component>)
    requires
        w.wf(),
        w.has(e),
    ensures
        w.set_bundle_comps(e, b).wf(),
        w.set_bundle_comps(e, b).next_id == w.next_id,
        w.set_bundle_comps(e, b).records.len() == w.records.len(),
        forall|x: Entity| #[trigger] w.set_bundle_comps(e, b).has(x) <==> w.has(x),
        forall|x: Entity|
            w.has(x) && x != e ==> #[trigger] w.set_bundle_comps(e, b).rec(x) == w.rec(x),
        w.set_bundle_comps(e, b).has(e),
        w.set_bundle_comps(e, b).rec(e).entity == e,
        w.set_bundle_comps(e, b).rec(e).parent == w.rec(e).parent,
        w.set_bundle_comps(e, b).rec(e).children == w.rec(e).children,
        w.set_bundle_comps(e, b).rec(e).components == apply_bundle(w.rec(e).components, b),
    decreases b.len(),
{
    if b.len() > 0 {
        let w1 = w.set_bundle_comps(e, b.drop_last());
        lemma_set_bundle(w, e, b.drop_last());
        lemma_set_comp(w1, e, b.last());
        lemma_rec_entity(w, e);
    }
}

/// Removing an entity from a duplicate-free list: the entity is gone, every
/// other entity keeps its membership, and the list stays duplicate-free.
pub proof fn lemma_remove_value(s: Seq<Entity>, c: Entity)
    requires
        entities_nodup(s),
    ensures
        !s.contains(c) ==> s.remove_value(c) == s,
        s.contains(c) ==> s.remove_value(c).len() == s.len() - 1,
        !s.remove_value(c).contains(c),
        forall|x: Entity| x != c ==> (s.remove_value(c).contains(x) <==> s.contains(x)),
        entities_nodup(s.remove_value(c)),
{
    s.index_of_first_ensures(c);
    let s2 = s.remove_value(c);
    match s.index_of_first(c) {
        Some(i) => {
            s.remove_ensures(i);
            assert(s2 == s.remove(i));
            assert forall|j: int| 0 <= j < s2.len() implies #[trigger] s2[j] == (if j < i {
                s[j]
            } else {
                s[j + 1]
            }) by {}
            assert forall|j: int| 0 <= j < s2.len() implies #[trigger] s2[j] != c by {
                if j < i {
                } else {
                    assert(s[j + 1] != s[i]);
                }
            }
            if s2.contains(c) {
                let j = choose|j: int| 0 <= j < s2.len() && s2[j] == c;
                assert(s2[j] != c);
            }
            assert forall|x: Entity| x != c && s2.contains(x) implies s.contains(x) by {
                let j = choose|j: int| 0 <= j < s2.len() && s2[j] == x;
                if j < i {
                    assert(s[j] == x);
                } else {
                    assert(s[j + 1] == x);
                }
            }
            assert forall|x: Entity| x != c && s.contains(x) implies s2.contains(x) by {
                let j = choose|j: int| 0 <= j < s.len() && s[j] == x;
                assert(j != i);
                if j < i {
                    assert(s2[j] == x);
                } else {
                    assert(s2[j - 1] == x);
                }
            }
            assert forall|k: int, l: int|
                0 <= k < s2.len() && 0 <= l < s2.len() && k != l implies (#[trigger] s2[k]) != (
            #[trigger] s2[l]) by {
                let ko = if k < i {
                    k
                } else {
                    k + 1
                };
                let lo = if l < i {
                    l
                } else {
                    l + 1
                };
                assert(s2[k] == s[ko]);
                assert(s2[l] == s[lo]);
                assert(s[ko] != s[lo]);
            }
        },
        None => {
            assert(s2 == s);
        },
    }
}

/// Detaching a live entity from its parent preserves the invariant: the
/// entity's recorded parent is cleared, it leaves every children list, and
/// nothing else changes.
pub proof fn lemma_detach(w: WorldV, c: Entity)
    requires
        w.wf(),
        w.has(c),
    ensures
        w.detach(c).wf(),
        w.detach(c).next_id == w.next_id,
        w.detach(c).records.len() == w.records.len(),
        forall|x: Entity| #[trigger] w.detach(c).has(x) <==> w.has(x),
        w.detach(c).parent_of(c) is None,
        forall|x: Entity| w.has(x) ==> #[trigger] w.detach(c).comps_of(x) == w.comps_of(x),
        forall|x: Entity|
            w.has(x) && x != c ==> #[trigger] w.detach(c).parent_of(x) == w.parent_of(x),
        forall|x: Entity|
            w.has(x) ==> #[trigger] w.detach(c).children_of(x) == w.children_of(x).remove_value(
                c,
            ),
{
    let w2 = w.detach(c);
    lemma_rec_entity(w, c);
    let i = w.idx(c);
    // an entity is in a children list only if it is that record's child
    assert forall|x: Entity|
        w.has(x) && w.parent_of(c) != Some(x) implies !w.children_of(x).contains(c) by {
        if w.children_of(x).contains(c) {
            let k = choose|k: int| 0 <= k < w.children_of(x).len() && w.children_of(x)[k] == c;
            let xi = w.idx(x);
            lemma_rec_entity(w, x);
            assert(w.records[xi].children[k] == c);
            assert(w.rec(c).parent == Some(w.records[xi].entity));
        }
    }
    match w.rec(c).parent {
        None => {
            assert(w2 == w);
            assert forall|x: Entity|
                w.has(x) implies #[trigger] w2.children_of(x) == w.children_of(x).remove_value(
                c,
            ) by {
                lemma_rec_entity(w, x);
                assert(entities_nodup(w.children_of(x)));
                lemma_remove_value(w.children_of(x), c);
                assert(!w.children_of(x).contains(c));
            }
        },
        Some(p) => {
            // the parent is live and lists c
            assert(w.records[i].parent is Some && w.records[i].parent->0 == p);
            assert(w.has(p) && w.rec(p).children.contains(w.records[i].entity));
            let pi = w.idx(p);
            lemma_rec_entity(w, p);
            assert(entities_nodup(w.records[pi].children));
            lemma_remove_value(w.records[pi].children, c);
            let r_p = RecordV {
                children: w.records[pi].children.remove_value(c),
                ..w.records[pi]
            };
            lemma_with_rec(w, pi, r_p);
            let w1 = w.with_rec(pi, r_p);
            let ci = w1.idx(c);
            lemma_rec_entity(w1, c);
            let r_c = RecordV { parent: None, ..w1.records[ci] };
            lemma_with_rec(w1, ci, r_c);
            assert(w2 == w1.with_rec(ci, r_c));
            // record-level picture of the final state
            assert(w2.rec(c) == r_c);
            if p != c {
                assert(w1.rec(c) == w.rec(c));
                assert(w1.rec(p) == r_p);
                assert(w2.rec(p) == w1.rec(p));
            }
            assert forall|x: Entity|
                w.has(x) && x != c && x != p implies #[trigger] w2.rec(x) == w.rec(x) by {
                assert(w1.has(x));
                assert(w1.rec(x) == w.rec(x));
                assert(w2.rec(x) == w1.rec(x));
            }
            // characterization of children lists
            assert forall|x: Entity|
                w.has(x) implies #[trigger] w2.children_of(x) == w.children_of(x).remove_value(
                c,
            ) by {
                lemma_rec_entity(w, x);
                assert(entities_nodup(w.children_of(x)));
                lemma_remove_value(w.children_of(x), c);
                if x == p {
                    if p == c {
                        assert(w2.children_of(x) == r_c.children);
                        assert(r_c.children == r_p.children);
                    } else {
                        assert(w2.children_of(x) == r_p.children);
                    }
                } else {
                    assert(!w.children_of(x).contains(c));
                    if x == c {
                        assert(w2.children_of(x) == r_c.children);
                        assert(r_c.children == w.rec(c).children);
                    } else {
                        assert(w2.rec(x) == w.rec(x));
                    }
                }
            }
            // characterization of parents
            assert forall|x: Entity|
                w.has(x) && x != c implies #[trigger] w2.parent_of(x) == w.parent_of(x) by {
                if x == p {
                    assert(w2.rec(p).parent == r_p.parent);
                } else {
                    assert(w2.rec(x) == w.rec(x));
                }
            }
            assert forall|x: Entity| w.has(x) implies #[trigger] w2.comps_of(x) == w.comps_of(
                x,
            ) by {
                if x == c {
                } else if x == p {
                } else {
                    assert(w2.rec(x) == w.rec(x));
                }
            }
            // the invariant on the final state
            assert(w2.ids_bounded()) by {
                assert forall|j: int|
                    0 <= j < w2.records.len() implies (#[trigger] w2.records[j]).entity.id
                    < w2.next_id by {
                    assert(w2.records[j].entity == w.records[j].entity);
                }
            }
            assert forall|j: int, k: int|
                0 <= j < w2.records.len() && 0 <= k < w2.records[j].children.len() implies {
                let ch = #[trigger] w2.records[j].children[k];
                &&& w2.has(ch)
                &&& w2.rec(ch).parent == Some(w2.records[j].entity)
            } by {
                let x = w2.records[j].entity;
                assert(x == w.records[j].entity);
                lemma_idx(w, x, j);
                lemma_idx(w2, x, j);
                assert(w2.records[j] == w2.rec(x));
                let ch = w2.records[j].children[k];
                assert(w2.children_of(x) == w.children_of(x).remove_value(c));
                assert(ch != c);
                assert(w.children_of(x).contains(ch));
                let ko = choose|ko: int|
                    0 <= ko < w.children_of(x).len() && w.children_of(x)[ko] == ch;
                assert(w.records[j].children[ko] == ch);
                assert(w.has(ch));
                assert(w.rec(ch).parent == Some(x));
                assert(w2.parent_of(ch) == w.parent_of(ch));
            }
            assert(w2.children_nodup()) by {
                assert forall|j: int|
                    0 <= j < w2.records.len() implies entities_nodup(
                    (#[trigger] w2.records[j]).children,
                ) by {
                    let x = w2.records[j].entity;
                    assert(x == w.records[j].entity);
                    lemma_idx(w, x, j);
                    lemma_idx(w2, x, j);
                    assert(w2.children_of(x) == w.children_of(x).remove_value(c));
                    assert(w2.records[j].children == w2.children_of(x));
                    lemma_rec_entity(w, x);
                    assert(entities_nodup(w.children_of(x)));
                    lemma_remove_value(w.children_of(x), c);
                }
            }
            assert forall|j: int|
                0 <= j < w2.records.len() && (#[trigger] w2.records[j]).parent is Some implies {
                let q = w2.records[j].parent->0;
                &&& w2.has(q)
                &&& w2.rec(q).children.contains(w2.records[j].entity)
            } by {
                let x = w2.records[j].entity;
                assert(x == w.records[j].entity);
                lemma_idx(w, x, j);
                lemma_idx(w2, x, j);
                assert(w2.records[j] == w2.rec(x));
                assert(x != c);
                assert(w2.parent_of(x) == w.parent_of(x));
                let q = w2.records[j].parent->0;
                assert(w.records[j].parent is Some && w.records[j].parent->0 == q);
                assert(w.has(q) && w.rec(q).children.contains(x));
                assert(w2.children_of(q) == w.children_of(q).remove_value(c));
                lemma_rec_entity(w, q);
                assert(entities_nodup(w.children_of(q)));
                lemma_remove_value(w.children_of(q), c);
                assert(w2.children_of(q).contains(x));
                lemma_rec_entity(w2, q);
            }
            assert(w2.comps_nodup()) by {
                assert forall|j: int|
                    0 <= j < w2.records.len() implies kinds_nodup(
                    (#[trigger] w2.records[j]).components,
                ) by {
                    assert(w2.records[j].components == w.records[j].components);
                }
            }
        },
    }
}

/// Attaching a live entity under a live parent preserves the invariant: the
/// child's recorded parent becomes the new parent, it becomes the last entry
/// of the parent's children, it leaves any previous children list, and
/// nothing else changes.
pub proof fn lemma_attach(w: WorldV, p: Entity, c: Entity)
    requires
        w.wf(),
        w.has(p),
        w.has(c),
    ensures
        w.attach(p, c).wf(),
        w.attach(p, c).next_id == w.next_id,
        w.attach(p, c).records.len() == w.records.len(),
        forall|x: Entity| #[trigger] w.attach(p, c).has(x) <==> w.has(x),
        w.attach(p, c).parent_of(c) == Some(p),
        forall|x: Entity| w.has(x) ==> #[trigger] w.attach(p, c).comps_of(x) == w.comps_of(x),
        forall|x: Entity|
            w.has(x) && x != c ==> #[trigger] w.attach(p, c).parent_of(x) == w.parent_of(x),
        w.attach(p, c).children_of(p) == w.children_of(p).remove_value(c).push(c),
        forall|x: Entity|
            w.has(x) && x != p ==> #[trigger] w.attach(p, c).children_of(x) == w.children_of(
                x,
            ).remove_value(c),
{
    let wd = w.detach(c);
    lemma_detach(w, c);
    let ci = wd.idx(c);
    lemma_rec_entity(wd, c);
    let r_c = RecordV { parent: Some(p), ..wd.records[ci] };
    lemma_with_rec(wd, ci, r_c);
    let wa = wd.with_rec(ci, r_c);
    let pi = wa.idx(p);
    lemma_rec_entity(wa, p);
    let r_p = RecordV { children: wa.records[pi].children.push(c), ..wa.records[pi] };
    lemma_with_rec(wa, pi, r_p);
    let w2 = wa.with_rec(pi, r_p);
    assert(w2 == w.attach(p, c));
    assert(wa.rec(c) == r_c);
    assert(w2.rec(p) == r_p);
    // c sits in no children list after the detach
    assert forall|x: Entity| wd.has(x) implies !(#[trigger] wd.children_of(x)).contains(c) by {
        if wd.children_of(x).contains(c) {
            let k = choose|k: int| 0 <= k < wd.children_of(x).len() && wd.children_of(x)[k] == c;
            let xi = wd.idx(x);
            lemma_rec_entity(wd, x);
            assert(wd.records[xi].children[k] == c);
            assert(wd.rec(c).parent == Some(wd.records[xi].entity));
        }
    }
    // the final record of each entity
    assert forall|x: Entity|
        wd.has(x) && x != c && x != p implies #[trigger] w2.rec(x) == wd.rec(x) by {
        assert(wa.rec(x) == wd.rec(x));
        assert(w2.rec(x) == wa.rec(x));
    }
    if p == c {
        assert(w2.rec(p) == r_p);
        assert(r_p.parent == r_c.parent);
        assert(r_p.children == r_c.children.push(c));
        assert(r_c.children == wd.rec(c).children);
        assert(r_c.components == wd.rec(c).components);
    } else {
        assert(w2.rec(c) == wa.rec(c) && wa.rec(c) == r_c);
        assert(wa.rec(p) == wd.rec(p));
        assert(r_p.children == wd.rec(p).children.push(c));
        assert(r_p.parent == wd.rec(p).parent);
        assert(r_p.components == wd.rec(p).components);
    }
    assert(w2.parent_of(c) == Some(p));
    // parents of everything but c are untouched from the detached state
    assert forall|x: Entity|
        wd.has(x) && x != c implies #[trigger] w2.parent_of(x) == wd.parent_of(x) by {
        if x == p {
        } else {
            assert(w2.rec(x) == wd.rec(x));
        }
    }
    assert forall|x: Entity|
        w.has(x) && x != c implies #[trigger] w2.parent_of(x) == w.parent_of(x) by {
        assert(w2.parent_of(x) == wd.parent_of(x));
    }
    // children of everything but p are untouched from the detached state
    assert forall|x: Entity|
        wd.has(x) && x != p implies #[trigger] w2.children_of(x) == wd.children_of(x) by {
        if x == c {
            assert(w2.rec(c) == r_c);
        } else {
            assert(w2.rec(x) == wd.rec(x));
        }
    }
    assert forall|x: Entity|
        w.has(x) && x != p implies #[trigger] w2.children_of(x) == w.children_of(
        x,
    ).remove_value(c) by {
        assert(w2.children_of(x) == wd.children_of(x));
        assert(wd.children_of(x) == w.children_of(x).remove_value(c));
    }
    assert(w2.children_of(p) == wd.children_of(p).push(c)) by {
        if p == c {
            assert(w2.rec(p) == r_p);
        }
    }
    assert(w2.children_of(p) == w.children_of(p).remove_value(c).push(c));
    // components are untouched everywhere
    assert forall|x: Entity| w.has(x) implies #[trigger] w2.comps_of(x) == w.comps_of(x) by {
        if x == p || x == c {
        } else {
            assert(w2.rec(x) == wd.rec(x));
        }
        assert(wd.comps_of(x) == w.comps_of(x));
    }
    // the invariant on the final state
    assert(w2.ids_bounded()) by {
        assert forall|j: int|
            0 <= j < w2.records.len() implies (#[trigger] w2.records[j]).entity.id
            < w2.next_id by {
            assert(w2.records[j].entity == wd.records[j].entity);
            assert(wd.records[j].entity.id < wd.next_id);
        }
    }
    assert forall|j: int, k: int|
        0 <= j < w2.records.len() && 0 <= k < w2.records[j].children.len() implies {
        let ch = #[trigger] w2.records[j].children[k];
        &&& w2.has(ch)
        &&& w2.rec(ch).parent == Some(w2.records[j].entity)
    } by {
        let x = w2.records[j].entity;
        assert(x == wd.records[j].entity);
        lemma_idx(wd, x, j);
        lemma_idx(w2, x, j);
        assert(w2.records[j] == w2.rec(x));
        let ch = w2.records[j].children[k];
        assert(wd.has(ch) && ch != c ==> wd.rec(ch).parent == w2.rec(ch).parent) by {
            if wd.has(ch) && ch != c {
                assert(w2.parent_of(ch) == wd.parent_of(ch));
            }
        }
        if x == p {
            assert(w2.children_of(p) == wd.children_of(p).push(c));
            if k < wd.children_of(p).len() {
                let ch0 = wd.children_of(p)[k];
                assert(ch == ch0);
                lemma_rec_entity(wd, p);
                assert(wd.records[wd.idx(p)].children[k] == ch0);
                assert(wd.has(ch0));
                assert(wd.rec(ch0).parent == Some(p));
                assert(ch0 != c);
                assert(w2.rec(ch).parent == Some(p));
            } else {
                assert(ch == c);
                assert(w2.parent_of(c) == Some(p));
            }
        } else {
            assert(w2.children_of(x) == wd.children_of(x));
            lemma_rec_entity(wd, x);
            assert(wd.records[wd.idx(x)].children[k] == ch);
            assert(wd.has(ch));
            assert(wd.rec(ch).parent == Some(x));
            assert(ch != c);
            assert(w2.rec(ch).parent == Some(x));
        }
    }
    assert(w2.children_nodup()) by {
        assert forall|j: int|
            0 <= j < w2.records.len() implies entities_nodup(
            (#[trigger] w2.records[j]).children,
        ) by {
            let x = w2.records[j].entity;
            assert(x == wd.records[j].entity);
            lemma_idx(wd, x, j);
            lemma_idx(w2, x, j);
            assert(w2.records[j] == w2.rec(x));
            lemma_rec_entity(wd, x);
            assert(entities_nodup(wd.children_of(x)));
            if x == p {
                assert(w2.children_of(p) == wd.children_of(p).push(c));
                assert(!wd.children_of(p).contains(c));
                let s = wd.children_of(p);
                let s2 = s.push(c);
                assert forall|a: int, b: int|
                    0 <= a < s2.len() && 0 <= b < s2.len() && a != b implies (
                #[trigger] s2[a]) != (#[trigger] s2[b]) by {
                    if a < s.len() && b < s.len() {
                        assert(s2[a] == s[a] && s2[b] == s[b]);
                    } else if a == s.len() && b < s.len() {
                        if s[b] == c {
                            assert(s.contains(c));
                        }
                    } else if b == s.len() && a < s.len() {
                        if s[a] == c {
                            assert(s.contains(c));
                        }
                    }
                }
            } else {
                assert(w2.children_of(x) == wd.children_of(x));
            }
        }
    }
    assert forall|j: int|
        0 <= j < w2.records.len() && (#[trigger] w2.records[j]).parent is Some implies {
        let q = w2.records[j].parent->0;
        &&& w2.has(q)
        &&& w2.rec(q).children.contains(w2.records[j].entity)
    } by {
        let x = w2.records[j].entity;
        assert(x == wd.records[j].entity);
        lemma_idx(wd, x, j);
        lemma_idx(w2, x, j);
        assert(w2.records[j] == w2.rec(x));
        let q = w2.records[j].parent->0;
        if x == c {
            assert(q == p);
            assert(w2.children_of(p) == wd.children_of(p).push(c));
            let s2 = wd.children_of(p).push(c);
            assert(s2[s2.len() - 1] == c);
            assert(s2.contains(c));
            lemma_rec_entity(w2, p);
        } else {
            assert(w2.parent_of(x) == wd.parent_of(x));
            assert(wd.rec(x).parent is Some && wd.rec(x).parent->0 == q);
            lemma_rec_entity(wd, x);
            assert(wd.records[wd.idx(x)].parent == wd.rec(x).parent);
            assert(wd.has(q) && wd.rec(q).children.contains(x));
            if q == p {
                let s = wd.children_of(p);
                let s2 = s.push(c);
                let k = choose|k: int| 0 <= k < s.len() && s[k] == x;
                assert(s2[k] == x);
                assert(s2.contains(x));
                assert(w2.children_of(p) == s2);
                lemma_rec_entity(w2, p);
            } else {
                assert(w2.children_of(q) == wd.children_of(q));
                lemma_rec_entity(w2, q);
            }
        }
    }
    assert(w2.comps_nodup()) by {
        assert forall|j: int|
            0 <= j < w2.records.len() implies kinds_nodup(
            (#[trigger] w2.records[j]).components,
        ) by {
            let x = w2.records[j].entity;
            assert(x == wd.records[j].entity);
            lemma_idx(wd, x, j);
            lemma_idx(w2, x, j);
            assert(w2.records[j] == w2.rec(x));
            assert(w2.comps_of(x) == wd.comps_of(x)) by {
                if x == p || x == c {
                } else {
                    assert(w2.rec(x) == wd.rec(x));
                }
            }
            lemma_rec_entity(wd, x);
            assert(kinds_nodup(wd.comps_of(x)));
        }
    }
}

/// A member of a children list is live and points back to the list's owner.
pub proof fn lemma_children_member(w: WorldV, x: Entity, c: Entity)
    requires
        w.wf(),
        w.has(x),
        w.children_of(x).contains(c),
    ensures
        w.has(c),
        w.parent_of(c) == Some(x),
{
    let k = choose|k: int| 0 <= k < w.children_of(x).len() && w.children_of(x)[k] == c;
    lemma_rec_entity(w, x);
    let xi = w.idx(x);
    assert(w.records[xi].children[k] == c);
    assert(w.rec(c).parent == Some(w.records[xi].entity));
}

/// Attaching a list of live entities to a live parent preserves the
/// invariant; every attached entity ends up with the parent recorded, and
/// entities outside the list keep their parent and their components.
pub proof fn lemma_attach_all(w: WorldV, p: Entity, cs: Seq<Entity>)
    requires
        w.wf(),
        w.has(p),
        forall|i: int| 0 <= i < cs.len() ==> w.has(#[trigger] cs[i]),
    ensures
        w.attach_all(p, cs).wf(),
        w.attach_all(p, cs).next_id == w.next_id,
        w.attach_all(p, cs).records.len() == w.records.len(),
        forall|x: Entity| #[trigger] w.attach_all(p, cs).has(x) <==> w.has(x),
        forall|i: int|
            0 <= i < cs.len() ==> w.attach_all(p, cs).parent_of(#[trigger] cs[i]) == Some(p),
        forall|x: Entity|
            w.has(x) && !cs.contains(x) ==> #[trigger] w.attach_all(p, cs).parent_of(x)
                == w.parent_of(x),
        forall|x: Entity| w.has(x) ==> #[trigger] w.attach_all(p, cs).comps_of(x) == w.comps_of(
            x,
        ),
    decreases cs.len(),
{
    if cs.len() > 0 {
        let w1 = w.attach_all(p, cs.drop_last());
        lemma_attach_all(w, p, cs.drop_last());
        lemma_attach(w1, p, cs.last());
        let w2 = w1.attach(p, cs.last());
        assert forall|i: int| 0 <= i < cs.len() implies w2.parent_of(#[trigger] cs[i]) == Some(
            p,
        ) by {
            if cs[i] == cs.last() {
            } else {
                assert(cs.drop_last()[i] == cs[i]);
                assert(w1.parent_of(cs[i]) == Some(p));
            }
        }
        assert forall|x: Entity|
            w.has(x) && !cs.contains(x) implies #[trigger] w2.parent_of(x) == w.parent_of(
            x,
        ) by {
            assert(cs[cs.len() - 1] == cs.last());
            assert(x != cs.last());
            if cs.drop_last().contains(x) {
                let i = choose|i: int|
                    0 <= i < cs.drop_last().len() && cs.drop_last()[i] == x;
                assert(cs[i] == x);
            }
            assert(w1.parent_of(x) == w.parent_of(x));
        }
    }
}

/// Attaching a list of live, distinct, parentless entities to a live parent
/// outside the list appends exactly that list to the parent's children, in
/// order, and leaves every other children list untouched.
pub proof fn lemma_attach_all_fresh(w: WorldV, p: Entity, cs: Seq<Entity>)
    requires
        w.wf(),
        w.has(p),
        forall|i: int| 0 <= i < cs.len() ==> w.has(#[trigger] cs[i]),
        entities_nodup(cs),
        forall|i: int| 0 <= i < cs.len() ==> w.parent_of(#[trigger] cs[i]) is None,
        !cs.contains(p),
    ensures
        w.attach_all(p, cs).children_of(p) == w.children_of(p) + cs,
        forall|x: Entity|
            w.has(x) && x != p ==> #[trigger] w.attach_all(p, cs).children_of(x)
                == w.children_of(x),
    decreases cs.len(),
{
    if cs.len() == 0 {
        assert(w.attach_all(p, cs) == w);
        assert(w.children_of(p) + cs =~= w.children_of(p));
    } else {
        let init = cs.drop_last();
        let c = cs.last();
        assert forall|i: int| 0 <= i < init.len() implies w.has(#[trigger] init[i])
            && w.parent_of(init[i]) is None by {
            assert(init[i] == cs[i]);
        }
        assert(entities_nodup(init)) by {
            assert forall|k: int, l: int|
                0 <= k < init.len() && 0 <= l < init.len() && k != l implies (
            #[trigger] init[k]) != (#[trigger] init[l]) by {
                assert(init[k] == cs[k] && init[l] == cs[l]);
            }
        }
        if init.contains(p) {
            let i = choose|i: int| 0 <= i < init.len() && init[i] == p;
            assert(cs[i] == p);
            assert(cs.contains(p));
        }
        let w1 = w.attach_all(p, init);
        lemma_attach_all(w, p, init);
        lemma_attach_all_fresh(w, p, init);
        lemma_attach(w1, p, c);
        let w2 = w1.attach(p, c);
        // the last entity still has no parent in the intermediate state
        assert(cs[cs.len() - 1] == c);
        assert(c != p);
        if init.contains(c) {
            let i = choose|i: int| 0 <= i < init.len() && init[i] == c;
            assert(cs[i] == c);
        }
        assert(!init.contains(c));
        assert(w1.parent_of(c) == w.parent_of(c));
        assert(w1.parent_of(c) is None);
        // so it sits in no children list of the intermediate state
        assert(w1.has(p));
        if w1.children_of(p).contains(c) {
            lemma_children_member(w1, p, c);
        }
        lemma_rec_entity(w1, p);
        assert(entities_nodup(w1.children_of(p)));
        lemma_remove_value(w1.children_of(p), c);
        assert(w1.children_of(p).remove_value(c) == w1.children_of(p));
        assert(w2.children_of(p) == w1.children_of(p).push(c));
        assert(w1.children_of(p) == w.children_of(p) + init);
        assert((w.children_of(p) + init).push(c) =~= w.children_of(p) + cs) by {
            assert(cs =~= init.push(c));
        }
        assert forall|x: Entity|
            w.has(x) && x != p implies #[trigger] w2.children_of(x) == w.children_of(x) by {
            assert(w1.has(x));
            assert(w1.children_of(x) == w.children_of(x));
            assert(w2.children_of(x) == w1.children_of(x).remove_value(c));
            if w1.children_of(x).contains(c) {
                lemma_children_member(w1, x, c);
            }
            lemma_rec_entity(w1, x);
            assert(entities_nodup(w1.children_of(x)));
            lemma_remove_value(w1.children_of(x), c);
        }
    }
}

/// Removing the record at a position keeps the other records in place:
/// their liveness and contents are untouched, and the removed entity is no
/// longer live.
pub proof fn lemma_drop_rec(w: WorldV, i: int)
    requires
        w.ids_unique(),
        0 <= i < w.records.len(),
    ensures
        w.drop_rec(i).records.len() == w.records.len() - 1,
        w.drop_rec(i).next_id == w.next_id,
        w.drop_rec(i).ids_unique(),
        !w.drop_rec(i).has(w.records[i].entity),
        forall|x: Entity|
            x != w.records[i].entity ==> (#[trigger] w.drop_rec(i).has(x) <==> w.has(x)),
        forall|x: Entity|
            w.has(x) && x != w.records[i].entity ==> #[trigger] w.drop_rec(i).rec(x) == w.rec(
                x,
            ),
{
    let e = w.records[i].entity;
    let w2 = w.drop_rec(i);
    w.records.remove_ensures(i);
    assert forall|j: int| 0 <= j < w2.records.len() implies #[trigger] w2.records[j] == (if j
        < i {
        w.records[j]
    } else {
        w.records[j + 1]
    }) by {}
    assert(w2.ids_unique()) by {
        assert forall|a: int, b: int|
            0 <= a < w2.records.len() && 0 <= b < w2.records.len() && a != b implies (
        #[trigger] w2.records[a]).entity != (#[trigger] w2.records[b]).entity by {
            let ao = if a < i {
                a
            } else {
                a + 1
            };
            let bo = if b < i {
                b
            } else {
                b + 1
            };
            assert(w.records[ao].entity != w.records[bo].entity);
        }
    }
    assert(!w2.has(e)) by {
        if w2.has(e) {
            let j = w2.idx(e);
            assert(w2.records[j].entity == e);
            let jo = if j < i {
                j
            } else {
                j + 1
            };
            assert(w.records[jo].entity == w.records[i].entity);
            assert(jo != i);
        }
    }
    assert forall|x: Entity| x != e && w.has(x) implies #[trigger] w2.has(x) && w2.rec(x)
        == w.rec(x) by {
        let j = w.idx(x);
        assert(w.records[j].entity == x);
        assert(j != i);
        let jn = if j < i {
            j
        } else {
            j - 1
        };
        assert(w2.records[jn].entity == x);
        lemma_idx(w2, x, jn);
        assert(w2.records[jn] == w.records[j]);
    }
    assert forall|x: Entity| x != e && #[trigger] w2.has(x) implies w.has(x) by {
        let j = w2.idx(x);
        assert(w2.records[j].entity == x);
        let jo = if j < i {
            j
        } else {
            j + 1
        };
        assert(w.records[jo].entity == x);
    }
    assert forall|x: Entity|
        w.has(x) && x != e implies #[trigger] w2.rec(x) == w.rec(x) by {
        assert(w2.has(x));
    }
}

/// Clearing the recorded parents of a list of entities touches nothing but
/// those parent fields.
pub proof fn lemma_orphan_all(w: WorldV, cs: Seq<Entity>)
    requires
        w.ids_unique(),
    ensures
        w.orphan_all(cs).records.len() == w.records.len(),
        w.orphan_all(cs).next_id == w.next_id,
        w.orphan_all(cs).ids_unique(),
        forall|x: Entity| #[trigger] w.orphan_all(cs).has(x) <==> w.has(x),
        forall|x: Entity|
            w.has(x) && cs.contains(x) ==> #[trigger] w.orphan_all(cs).rec(x) == (RecordV {
                parent: None,
                ..w.rec(x)
            }),
        forall|x: Entity|
            w.has(x) && !cs.contains(x) ==> #[trigger] w.orphan_all(cs).rec(x) == w.rec(x),
    decreases cs.len(),
{
    if cs.len() > 0 {
        let init = cs.drop_last();
        let last = cs.last();
        lemma_orphan_all(w, init);
        let w1 = w.orphan_all(init);
        let w2 = w1.orphan_one(last);
        assert(cs[cs.len() - 1] == last);
        if w1.has(last) {
            let ci = w1.idx(last);
            lemma_rec_entity(w1, last);
            lemma_with_rec(w1, ci, RecordV { parent: None, ..w1.records[ci] });
            assert(w2.rec(last) == (RecordV { parent: None, ..w1.rec(last) }));
        }
        assert forall|x: Entity|
            w.has(x) && cs.contains(x) implies #[trigger] w2.rec(x) == (RecordV {
            parent: None,
            ..w.rec(x)
        }) by {
            if x == last {
                assert(w1.has(last));
                if init.contains(x) {
                    assert(w1.rec(x) == (RecordV { parent: None, ..w.rec(x) }));
                } else {
                    assert(w1.rec(x) == w.rec(x));
                }
            } else {
                let j = choose|j: int| 0 <= j < cs.len() && cs[j] == x;
                assert(j < cs.len() - 1);
                assert(init[j] == x);
                assert(init.contains(x));
                assert(w1.rec(x) == (RecordV { parent: None, ..w.rec(x) }));
                assert(w2.rec(x) == w1.rec(x));
            }
        }
        assert forall|x: Entity|
            w.has(x) && !cs.contains(x) implies #[trigger] w2.rec(x) == w.rec(x) by {
            assert(x != last);
            if init.contains(x) {
                let j = choose|j: int| 0 <= j < init.len() && init[j] == x;
                assert(cs[j] == x);
            }
            assert(w1.rec(x) == w.rec(x));
            assert(w2.rec(x) == w1.rec(x));
        }
    }
}

/// Removing an entity preserves the invariant: the entity is gone, it
/// leaves its parent's children, its children become parentless, and no
/// other relation or payload changes.
pub proof fn lemma_despawn(w: WorldV, e: Entity)
    requires
        w.wf(),
    ensures
        w.despawn_rec(e).wf(),
        w.despawn_rec(e).next_id == w.next_id,
        w.despawn_rec(e).records.len() == w.records.len() - (if w.has(e) {
            1int
        } else {
            0
        }),
        !w.despawn_rec(e).has(e),
        forall|x: Entity| x != e ==> (#[trigger] w.despawn_rec(e).has(x) <==> w.has(x)),
        forall|x: Entity|
            w.has(x) && x != e ==> #[trigger] w.despawn_rec(e).comps_of(x) == w.comps_of(x),
        forall|x: Entity|
            w.has(x) && x != e ==> #[trigger] w.despawn_rec(e).parent_of(x) == (
            if w.parent_of(x) == Some(e) {
                Option::<Entity>::None
            } else {
                w.parent_of(x)
            }),
        forall|x: Entity|
            w.has(x) && x != e ==> #[trigger] w.despawn_rec(e).children_of(x) == w.children_of(
                x,
            ).remove_value(e),
{
    let d = w.despawn_rec(e);
    if !w.has(e) {
        assert(d == w);
        assert forall|x: Entity|
            w.has(x) && x != e implies #[trigger] d.children_of(x) == w.children_of(
            x,
        ).remove_value(e) by {
            lemma_rec_entity(w, x);
            assert(entities_nodup(w.children_of(x)));
            lemma_remove_value(w.children_of(x), e);
            if w.children_of(x).contains(e) {
                lemma_children_member(w, x, e);
            }
        }
        assert forall|x: Entity|
            w.has(x) && x != e implies #[trigger] d.parent_of(x) == (if w.parent_of(x) == Some(
            e,
        ) {
            Option::<Entity>::None
        } else {
            w.parent_of(x)
        }) by {
            if w.parent_of(x) == Some(e) {
                lemma_rec_entity(w, x);
                let j = w.idx(x);
                assert(w.records[j].parent is Some && w.records[j].parent->0 == e);
                assert(w.has(e));
            }
        }
    } else {
        let r = w.rec(e);
        let i = w.idx(e);
        lemma_rec_entity(w, e);
        lemma_drop_rec(w, i);
        let w1 = w.drop_rec(i);
        // detach e from its parent's children where it has a live parent
        let w2 = match r.parent {
            Some(p) => if w1.has(p) {
                let pi = w1.idx(p);
                w1.with_rec(
                    pi,
                    RecordV {
                        children: w1.records[pi].children.remove_value(e),
                        ..w1.records[pi]
                    },
                )
            } else {
                w1
            },
            None => w1,
        };
        let ghost p_live = r.parent is Some && w1.has(r.parent->0);
        if p_live {
            let p = r.parent->0;
            lemma_rec_entity(w1, p);
            lemma_with_rec(
                w1,
                w1.idx(p),
                RecordV {
                    children: w1.records[w1.idx(p)].children.remove_value(e),
                    ..w1.records[w1.idx(p)]
                },
            );
        }
        assert(w2.records.len() == w1.records.len());
        assert(w2.next_id == w1.next_id);
        assert(w2.ids_unique());
        assert forall|x: Entity| #[trigger] w2.has(x) <==> w1.has(x) by {}
        assert(!w2.has(e));
        lemma_orphan_all(w2, r.children);
        assert(d == w2.orphan_all(r.children));
        // the record of every surviving entity, in the final state
        assert forall|x: Entity|
            w.has(x) && x != e implies #[trigger] d.has(x) && d.rec(x).entity == x && d.rec(
            x,
        ).components == w.rec(x).components && d.rec(x).children == w.rec(
            x,
        ).children.remove_value(e) && d.rec(x).parent == (if w.rec(x).parent == Some(e) {
            Option::<Entity>::None
        } else {
            w.rec(x).parent
        }) by {
            assert(w1.has(x) && w1.rec(x) == w.rec(x));
            lemma_rec_entity(w, x);
            assert(entities_nodup(w.children_of(x)));
            lemma_remove_value(w.children_of(x), e);
            let after_detach = if p_live && x == r.parent->0 {
                RecordV { children: w.rec(x).children.remove_value(e), ..w.rec(x) }
            } else {
                w.rec(x)
            };
            assert(w2.has(x) && w2.rec(x) == after_detach) by {
                if p_live && x == r.parent->0 {
                } else {
                    assert(w2.rec(x) == w1.rec(x));
                }
            }
            // lists other than the parent's never contain e
            if !(p_live && x == r.parent->0) {
                assert(!w.children_of(x).contains(e)) by {
                    if w.children_of(x).contains(e) {
                        lemma_children_member(w, x, e);
                        assert(r.parent == Some(x));
                        assert(w1.has(x));
                    }
                }
                assert(w.rec(x).children.remove_value(e) == w.rec(x).children);
            }
            // whether x is orphaned is exactly whether its parent was e
            if r.children.contains(x) {
                lemma_children_member(w, e, x);
                assert(w.rec(x).parent == Some(e));
                assert(d.rec(x) == (RecordV { parent: None, ..w2.rec(x) }));
            } else {
                assert(d.rec(x) == w2.rec(x));
                if w.rec(x).parent == Some(e) {
                    lemma_rec_entity(w, x);
                    let j = w.idx(x);
                    assert(w.records[j].parent is Some && w.records[j].parent->0 == e);
                    assert(w.rec(e).children.contains(x));
                }
            }
        }
        // the invariant on the final state
        assert(d.ids_bounded()) by {
            assert forall|j: int|
                0 <= j < d.records.len() implies (#[trigger] d.records[j]).entity.id
                < d.next_id by {
                let x = d.records[j].entity;
                lemma_idx(d, x, j);
                assert(d.has(x));
                assert(x != e);
                assert(w.has(x));
                lemma_rec_entity(w, x);
                assert(w.records[w.idx(x)].entity.id < w.next_id);
                assert(d.rec(x).entity == x);
                assert(d.records[j] == d.rec(x));
            }
        }
        assert forall|j: int, k: int|
            0 <= j < d.records.len() && 0 <= k < d.records[j].children.len() implies {
            let ch = #[trigger] d.records[j].children[k];
            &&& d.has(ch)
            &&& d.rec(ch).parent == Some(d.records[j].entity)
        } by {
            let x = d.records[j].entity;
            lemma_idx(d, x, j);
            assert(d.records[j] == d.rec(x));
            assert(x != e && w.has(x));
            let ch = d.records[j].children[k];
            assert(d.rec(x).children == w.rec(x).children.remove_value(e));
            lemma_rec_entity(w, x);
            assert(entities_nodup(w.children_of(x)));
            lemma_remove_value(w.children_of(x), e);
            assert(ch != e);
            assert(w.children_of(x).contains(ch));
            lemma_children_member(w, x, ch);
            assert(d.rec(ch).parent == (if w.rec(ch).parent == Some(e) {
                Option::<Entity>::None
            } else {
                w.rec(ch).parent
            }));
        }
        assert(d.children_nodup()) by {
            assert forall|j: int|
                0 <= j < d.records.len() implies entities_nodup(
                (#[trigger] d.records[j]).children,
            ) by {
                let x = d.records[j].entity;
                lemma_idx(d, x, j);
                assert(d.records[j] == d.rec(x));
                assert(x != e && w.has(x));
                lemma_rec_entity(w, x);
                assert(entities_nodup(w.children_of(x)));
                lemma_remove_value(w.children_of(x), e);
                assert(d.rec(x).children == w.children_of(x).remove_value(e));
            }
        }
        assert forall|j: int|
            0 <= j < d.records.len() && (#[trigger] d.records[j]).parent is Some implies {
            let q = d.records[j].parent->0;
            &&& d.has(q)
            &&& d.rec(q).children.contains(d.records[j].entity)
        } by {
            let x = d.records[j].entity;
            lemma_idx(d, x, j);
            assert(d.records[j] == d.rec(x));
            assert(x != e && w.has(x));
            let q = d.records[j].parent->0;
            assert(w.rec(x).parent == Some(q) && q != e);
            lemma_rec_entity(w, x);
            let jo = w.idx(x);
            assert(w.records[jo].parent is Some && w.records[jo].parent->0 == q);
            assert(w.has(q) && w.rec(q).children.contains(x));
            assert(d.has(q));
            assert(d.rec(q).children == w.rec(q).children.remove_value(e));
            lemma_rec_entity(w, q);
            assert(entities_nodup(w.children_of(q)));
            lemma_remove_value(w.children_of(q), e);
            assert(d.rec(q).children.contains(x));
        }
        assert(d.comps_nodup()) by {
            assert forall|j: int|
                0 <= j < d.records.len() implies kinds_nodup(
                (#[trigger] d.records[j]).components,
            ) by {
                let x = d.records[j].entity;
                lemma_idx(d, x, j);
                assert(d.records[j] == d.rec(x));
                assert(x != e && w.has(x));
                assert(d.rec(x).components == w.rec(x).components);
                lemma_rec_entity(w, x);
                assert(kinds_nodup(w.comps_of(x)));
            }
        }
        assert forall|x: Entity|
            w.has(x) && x != e implies #[trigger] d.comps_of(x) == w.comps_of(x) by {}
        assert forall|x: Entity|
            w.has(x) && x != e implies #[trigger] d.parent_of(x) == (if w.parent_of(x) == Some(
            e,
        ) {
            Option::<Entity>::None
        } else {
            w.parent_of(x)
        }) by {}
        assert forall|x: Entity|
            w.has(x) && x != e implies #[trigger] d.children_of(x) == w.children_of(
            x,
        ).remove_value(e) by {
            assert(d.has(x));
        }
    }
}

/// Spawning one bare entity at the allocation mark preserves the invariant;
/// the new entity is live and blank, everything else is untouched.
pub proof fn lemma_spawn_blank(w: WorldV)
    requires
        w.wf(),
        w.next_id < u64::MAX,
    ensures
        w.spawn_blank().wf(),
        w.spawn_blank().next_id == w.next_id + 1,
        w.spawn_blank().records.len() == w.records.len() + 1,
        w.spawn_blank().has((Entity { id: w.next_id })),
        w.spawn_blank().rec((Entity { id: w.next_id })) == WorldV::blank_rec(
            Entity { id: w.next_id },
        ),
        forall|x: Entity| w.has(x) ==> #[trigger] w.spawn_blank().has(x),
        forall|x: Entity|
            #[trigger] w.spawn_blank().has(x) ==> (w.has(x) || x == (Entity { id: w.next_id })),
        forall|x: Entity| w.has(x) ==> #[trigger] w.spawn_blank().rec(x) == w.rec(x),
{
    let e = Entity { id: w.next_id };
    let w2 = w.spawn_blank();
    let n = w.records.len() as int;
    assert(!w.has(e)) by {
        if w.has(e) {
            let j = w.idx(e);
            assert(w.records[j].entity.id < w.next_id);
        }
    }
    assert forall|j: int| 0 <= j < n implies #[trigger] w2.records[j] == w.records[j] by {}
    assert(w2.records[n] == WorldV::blank_rec(e));
    assert forall|j: int| 0 <= j < n implies (#[trigger] w.records[j]).entity != e by {
        if w.records[j].entity == e {
            assert(w.has(e));
        }
    }
    assert(w2.ids_unique());
    lemma_idx(w2, e, n);
    assert forall|x: Entity| w.has(x) implies #[trigger] w2.has(x) && w2.rec(x) == w.rec(x) by {
        let j = w.idx(x);
        assert(w.records[j].entity == x);
        assert(w2.records[j].entity == x);
        lemma_idx(w2, x, j);
    }
    assert forall|x: Entity| #[trigger] w2.has(x) implies (w.has(x) || x == e) by {
        let j = w2.idx(x);
        assert(w2.records[j].entity == x);
        if j < n {
            assert(w.records[j].entity == x);
        }
    }
    assert forall|x: Entity| w.has(x) implies #[trigger] w2.rec(x) == w.rec(x) by {
        assert(w2.has(x));
    }
    assert(w2.ids_bounded());
    assert forall|i: int, k: int|
        0 <= i < w2.records.len() && 0 <= k < w2.records[i].children.len() implies {
        let c = #[trigger] w2.records[i].children[k];
        &&& w2.has(c)
        &&& w2.rec(c).parent == Some(w2.records[i].entity)
    } by {
        if i < n {
            let c = w.records[i].children[k];
            assert(w.has(c));
            assert(w2.has(c));
            assert(w2.rec(c) == w.rec(c));
        }
    }
    assert(w2.children_nodup());
    assert forall|i: int|
        0 <= i < w2.records.len() && (#[trigger] w2.records[i]).parent is Some implies {
        let q = w2.records[i].parent->0;
        &&& w2.has(q)
        &&& w2.rec(q).children.contains(w2.records[i].entity)
    } by {
        if i < n {
            let q = w.records[i].parent->0;
            assert(w.has(q));
            assert(w2.has(q));
            assert(w2.rec(q) == w.rec(q));
        }
    }
    assert(w2.comps_nodup());
}

/// Spawning one entity with a bundle preserves the invariant; the new
/// entity is live, parentless and childless, carrying the bundle applied in
/// order, and everything else is untouched.
pub proof fn lemma_spawn_one(w: WorldV, b: Seq<Component>)
    requires
        w.wf(),
        w.next_id < u64::MAX,
    ensures
        w.spawn_one(b).wf(),
        w.spawn_one(b).next_id == w.next_id + 1,
        w.spawn_one(b).records.len() == w.records.len() + 1,
        w.spawn_one(b).has((Entity { id: w.next_id })),
        w.spawn_one(b).rec((Entity { id: w.next_id })) == (RecordV {
            entity: Entity { id: w.next_id },
            components: apply_bundle(Seq::<Component>::empty(), b),
            parent: None,
            children: Seq::<Entity>::empty(),
        }),
        forall|x: Entity| w.has(x) ==> #[trigger] w.spawn_one(b).has(x),
        forall|x: Entity|
            #[trigger] w.spawn_one(b).has(x) ==> (w.has(x) || x == (Entity { id: w.next_id })),
        forall|x: Entity| w.has(x) ==> #[trigger] w.spawn_one(b).rec(x) == w.rec(x),
{
    let e = Entity { id: w.next_id };
    lemma_spawn_blank(w);
    let w1 = w.spawn_blank();
    lemma_set_bundle(w1, e, b);
    let w2 = w1.set_bundle_comps(e, b);
    assert(w2 == w.spawn_one(b));
    assert(w2.rec(e).parent is None);
    assert(w2.rec(e).children == Seq::<Entity>::empty());
    assert(w2.rec(e).components == apply_bundle(Seq::<Component>::empty(), b));
    assert forall|x: Entity| w.has(x) implies #[trigger] w2.rec(x) == w.rec(x) by {
        assert(w1.has(x));
        assert(x != e) by {
            if w.has(e) {
                let j = w.idx(e);
                assert(w.records[j].entity.id < w.next_id);
            }
        }
        assert(w2.rec(x) == w1.rec(x));
    }
}

/// Spawning a whole batch of bundles preserves the invariant; the new
/// entities take consecutive ids at the allocation mark, in input order,
/// each parentless and childless with its own bundle applied, and existing
/// records are untouched.
pub proof fn lemma_spawn_all(w: WorldV, bs: Seq<Seq<Component>>)
    requires
        w.wf(),
        w.next_id + bs.len() <= u64::MAX,
    ensures
        w.spawn_all(bs).wf(),
        w.spawn_all(bs).next_id == w.next_id + bs.len(),
        w.spawn_all(bs).records.len() == w.records.len() + bs.len(),
        forall|x: Entity| w.has(x) ==> #[trigger] w.spawn_all(bs).has(x),
        forall|x: Entity|
            #[trigger] w.spawn_all(bs).has(x) ==> (w.has(x) || w.batch_ids(
                bs.len() as int,
            ).contains(x)),
        forall|x: Entity| w.has(x) ==> #[trigger] w.spawn_all(bs).rec(x) == w.rec(x),
        forall|i: int|
            0 <= i < bs.len() ==> w.spawn_all(bs).has(#[trigger] w.batch_ids(bs.len() as int)[i]),
        forall|i: int|
            0 <= i < bs.len() ==> w.spawn_all(bs).rec(
                #[trigger] w.batch_ids(bs.len() as int)[i],
            ) == (RecordV {
                entity: Entity { id: (w.next_id + i) as u64 },
                components: apply_bundle(Seq::<Component>::empty(), bs[i]),
                parent: None,
                children: Seq::<Entity>::empty(),
            }),
    decreases bs.len(),
{
    let n = bs.len() as int;
    let ids = w.batch_ids(n);
    if bs.len() > 0 {
        let init = bs.drop_last();
        let w1 = w.spawn_all(init);
        lemma_spawn_all(w, init);
        lemma_spawn_one(w1, bs.last());
        let w2 = w1.spawn_one(bs.last());
        assert(w1.next_id == w.next_id + n - 1);
        let e_last = Entity { id: (w.next_id + n - 1) as u64 };
        assert(ids[n - 1] == e_last);
        assert forall|i: int| 0 <= i < n implies w2.has(#[trigger] ids[i]) by {
            if i < n - 1 {
                assert(w.batch_ids(n - 1)[i] == ids[i]);
                assert(w1.has(ids[i]));
            } else {
                assert(ids[i] == e_last);
            }
        }
        assert forall|i: int| 0 <= i < n implies w2.rec(#[trigger] ids[i]) == (RecordV {
            entity: Entity { id: (w.next_id + i) as u64 },
            components: apply_bundle(Seq::<Component>::empty(), bs[i]),
            parent: None,
            children: Seq::<Entity>::empty(),
        }) by {
            if i < n - 1 {
                assert(w.batch_ids(n - 1)[i] == ids[i]);
                assert(init[i] == bs[i]);
                assert(w1.has(ids[i]));
                assert(w2.rec(ids[i]) == w1.rec(ids[i]));
            } else {
                assert(ids[i] == e_last);
            }
        }
        assert forall|x: Entity| #[trigger] w2.has(x) implies (w.has(x) || ids.contains(x)) by {
            if !w.has(x) {
                if w1.has(x) {
                    assert(w.batch_ids(n - 1).contains(x));
                    let i = choose|i: int|
                        0 <= i < n - 1 && #[trigger] w.batch_ids(n - 1)[i] == x;
                    assert(ids[i] == x);
                } else {
                    assert(x == e_last);
                    assert(ids[n - 1] == x);
                }
            }
        }
        assert forall|x: Entity| w.has(x) implies #[trigger] w2.has(x) && w2.rec(x) == w.rec(
            x,
        ) by {
            assert(w1.has(x));
            assert(w1.rec(x) == w.rec(x));
            assert(w2.rec(x) == w1.rec(x));
        }
        assert forall|x: Entity| w.has(x) implies #[trigger] w2.rec(x) == w.rec(x) by {
            assert(w2.has(x));
            assert(w1.has(x));
            assert(w1.rec(x) == w.rec(x));
            assert(w2.rec(x) == w1.rec(x));
        }
    } else {
        assert(w.spawn_all(bs) == w);
    }
}

} // verus!
