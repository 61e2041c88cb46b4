//! Parent links between entities, and the events that a hierarchy of
//! entities reports when a link is made, changed or dropped.
use hecs::Entity;
use vstd::prelude::*;

verus! {

/// An entity of the ECS world, carried through as an opaque handle.
#[verifier::external_type_specification]
#[verifier::external_body]
pub struct ExEntity(hecs::Entity);

/// The component that links an entity to its parent.
#[derive(Debug, Clone, Copy)]
pub struct Parent {
    pub parent_entity: Entity,
}

impl Parent {
    /// A link to `parent_entity`.
    pub fn new(parent_entity: Entity) -> (r: Self)
        ensures
            r.parent_entity == parent_entity,
    {
        Self { parent_entity }
    }
}

/// A component that names the parent of the entity that holds it.
pub trait ParentComponent {
    /// The parent entity.
    fn parent_entity(&self) -> Entity;
}

impl ParentComponent for Parent {
    fn parent_entity(&self) -> (r: Entity)
        ensures
            r == self.parent_entity,
    {
        self.parent_entity
    }
}

/// What happened to an entity's place in the hierarchy. Entities are named
/// by their bits (`hecs::Entity::to_bits`).
#[derive(Debug, Clone, Copy, PartialEq, Eq, Structural)]
pub enum HierarchyEvent {
    /// The entity was given a parent, or its parent changed, or an ancestor's did.
    ModifiedOrCreated(u64),
    /// The entity left the hierarchy.
    Removed(u64),
}

/// One change to the parent components of the world, as the world reports it.
#[derive(Debug, Clone, Copy, PartialEq, Eq, Structural)]
pub enum HierarchyInput {
    /// `entity` was given a parent component that names `parent`.
    Inserted { entity: u64, parent: u64 },
    /// The parent component of `entity` was changed; it now names `parent`.
    Modified { entity: u64, parent: u64 },
    /// `entity` lost its parent component, or left the world.
    Removed { entity: u64 },
    /// `entity`, a root (a parent that has no parent itself), left the world.
    Gone { entity: u64 },
}

// ---------------------------------------------------------------------------
// The model: a listing of the entities that have a parent, each beside its
// parent, in an order where a listed parent comes before its children.
// ---------------------------------------------------------------------------

/// The index of the last occurrence of `x` in `s`, or `-1`.
pub open spec fn pos(s: Seq<u64>, x: u64) -> int
    decreases s.len(),
{
    if s.len() == 0 {
        -1
    } else if s.last() == x {
        s.len() - 1
    } else {
        pos(s.drop_last(), x)
    }
}

/// `e` lists each entity once, `p[i]` is the parent of `e[i]`, and a parent
/// that is itself listed comes before its child.
pub open spec fn links_ok(e: Seq<u64>, p: Seq<u64>) -> bool {
    &&& e.len() == p.len()
    &&& e.no_duplicates()
    &&& forall|i: int, j: int|
        0 <= i < e.len() && 0 <= j < e.len() && #[trigger] e[j] == #[trigger] p[i] ==> j < i
}

/// The entity at `i` is one of `r`, or a child of one of `r`, or a
/// descendant of a listed entity for which this holds.
pub open spec fn in_tree(e: Seq<u64>, p: Seq<u64>, r: Seq<u64>, i: int) -> bool
    decreases i,
{
    if 0 <= i < e.len() && i < p.len() {
        r.contains(e[i]) || r.contains(p[i]) || {
            let j = pos(e, p[i]);
            0 <= j < i && in_tree(e, p, r, j)
        }
    } else {
        false
    }
}

/// The indices below `n`, in increasing order, at which `f` holds.
pub open spec fn select(n: int, f: spec_fn(int) -> bool) -> Seq<int>
    decreases n,
{
    if n <= 0 {
        Seq::empty()
    } else {
        let s = select(n - 1, f);
        if f(n - 1) {
            s.push(n - 1)
        } else {
            s
        }
    }
}

/// The items of `s` at the indices `idx`.
pub open spec fn pick(s: Seq<u64>, idx: Seq<int>) -> Seq<u64> {
    idx.map_values(|i: int| s[i])
}

/// The indices of the entities that stay when the trees of `r` go.
pub open spec fn kept_idx(e: Seq<u64>, p: Seq<u64>, r: Seq<u64>) -> Seq<int> {
    select(e.len() as int, |i: int| !in_tree(e, p, r, i))
}

/// The indices of the entities in the trees of `r`.
pub open spec fn tree_idx(e: Seq<u64>, p: Seq<u64>, r: Seq<u64>) -> Seq<int> {
    select(e.len() as int, |i: int| in_tree(e, p, r, i))
}

/// The indices of the listed descendants of `x`.
pub open spec fn below_idx(e: Seq<u64>, p: Seq<u64>, x: u64) -> Seq<int> {
    select(e.len() as int, |i: int| below_at(e, p, x, i))
}

/// The entity at `i` is a listed descendant of `x`.
pub open spec fn below_at(e: Seq<u64>, p: Seq<u64>, x: u64, i: int) -> bool {
    in_tree(e, p, seq![x], i) && e[i] != x
}

/// Giving `x` the parent `q` would make `x` its own ancestor.
pub open spec fn makes_cycle(e: Seq<u64>, p: Seq<u64>, x: u64, q: u64) -> bool {
    q == x || (0 <= pos(e, q) && in_tree(e, p, seq![x], pos(e, q)))
}

/// Giving `x` the parent `q` changes the hierarchy: `x` has another parent
/// now, and the link closes no cycle.
pub open spec fn moves(e: Seq<u64>, p: Seq<u64>, x: u64, q: u64) -> bool {
    &&& !(0 <= pos(e, x) && p[pos(e, x)] == q)
    &&& !makes_cycle(e, p, x, q)
}

/// The listing after `x` gets the parent `q`: `x` and its descendants move
/// behind everything else, in their order.
pub open spec fn linked_ents(e: Seq<u64>, p: Seq<u64>, x: u64, q: u64) -> Seq<u64> {
    if moves(e, p, x, q) {
        pick(e, kept_idx(e, p, seq![x])) + seq![x] + pick(e, below_idx(e, p, x))
    } else {
        e
    }
}

/// The parents beside `linked_ents`.
pub open spec fn linked_pars(e: Seq<u64>, p: Seq<u64>, x: u64, q: u64) -> Seq<u64> {
    if moves(e, p, x, q) {
        pick(p, kept_idx(e, p, seq![x])) + seq![q] + pick(p, below_idx(e, p, x))
    } else {
        p
    }
}

/// The listing, parents and changed entities after each link of `l` in turn.
pub open spec fn apply_links(e: Seq<u64>, p: Seq<u64>, l: Seq<(u64, u64)>) -> (Seq<u64>, Seq<u64>, Seq<u64>)
    decreases l.len(),
{
    if l.len() == 0 {
        (e, p, Seq::empty())
    } else {
        let prev = apply_links(e, p, l.drop_last());
        let (x, q) = l.last();
        if moves(prev.0, prev.1, x, q) {
            (linked_ents(prev.0, prev.1, x, q), linked_pars(prev.0, prev.1, x, q), prev.2.push(x))
        } else {
            prev
        }
    }
}

/// The entities of `rs` that are not listed but are the parent of a listed
/// entity, each once, in the order of `rs`.
pub open spec fn dead_roots(e: Seq<u64>, p: Seq<u64>, rs: Seq<u64>) -> Seq<u64>
    decreases rs.len(),
{
    if rs.len() == 0 {
        Seq::empty()
    } else {
        let prev = dead_roots(e, p, rs.drop_last());
        let x = rs.last();
        if !e.contains(x) && p.contains(x) && !rs.drop_last().contains(x) {
            prev.push(x)
        } else {
            prev
        }
    }
}

/// The entities whose trees leave the hierarchy, in input order: those of
/// the `Removed` inputs that are listed in `e`, and those of the `Gone`
/// inputs. A `Removed` input for an entity that is not listed changes nothing.
pub open spec fn removed_ids(e: Seq<u64>, ev: Seq<HierarchyInput>) -> Seq<u64>
    decreases ev.len(),
{
    if ev.len() == 0 {
        Seq::empty()
    } else {
        let prev = removed_ids(e, ev.drop_last());
        match ev.last() {
            HierarchyInput::Removed { entity } => if e.contains(entity) {
                prev.push(entity)
            } else {
                prev
            },
            HierarchyInput::Gone { entity } => prev.push(entity),
            _ => prev,
        }
    }
}

/// The entities of the `Gone` inputs, in order.
pub open spec fn gone_ids(ev: Seq<HierarchyInput>) -> Seq<u64>
    decreases ev.len(),
{
    if ev.len() == 0 {
        Seq::empty()
    } else {
        let prev = gone_ids(ev.drop_last());
        match ev.last() {
            HierarchyInput::Gone { entity } => prev.push(entity),
            _ => prev,
        }
    }
}

/// The links of the `Inserted` inputs, in order.
pub open spec fn inserted_links(ev: Seq<HierarchyInput>) -> Seq<(u64, u64)>
    decreases ev.len(),
{
    if ev.len() == 0 {
        Seq::empty()
    } else {
        let prev = inserted_links(ev.drop_last());
        match ev.last() {
            HierarchyInput::Inserted { entity, parent } => prev.push((entity, parent)),
            _ => prev,
        }
    }
}

/// The links of the `Modified` inputs, in order.
pub open spec fn modified_links(ev: Seq<HierarchyInput>) -> Seq<(u64, u64)>
    decreases ev.len(),
{
    if ev.len() == 0 {
        Seq::empty()
    } else {
        let prev = modified_links(ev.drop_last());
        match ev.last() {
            HierarchyInput::Modified { entity, parent } => prev.push((entity, parent)),
            _ => prev,
        }
    }
}

/// The links that an update makes: the insertions first, then the changes.
pub open spec fn links_of(ev: Seq<HierarchyInput>) -> Seq<(u64, u64)> {
    inserted_links(ev) + modified_links(ev)
}

/// A `Removed` event for each entity of `s`, in order.
pub open spec fn removed_events(s: Seq<u64>) -> Seq<HierarchyEvent> {
    s.map_values(|x: u64| HierarchyEvent::Removed(x))
}

/// A `ModifiedOrCreated` event for each entity of `s`, in order.
pub open spec fn changed_events(s: Seq<u64>) -> Seq<HierarchyEvent> {
    s.map_values(|x: u64| HierarchyEvent::ModifiedOrCreated(x))
}

/// The listing after the removals of `ev`.
pub open spec fn after_removal(e: Seq<u64>, p: Seq<u64>, ev: Seq<HierarchyInput>) -> (Seq<u64>, Seq<u64>) {
    let k = kept_idx(e, p, removed_ids(e, ev));
    (pick(e, k), pick(p, k))
}

/// The listing, parents and changed entities after the whole update.
pub open spec fn after_update(e: Seq<u64>, p: Seq<u64>, ev: Seq<HierarchyInput>) -> (Seq<u64>, Seq<u64>, Seq<u64>) {
    let m = after_removal(e, p, ev);
    apply_links(m.0, m.1, links_of(ev))
}

/// What an update reports: every entity that left, then every entity whose
/// parent or ancestor changed, in listing order.
pub open spec fn update_events(e: Seq<u64>, p: Seq<u64>, ev: Seq<HierarchyInput>) -> Seq<HierarchyEvent> {
    let r = removed_ids(e, ev);
    let a = after_update(e, p, ev);
    removed_events(pick(e, tree_idx(e, p, r)) + dead_roots(e, p, gone_ids(ev))) + changed_events(
        pick(a.0, tree_idx(a.0, a.1, a.2)),
    )
}

/// The parents among the first `n` of `p` that are not listed in `e`, each
/// once, in the order in which they first occur.
pub open spec fn roots_in(e: Seq<u64>, p: Seq<u64>, n: int) -> Seq<u64>
    decreases n,
{
    if n <= 0 {
        Seq::empty()
    } else {
        let prev = roots_in(e, p, n - 1);
        let y = p[n - 1];
        if !e.contains(y) && !prev.contains(y) {
            prev.push(y)
        } else {
            prev
        }
    }
}

/// The parent of `x` in the listing, if `x` is listed.
pub open spec fn parent_in(e: Seq<u64>, p: Seq<u64>, x: u64) -> Option<u64> {
    if 0 <= pos(e, x) {
        Some(p[pos(e, x)])
    } else {
        None
    }
}

// ---------------------------------------------------------------------------
// Lemmas
// ---------------------------------------------------------------------------

proof fn lemma_pos(s: Seq<u64>, x: u64)
    ensures
        -1 <= pos(s, x) < s.len(),
        pos(s, x) >= 0 ==> s[pos(s, x)] == x,
        s.contains(x) <==> pos(s, x) >= 0,
    decreases s.len(),
{
    if s.len() > 0 {
        lemma_pos(s.drop_last(), x);
        if s.last() != x {
            if s.contains(x) {
                let k = choose|k: int| 0 <= k < s.len() && s[k] == x;
                assert(s.drop_last()[k] == x);
            }
            if pos(s, x) >= 0 {
                assert(s[pos(s, x)] == s.drop_last()[pos(s, x)]);
            }
        }
    }
}

proof fn lemma_pos_at(s: Seq<u64>, j: int)
    requires
        s.no_duplicates(),
        0 <= j < s.len(),
    ensures
        pos(s, s[j]) == j,
{
    lemma_pos(s, s[j]);
}

proof fn lemma_select(n: int, f: spec_fn(int) -> bool)
    ensures
        forall|a: int| 0 <= a < select(n, f).len() ==> 0 <= #[trigger] select(n, f)[a] < n && f(select(n, f)[a]),
        forall|a: int, b: int|
            0 <= a < b < select(n, f).len() ==> #[trigger] select(n, f)[a] < #[trigger] select(n, f)[b],
        forall|i: int| 0 <= i < n && f(i) ==> #[trigger] select(n, f).contains(i),
    decreases n,
{
    if n > 0 {
        lemma_select(n - 1, f);
        let s = select(n - 1, f);
        assert forall|i: int| 0 <= i < n && f(i) implies #[trigger] select(n, f).contains(i) by {
            if i < n - 1 {
                assert(s.contains(i));
                let k = choose|k: int| 0 <= k < s.len() && s[k] == i;
                if f(n - 1) {
                    assert(select(n, f) == s.push(n - 1));
                    assert(select(n, f)[k] == i);
                } else {
                    assert(select(n, f) == s);
                }
            } else {
                assert(select(n, f)[s.len() as int] == i);
            }
        }
    }
}

proof fn lemma_select_ext(n: int, f: spec_fn(int) -> bool, g: spec_fn(int) -> bool)
    requires
        forall|i: int| 0 <= i < n ==> #[trigger] f(i) == g(i),
    ensures
        select(n, f) == select(n, g),
    decreases n,
{
    if n > 0 {
        lemma_select_ext(n - 1, f, g);
    }
}

/// A listing's items at increasing indices, beside their parents, is a listing.
proof fn lemma_pick_ok(e: Seq<u64>, p: Seq<u64>, idx: Seq<int>)
    requires
        links_ok(e, p),
        forall|a: int| 0 <= a < idx.len() ==> 0 <= #[trigger] idx[a] < e.len(),
        forall|a: int, b: int| 0 <= a < b < idx.len() ==> #[trigger] idx[a] < #[trigger] idx[b],
    ensures
        links_ok(pick(e, idx), pick(p, idx)),
{
    let ne = pick(e, idx);
    let np = pick(p, idx);
    assert forall|a: int, b: int| 0 <= a < ne.len() && 0 <= b < ne.len() && a != b implies ne[a] != ne[b] by {
        if a < b {
            assert(idx[a] < idx[b]);
        } else {
            assert(idx[b] < idx[a]);
        }
    }
    assert forall|i: int, j: int|
        0 <= i < ne.len() && 0 <= j < ne.len() && #[trigger] ne[j] == #[trigger] np[i] implies j < i by {
        assert(e[idx[j]] == p[idx[i]]);
        if j >= i {
            if j > i {
                assert(idx[i] < idx[j]);
            }
        }
    }
}

/// A child of an entity in the trees of `r` is in them too.
proof fn lemma_tree_child(e: Seq<u64>, p: Seq<u64>, r: Seq<u64>, i: int, j: int)
    requires
        links_ok(e, p),
        0 <= i < e.len(),
        0 <= j < e.len(),
        e[j] == p[i],
        in_tree(e, p, r, j),
    ensures
        in_tree(e, p, r, i),
{
    lemma_pos_at(e, j);
}

/// Moving `x` and its descendants behind the rest keeps a listing a listing.
pub proof fn lemma_link_ok(e: Seq<u64>, p: Seq<u64>, x: u64, q: u64)
    requires
        links_ok(e, p),
        moves(e, p, x, q),
    ensures
        links_ok(linked_ents(e, p, x, q), linked_pars(e, p, x, q)),
        linked_ents(e, p, x, q).to_set() == e.to_set().insert(x),
{
    let r = seq![x];
    let k = kept_idx(e, p, r);
    let d = below_idx(e, p, x);
    let fk = |i: int| !in_tree(e, p, r, i);
    let fd = |i: int| below_at(e, p, x, i);
    lemma_select(e.len() as int, fk);
    lemma_select(e.len() as int, fd);
    let ke = pick(e, k);
    let kp = pick(p, k);
    let de = pick(e, d);
    let dp = pick(p, d);
    let ne = linked_ents(e, p, x, q);
    let np = linked_pars(e, p, x, q);
    assert(ne == ke + seq![x] + de);
    assert(np == kp + seq![q] + dp);
    let kl = k.len() as int;
    assert(r[0] == x);
    assert(r.contains(x));
    assert(k == select(e.len() as int, fk));
    assert(d == select(e.len() as int, fd));
    assert forall|a: int, b: int| 0 <= a < ne.len() && 0 <= b < ne.len() && a != b implies ne[a] != ne[b] by {
        if a < kl && b < kl {
            if a < b { assert(k[a] < k[b]); } else { assert(k[b] < k[a]); }
        } else if a > kl && b > kl {
            if a < b { assert(d[a - kl - 1] < d[b - kl - 1]); } else { assert(d[b - kl - 1] < d[a - kl - 1]); }
        } else if a < kl && b > kl {
            assert(fk(k[a]));
            assert(fd(d[b - kl - 1]));
        } else if b < kl && a > kl {
            assert(fk(k[b]));
            assert(fd(d[a - kl - 1]));
        } else if a == kl && b < kl {
            assert(fk(k[b]));
            assert(r.contains(e[k[b]]) ==> in_tree(e, p, r, k[b]));
        } else if b == kl && a < kl {
            assert(fk(k[a]));
            assert(r.contains(e[k[a]]) ==> in_tree(e, p, r, k[a]));
        } else if a == kl {
            assert(fd(d[b - kl - 1]));
        } else {
            assert(fd(d[a - kl - 1]));
        }
    }
    assert forall|i: int, j: int|
        0 <= i < ne.len() && 0 <= j < ne.len() && #[trigger] ne[j] == #[trigger] np[i] implies j < i by {
        if i < kl {
            let ii = k[i];
            assert(fk(ii));
            assert(np[i] == p[ii]);
            if j < kl {
                assert(e[k[j]] == p[ii]);
                if j >= i {
                    if j > i { assert(k[i] < k[j]); }
                }
            } else if j == kl {
                assert(r.contains(p[ii]));
            } else {
                let jj = d[j - kl - 1];
                assert(fd(jj));
                lemma_tree_child(e, p, r, ii, jj);
            }
        } else if i == kl {
            if j == kl {
            } else if j > kl {
                let jj = d[j - kl - 1];
                assert(fd(jj));
                assert(e[jj] == q);
                lemma_pos_at(e, jj);
            }
        } else {
            let ii = d[i - kl - 1];
            if j > kl {
                let jj = d[j - kl - 1];
                assert(e[jj] == p[ii]);
                if j >= i {
                    if j > i { assert(d[i - kl - 1] < d[j - kl - 1]); }
                }
            }
        }
    }
    assert forall|y: u64| ne.to_set().contains(y) <==> e.to_set().insert(x).contains(y) by {
        if ne.to_set().contains(y) {
            let a = choose|a: int| 0 <= a < ne.len() && ne[a] == y;
            if a < kl {
                assert(e[k[a]] == y);
            } else if a > kl {
                assert(e[d[a - kl - 1]] == y);
            }
        }
        if e.to_set().insert(x).contains(y) && y != x {
            let i = choose|i: int| 0 <= i < e.len() && e[i] == y;
            if fk(i) {
                assert(k.contains(i));
                let a = choose|a: int| 0 <= a < k.len() && k[a] == i;
                assert(ne[a] == y);
            } else {
                assert(fd(i));
                assert(d.contains(i));
                let a = choose|a: int| 0 <= a < d.len() && d[a] == i;
                assert(ne[kl + 1 + a] == y);
            }
        }
        if y == x {
            assert(ne[kl] == x);
        }
    }
    assert(ne.to_set() =~= e.to_set().insert(x));
}

/// A link that changes the hierarchy gives `x` the parent `q` and leaves the
/// parent of every other entity as it was.
pub proof fn lemma_link_parents(e: Seq<u64>, p: Seq<u64>, x: u64, q: u64)
    requires
        links_ok(e, p),
        moves(e, p, x, q),
    ensures
        parent_in(linked_ents(e, p, x, q), linked_pars(e, p, x, q), x) == Some(q),
        forall|y: u64|
            y != x ==> #[trigger] parent_in(linked_ents(e, p, x, q), linked_pars(e, p, x, q), y) == parent_in(
                e,
                p,
                y,
            ),
{
    lemma_link_ok(e, p, x, q);
    let r = seq![x];
    let k = kept_idx(e, p, r);
    let d = below_idx(e, p, x);
    let fk = |i: int| !in_tree(e, p, r, i);
    let fd = |i: int| below_at(e, p, x, i);
    lemma_select(e.len() as int, fk);
    lemma_select(e.len() as int, fd);
    assert(k == select(e.len() as int, fk));
    assert(d == select(e.len() as int, fd));
    let ne = linked_ents(e, p, x, q);
    let np = linked_pars(e, p, x, q);
    let kl = k.len() as int;
    assert(ne == pick(e, k) + seq![x] + pick(e, d));
    assert(np == pick(p, k) + seq![q] + pick(p, d));
    assert(ne[kl] == x);
    lemma_pos_at(ne, kl);
    assert forall|y: u64| y != x implies #[trigger] parent_in(ne, np, y) == parent_in(e, p, y) by {
        lemma_pos(e, y);
        lemma_pos(ne, y);
        if e.contains(y) {
            let i = pos(e, y);
            if fk(i) {
                assert(k.contains(i));
                let a = choose|a: int| 0 <= a < k.len() && k[a] == i;
                assert(ne[a] == y);
                lemma_pos_at(ne, a);
                assert(np[a] == p[i]);
            } else {
                assert(r[0] == x);
                assert(fd(i));
                assert(d.contains(i));
                let a = choose|a: int| 0 <= a < d.len() && d[a] == i;
                assert(ne[kl + 1 + a] == y);
                lemma_pos_at(ne, kl + 1 + a);
                assert(np[kl + 1 + a] == p[i]);
            }
        } else {
            assert(!e.to_set().contains(y));
            assert(!ne.to_set().contains(y));
            assert(!ne.contains(y));
        }
    }
}

/// Links keep a listing a listing; they list every entity that was listed,
/// and list no other entity than one that a link names.
pub proof fn lemma_apply_links(e: Seq<u64>, p: Seq<u64>, l: Seq<(u64, u64)>)
    requires
        links_ok(e, p),
    ensures
        links_ok(apply_links(e, p, l).0, apply_links(e, p, l).1),
        forall|y: u64| e.contains(y) ==> #[trigger] apply_links(e, p, l).0.contains(y),
        forall|y: u64|
            #[trigger] apply_links(e, p, l).0.contains(y) ==> e.contains(y) || exists|k: int|
                0 <= k < l.len() && (#[trigger] l[k]).0 == y,
    decreases l.len(),
{
    if l.len() > 0 {
        let prev = apply_links(e, p, l.drop_last());
        lemma_apply_links(e, p, l.drop_last());
        let (x, q) = l.last();
        if moves(prev.0, prev.1, x, q) {
            lemma_link_ok(prev.0, prev.1, x, q);
            let ne = linked_ents(prev.0, prev.1, x, q);
            assert forall|y: u64| e.contains(y) implies #[trigger] apply_links(e, p, l).0.contains(y) by {
                assert(prev.0.contains(y));
                assert(prev.0.to_set().contains(y));
                assert(ne.to_set().contains(y));
            }
            assert forall|y: u64| #[trigger] apply_links(e, p, l).0.contains(y) implies e.contains(y) || exists|k: int|
                0 <= k < l.len() && (#[trigger] l[k]).0 == y by {
                assert(ne.to_set().contains(y));
                if y == x {
                    assert(l[l.len() - 1].0 == y);
                } else {
                    assert(prev.0.to_set().contains(y));
                    assert(prev.0.contains(y));
                    if !e.contains(y) {
                        let k = choose|k: int| 0 <= k < l.drop_last().len() && (#[trigger] l.drop_last()[k]).0 == y;
                        assert(l[k].0 == y);
                    }
                }
            }
        } else {
            assert forall|y: u64| #[trigger] apply_links(e, p, l).0.contains(y) implies e.contains(y) || exists|k: int|
                0 <= k < l.len() && (#[trigger] l[k]).0 == y by {
                if !e.contains(y) {
                    let k = choose|k: int| 0 <= k < l.drop_last().len() && (#[trigger] l.drop_last()[k]).0 == y;
                    assert(l[k].0 == y);
                }
            }
        }
    }
}

/// An entity in the tree of a removed entity leaves the hierarchy, and the
/// update reports it `Removed`, unless the same update links it again.
pub proof fn lemma_removed_subtree_leaves(e: Seq<u64>, p: Seq<u64>, ev: Seq<HierarchyInput>, i: int)
    requires
        links_ok(e, p),
        0 <= i < e.len(),
        in_tree(e, p, removed_ids(e, ev), i),
        forall|k: int| 0 <= k < links_of(ev).len() ==> (#[trigger] links_of(ev)[k]).0 != e[i],
    ensures
        !after_update(e, p, ev).0.contains(e[i]),
        update_events(e, p, ev).contains(HierarchyEvent::Removed(e[i])),
{
    let r = removed_ids(e, ev);
    let k = kept_idx(e, p, r);
    let t = tree_idx(e, p, r);
    lemma_select(e.len() as int, |j: int| !in_tree(e, p, r, j));
    lemma_select(e.len() as int, |j: int| in_tree(e, p, r, j));
    lemma_pick_ok(e, p, k);
    let m = after_removal(e, p, ev);
    if m.0.contains(e[i]) {
        let a = choose|a: int| 0 <= a < m.0.len() && m.0[a] == e[i];
        assert(e[k[a]] == e[i]);
        assert(!in_tree(e, p, r, k[a]));
    }
    lemma_apply_links(m.0, m.1, links_of(ev));
    assert(t.contains(i));
    let b = choose|b: int| 0 <= b < t.len() && t[b] == i;
    let gone = pick(e, t) + dead_roots(e, p, gone_ids(ev));
    assert(gone[b] == e[i]);
    let evs = update_events(e, p, ev);
    assert(evs[b] == HierarchyEvent::Removed(e[i]));
}

// ---------------------------------------------------------------------------
// The hierarchy
// ---------------------------------------------------------------------------

/// Where `x` stands in `v`, if it does.
fn find(v: &Vec<u64>, x: u64) -> (r: Option<usize>)
    ensures
        match r {
            Some(k) => k < v.len() && v@[k as int] == x,
            None => !v@.contains(x),
        },
{
    let mut i: usize = 0;
    while i < v.len()
        invariant
            i <= v.len(),
            forall|k: int| 0 <= k < i ==> v@[k] != x,
        decreases v.len() - i,
    {
        if v[i] == x {
            return Some(i);
        }
        i += 1;
    }
    None
}

/// Whether `x` is among the first `n` items of `v`.
fn occurs_before(v: &Vec<u64>, n: usize, x: u64) -> (r: bool)
    requires
        n <= v.len(),
    ensures
        r == v@.subrange(0, n as int).contains(x),
{
    let mut i: usize = 0;
    while i < n
        invariant
            i <= n,
            n <= v.len(),
            forall|k: int| 0 <= k < i ==> v@[k] != x,
        decreases n - i,
    {
        if v[i] == x {
            assert(v@.subrange(0, n as int)[i as int] == x);
            return true;
        }
        i += 1;
    }
    false
}

/// For each listed entity, whether it is in the trees of `r`.
fn tree_flags(e: &Vec<u64>, p: &Vec<u64>, r: &Vec<u64>) -> (f: Vec<bool>)
    requires
        links_ok(e@, p@),
    ensures
        f.len() == e.len(),
        forall|i: int| 0 <= i < e.len() ==> f@[i] == in_tree(e@, p@, r@, i),
{
    let mut f: Vec<bool> = Vec::new();
    let mut i: usize = 0;
    while i < e.len()
        invariant
            links_ok(e@, p@),
            i <= e.len(),
            f.len() == i,
            forall|k: int| 0 <= k < i ==> f@[k] == in_tree(e@, p@, r@, k),
        decreases e.len() - i,
    {
        let mut b = find(r, e[i]).is_some() || find(r, p[i]).is_some();
        proof {
            lemma_pos(e@, p@[i as int]);
        }
        if !b {
            match find(e, p[i]) {
                Some(j) => {
                    proof {
                        lemma_pos_at(e@, j as int);
                    }
                    b = f[j];
                },
                None => {},
            }
        }
        f.push(b);
        i += 1;
    }
    f
}

/// The listed entities at the indices where `k` holds, beside their parents.
fn pick_where(e: &Vec<u64>, p: &Vec<u64>, k: &Vec<bool>) -> (r: (Vec<u64>, Vec<u64>))
    requires
        e.len() == p.len(),
        k.len() == e.len(),
    ensures
        r.0@ == pick(e@, select(e.len() as int, |i: int| k@[i])),
        r.1@ == pick(p@, select(e.len() as int, |i: int| k@[i])),
{
    let ghost f = |i: int| k@[i];
    let mut ne: Vec<u64> = Vec::new();
    let mut np: Vec<u64> = Vec::new();
    let mut i: usize = 0;
    while i < e.len()
        invariant
            e.len() == p.len(),
            k.len() == e.len(),
            i <= e.len(),
            f == (|i: int| k@[i]),
            ne@ == pick(e@, select(i as int, f)),
            np@ == pick(p@, select(i as int, f)),
        decreases e.len() - i,
    {
        let ghost s = select(i as int, f);
        if k[i] {
            ne.push(e[i]);
            np.push(p[i]);
            assert(select(i + 1, f) == s.push(i as int));
            assert(ne@ =~= pick(e@, select(i + 1, f)));
            assert(np@ =~= pick(p@, select(i + 1, f)));
        } else {
            assert(select(i + 1, f) == s);
        }
        i += 1;
    }
    (ne, np)
}

/// The entities whose trees leave the hierarchy listed by `e`, and the
/// entities of the `Gone` inputs, each in input order.
fn removed_list(e: &Vec<u64>, ev: &Vec<HierarchyInput>) -> (r: (Vec<u64>, Vec<u64>))
    ensures
        r.0@ == removed_ids(e@, ev@),
        r.1@ == gone_ids(ev@),
{
    let mut r: Vec<u64> = Vec::new();
    let mut g: Vec<u64> = Vec::new();
    let mut i: usize = 0;
    while i < ev.len()
        invariant
            i <= ev.len(),
            r@ == removed_ids(e@, ev@.take(i as int)),
            g@ == gone_ids(ev@.take(i as int)),
        decreases ev.len() - i,
    {
        proof {
            assert(ev@.take(i + 1).drop_last() == ev@.take(i as int));
        }
        match ev[i] {
            HierarchyInput::Removed { entity } => {
                if find(e, entity).is_some() {
                    r.push(entity);
                }
            },
            HierarchyInput::Gone { entity } => {
                r.push(entity);
                g.push(entity);
            },
            _ => {},
        }
        i += 1;
    }
    proof {
        assert(ev@.take(ev@.len() as int) == ev@);
    }
    (r, g)
}

/// The links of the inputs: the insertions in order, then the changes in order.
fn link_list(ev: &Vec<HierarchyInput>) -> (r: Vec<(u64, u64)>)
    ensures
        r@ == links_of(ev@),
{
    let mut a: Vec<(u64, u64)> = Vec::new();
    let mut b: Vec<(u64, u64)> = Vec::new();
    let mut i: usize = 0;
    while i < ev.len()
        invariant
            i <= ev.len(),
            a@ == inserted_links(ev@.take(i as int)),
            b@ == modified_links(ev@.take(i as int)),
        decreases ev.len() - i,
    {
        proof {
            assert(ev@.take(i + 1).drop_last() == ev@.take(i as int));
        }
        match ev[i] {
            HierarchyInput::Inserted { entity, parent } => a.push((entity, parent)),
            HierarchyInput::Modified { entity, parent } => b.push((entity, parent)),
            HierarchyInput::Removed { .. } => {},
            HierarchyInput::Gone { .. } => {},
        }
        i += 1;
    }
    proof {
        assert(ev@.take(ev@.len() as int) == ev@);
    }
    a.append(&mut b);
    a
}

/// The entities that have a parent, kept in an order where every parent that
/// itself has one comes before its children.
pub struct Hierarchy {
    ents: Vec<u64>,
    pars: Vec<u64>,
}

impl Hierarchy {
    /// The entities that have a parent, in listing order.
    pub closed spec fn entities(&self) -> Seq<u64> {
        self.ents@
    }

    /// The parent of each entity of `entities`, beside it.
    pub closed spec fn parents(&self) -> Seq<u64> {
        self.pars@
    }

    /// Each entity is listed once, and a listed parent comes before its children.
    pub open spec fn wf(&self) -> bool {
        links_ok(self.entities(), self.parents())
    }

    /// The parent of `x`, if `x` has one.
    pub open spec fn parent_of(&self, x: u64) -> Option<u64> {
        parent_in(self.entities(), self.parents(), x)
    }

    /// An empty hierarchy.
    pub fn new() -> (r: Self)
        ensures
            r.wf(),
            r.entities() == Seq::<u64>::empty(),
            r.parents() == Seq::<u64>::empty(),
    {
        Hierarchy { ents: Vec::new(), pars: Vec::new() }
    }

    /// All entities that have a parent, parents before their children.
    pub fn all(&self) -> (r: &[u64])
        ensures
            r@ == self.entities(),
    {
        self.ents.as_slice()
    }

    /// The parent of `x`, if `x` has one.
    pub fn parent(&self, x: u64) -> (r: Option<u64>)
        requires
            self.wf(),
        ensures
            r == self.parent_of(x),
    {
        proof {
            lemma_pos(self.ents@, x);
        }
        match find(&self.ents, x) {
            Some(i) => {
                proof {
                    lemma_pos_at(self.ents@, i as int);
                }
                Some(self.pars[i])
            },
            None => None,
        }
    }

    /// The immediate children of `x`, in listing order.
    pub fn children(&self, x: u64) -> (r: Vec<u64>)
        requires
            self.wf(),
        ensures
            r@.no_duplicates(),
            forall|y: u64| r@.contains(y) <==> self.parent_of(y) == Some(x),
            r@ == pick(self.entities(), select(self.entities().len() as int, |i: int| self.parents()[i] == x)),
    {
        let mut k: Vec<bool> = Vec::new();
        let mut i: usize = 0;
        while i < self.pars.len()
            invariant
                i <= self.pars.len(),
                k.len() == i,
                forall|j: int| 0 <= j < i ==> k@[j] == (self.pars@[j] == x),
            decreases self.pars.len() - i,
        {
            k.push(self.pars[i] == x);
            i += 1;
        }
        let r = pick_where(&self.ents, &self.pars, &k);
        let ghost f = |i: int| self.parents()[i] == x;
        proof {
            lemma_select_ext(self.ents@.len() as int, |i: int| k@[i], f);
            lemma_select(self.ents@.len() as int, f);
            lemma_pick_ok(self.ents@, self.pars@, select(self.ents@.len() as int, f));
            let s = select(self.ents@.len() as int, f);
            assert forall|y: u64| r.0@.contains(y) <==> self.parent_of(y) == Some(x) by {
                lemma_pos(self.ents@, y);
                if r.0@.contains(y) {
                    let a = choose|a: int| 0 <= a < r.0@.len() && r.0@[a] == y;
                    assert(f(s[a]));
                    lemma_pos_at(self.ents@, s[a]);
                }
                if self.parent_of(y) == Some(x) {
                    let j = pos(self.ents@, y);
                    assert(f(j));
                    assert(s.contains(j));
                    let a = choose|a: int| 0 <= a < s.len() && s[a] == j;
                    assert(r.0@[a] == y);
                }
            }
        }
        r.0
    }

    /// The entities that are a parent of some listed entity but have no parent
    /// themselves, each once, in listing order of their first child.
    pub fn roots(&self) -> (r: Vec<u64>)
        requires
            self.wf(),
        ensures
            r@ == roots_in(self.entities(), self.parents(), self.parents().len() as int),
            r@.no_duplicates(),
            forall|y: u64| r@.contains(y) <==> (self.parents().contains(y) && !self.entities().contains(y)),
    {
        let mut r: Vec<u64> = Vec::new();
        let mut i: usize = 0;
        while i < self.pars.len()
            invariant
                self.wf(),
                i <= self.pars.len(),
                r@ == roots_in(self.ents@, self.pars@, i as int),
                r@.no_duplicates(),
                forall|y: u64|
                    r@.contains(y) <==> (self.pars@.subrange(0, i as int).contains(y) && !self.ents@.contains(y)),
            decreases self.pars.len() - i,
        {
            let y = self.pars[i];
            let listed = find(&self.ents, y).is_some();
            let seen = find(&r, y).is_some();
            let ghost r0 = r@;
            let ghost s0 = self.pars@.subrange(0, i as int);
            let ghost s1 = self.pars@.subrange(0, i + 1);
            proof {
                assert(s1 == s0.push(y));
            }
            if !listed && !seen {
                r.push(y);
                proof {
                    assert forall|z: u64| r@.contains(z) <==> (s1.contains(z) && !self.ents@.contains(z)) by {
                        if r@.contains(z) && z != y {
                            let a = choose|a: int| 0 <= a < r@.len() && r@[a] == z;
                            assert(r0[a] == z);
                        }
                        if s1.contains(z) && z != y {
                            let a = choose|a: int| 0 <= a < s1.len() && s1[a] == z;
                            assert(s0[a] == z);
                        }
                        if r0.contains(z) {
                            let a = choose|a: int| 0 <= a < r0.len() && r0[a] == z;
                            assert(r@[a] == z);
                        }
                        if s0.contains(z) {
                            let a = choose|a: int| 0 <= a < s0.len() && s0[a] == z;
                            assert(s1[a] == z);
                        }
                        assert(r@[r0.len() as int] == y);
                        assert(s1[i as int] == y);
                    }
                }
            } else {
                proof {
                    assert forall|z: u64| r@.contains(z) <==> (s1.contains(z) && !self.ents@.contains(z)) by {
                        if s1.contains(z) && z != y {
                            let a = choose|a: int| 0 <= a < s1.len() && s1[a] == z;
                            assert(s0[a] == z);
                        }
                        if s0.contains(z) {
                            let a = choose|a: int| 0 <= a < s0.len() && s0[a] == z;
                            assert(s1[a] == z);
                        }
                        assert(s1[i as int] == y);
                    }
                }
            }
            i += 1;
        }
        proof {
            assert(self.pars@.subrange(0, self.pars@.len() as int) =~= self.pars@);
        }
        r
    }

    /// Takes in what happened to the parent components since the last update
    /// and reports what changed. Removals come first: each listed entity that
    /// lost its parent component or left the world leaves the hierarchy, and so
    /// does every entity below it, as does every entity below a root that left
    /// the world. Then each insertion, then each change, gives an
    /// entity its parent; the entity and its descendants move behind the other
    /// entities, and a link that would make an entity its own ancestor is not
    /// made. Each entity that left is reported `Removed`; then each entity whose
    /// parent, or some ancestor's parent, changed is reported
    /// `ModifiedOrCreated`, in listing order.
    pub fn update(&mut self, events: &Vec<HierarchyInput>) -> (emitted: Vec<HierarchyEvent>)
        requires
            old(self).wf(),
        ensures
            final(self).wf(),
            final(self).entities() == after_update(old(self).entities(), old(self).parents(), events@).0,
            final(self).parents() == after_update(old(self).entities(), old(self).parents(), events@).1,
            emitted@ == update_events(old(self).entities(), old(self).parents(), events@),
    {
        let ghost e = self.ents@;
        let ghost p = self.pars@;
        let (removed, roots_gone) = removed_list(&self.ents, events);
        let f = tree_flags(&self.ents, &self.pars, &removed);
        let ghost r = removed@;
        let ghost ft = |i: int| in_tree(e, p, r, i);
        let mut gone: Vec<u64> = Vec::new();
        let mut keep: Vec<bool> = Vec::new();
        let mut i: usize = 0;
        while i < f.len()
            invariant
                f.len() == e.len(),
                self.ents@ == e,
                i <= f.len(),
                keep.len() == i,
                forall|j: int| 0 <= j < i ==> #[trigger] keep@[j] == !f@[j],
                forall|j: int| 0 <= j < e.len() ==> f@[j] == in_tree(e, p, r, j),
                ft == (|i: int| in_tree(e, p, r, i)),
                gone@ == pick(e, select(i as int, ft)),
            decreases f.len() - i,
        {
            let fi = f[i];
            let ghost k0 = keep@;
            keep.push(!fi);
            assert forall|j: int| 0 <= j < i + 1 implies #[trigger] keep@[j] == !f@[j] by {
                if j < i {
                    assert(keep@[j] == k0[j]);
                }
            }
            let ghost s = select(i as int, ft);
            if fi {
                gone.push(self.ents[i]);
                assert(select(i + 1, ft) == s.push(i as int));
                assert(gone@ =~= pick(e, select(i + 1, ft)));
            } else {
                assert(select(i + 1, ft) == s);
            }
            i += 1;
        }
        let ghost rg = roots_gone@;
        let mut k: usize = 0;
        while k < roots_gone.len()
            invariant
                self.ents@ == e,
                self.pars@ == p,
                roots_gone@ == rg,
                k <= roots_gone.len(),
                gone@ == pick(e, tree_idx(e, p, r)) + dead_roots(e, p, rg.take(k as int)),
            decreases roots_gone.len() - k,
        {
            let x = roots_gone[k];
            proof {
                assert(rg.take(k + 1).drop_last() == rg.take(k as int));
                assert(rg.take(k + 1).last() == x);
                assert(rg.take(k as int) == roots_gone@.subrange(0, k as int));
            }
            let listed = find(&self.ents, x).is_some();
            let parent = find(&self.pars, x).is_some();
            let before = occurs_before(&roots_gone, k, x);
            if !listed && parent && !before {
                gone.push(x);
            }
            k += 1;
        }
        proof {
            assert(rg.take(rg.len() as int) == rg);
        }
        let mut out: Vec<HierarchyEvent> = Vec::new();
        let mut g: usize = 0;
        while g < gone.len()
            invariant
                g <= gone.len(),
                out@ == removed_events(gone@.take(g as int)),
            decreases gone.len() - g,
        {
            out.push(HierarchyEvent::Removed(gone[g]));
            proof {
                assert(removed_events(gone@.take(g + 1)) =~= removed_events(gone@.take(g as int)).push(
                    HierarchyEvent::Removed(gone@[g as int]),
                ));
            }
            g += 1;
        }
        proof {
            assert(gone@.take(gone@.len() as int) == gone@);
        }
        let (ne, np) = pick_where(&self.ents, &self.pars, &keep);
        proof {
            lemma_select_ext(e.len() as int, |i: int| keep@[i], |i: int| !in_tree(e, p, r, i));
            lemma_select(e.len() as int, |i: int| !in_tree(e, p, r, i));
            lemma_pick_ok(e, p, kept_idx(e, p, r));
        }
        self.ents = ne;
        self.pars = np;
        let links = link_list(events);
        let ghost m = after_removal(e, p, events@);
        let mut changed: Vec<u64> = Vec::new();
        let mut l: usize = 0;
        while l < links.len()
            invariant
                self.wf(),
                l <= links.len(),
                links@ == links_of(events@),
                (self.ents@, self.pars@, changed@) == apply_links(m.0, m.1, links@.take(l as int)),
            decreases links.len() - l,
        {
            let (x, q) = links[l];
            proof {
                assert(links@.take(l + 1).drop_last() == links@.take(l as int));
                assert(links@.take(l + 1).last() == (x, q));
            }
            if self.link(x, q) {
                changed.push(x);
            }
            l += 1;
        }
        proof {
            assert(links@.take(links@.len() as int) == links@);
        }
        let f2 = tree_flags(&self.ents, &self.pars, &changed);
        let ghost e2 = self.ents@;
        let ghost p2 = self.pars@;
        let ghost c = changed@;
        let ghost ft2 = |i: int| in_tree(e2, p2, c, i);
        let ghost out0 = out@;
        let mut i: usize = 0;
        while i < f2.len()
            invariant
                f2.len() == e2.len(),
                self.ents@ == e2,
                i <= f2.len(),
                forall|j: int| 0 <= j < e2.len() ==> f2@[j] == in_tree(e2, p2, c, j),
                ft2 == (|i: int| in_tree(e2, p2, c, i)),
                out@ == out0 + changed_events(pick(e2, select(i as int, ft2))),
            decreases f2.len() - i,
        {
            let ghost s = select(i as int, ft2);
            if f2[i] {
                out.push(HierarchyEvent::ModifiedOrCreated(self.ents[i]));
                assert(select(i + 1, ft2) == s.push(i as int));
                assert(out@ =~= out0 + changed_events(pick(e2, select(i + 1, ft2))));
            } else {
                assert(select(i + 1, ft2) == s);
            }
            i += 1;
        }
        out
    }

    /// Gives `x` the parent `q`. Returns whether that changed the hierarchy:
    /// nothing changes when `x` already has that parent, or when the link would
    /// make `x` its own ancestor.
    fn link(&mut self, x: u64, q: u64) -> (ok: bool)
        requires
            old(self).wf(),
        ensures
            final(self).wf(),
            ok == moves(old(self).entities(), old(self).parents(), x, q),
            final(self).entities() == linked_ents(old(self).entities(), old(self).parents(), x, q),
            final(self).parents() == linked_pars(old(self).entities(), old(self).parents(), x, q),
    {
        let ghost e = self.ents@;
        let ghost p = self.pars@;
        proof {
            lemma_pos(e, x);
            lemma_pos(e, q);
        }
        match find(&self.ents, x) {
            Some(i) => {
                proof {
                    lemma_pos_at(e, i as int);
                }
                if self.pars[i] == q {
                    return false;
                }
            },
            None => {},
        }
        if q == x {
            return false;
        }
        let xs = vec![x];
        let f = tree_flags(&self.ents, &self.pars, &xs);
        proof {
            assert(xs@ == seq![x]);
        }
        match find(&self.ents, q) {
            Some(j) => {
                proof {
                    lemma_pos_at(e, j as int);
                }
                if f[j] {
                    return false;
                }
            },
            None => {},
        }
        assert(moves(e, p, x, q));
        let mut keep: Vec<bool> = Vec::new();
        let mut below: Vec<bool> = Vec::new();
        let mut i: usize = 0;
        while i < f.len()
            invariant
                f.len() == e.len(),
                self.ents@ == e,
                i <= f.len(),
                keep.len() == i,
                below.len() == i,
                forall|j: int| 0 <= j < i ==> keep@[j] == !f@[j],
                forall|j: int| 0 <= j < i ==> #[trigger] below@[j] == (f@[j] && e[j] != x),
            decreases f.len() - i,
        {
            let ent = self.ents[i];
            let fi = f[i];
            let ghost b0 = below@;
            keep.push(!fi);
            below.push(fi && ent != x);
            assert forall|j: int| 0 <= j < i + 1 implies #[trigger] below@[j] == (f@[j] && e[j] != x) by {
                if j < i {
                    assert(below@[j] == b0[j]);
                }
            }
            i += 1;
        }
        let (mut ne, mut np) = pick_where(&self.ents, &self.pars, &keep);
        let (mut de, mut dp) = pick_where(&self.ents, &self.pars, &below);
        proof {
            lemma_select_ext(e.len() as int, |i: int| keep@[i], |i: int| !in_tree(e, p, seq![x], i));
            lemma_select_ext(e.len() as int, |i: int| below@[i], |i: int| below_at(e, p, x, i));
        }
        ne.push(x);
        np.push(q);
        ne.append(&mut de);
        np.append(&mut dp);
        proof {
            lemma_link_ok(e, p, x, q);
            assert(ne@ == pick(e, kept_idx(e, p, seq![x])) + seq![x] + pick(e, below_idx(e, p, x)));
            assert(np@ == pick(p, kept_idx(e, p, seq![x])) + seq![q] + pick(p, below_idx(e, p, x)));
        }
        self.ents = ne;
        self.pars = np;
        true
    }
}

} // verus!
