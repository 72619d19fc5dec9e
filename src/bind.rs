//! Typed data bindings: when a source component is written, handlers carry
//! its new value into other components.
use vstd::prelude::*;

use crate::Entity;

verus! {

/// A component value on an entity, with the host's change flag: set during a
/// frame in which the value was written.
pub struct Source<T> {
    pub entity: Entity,
    pub value: T,
    pub changed: bool,
}

impl<T> Source<T> {
    /// A component just attached to `entity`; attaching counts as a write.
    pub fn new(entity: Entity, value: T) -> (r: Self)
        ensures
            r.entity == entity,
            r.value == value,
            r.changed,
    {
        Source { entity, value, changed: true }
    }

    /// Writes a new value, which marks the component changed this frame.
    pub fn set(&mut self, value: T)
        ensures
            final(self).entity == old(self).entity,
            final(self).value == value,
            final(self).changed,
    {
        self.value = value;
        self.changed = true;
    }

    /// Ends the frame: the change flag is cleared.
    pub fn end_frame(&mut self)
        ensures
            final(self).entity == old(self).entity,
            final(self).value == old(self).value,
            !final(self).changed,
    {
        self.changed = false;
    }
}

/// The component after a handler returned `r`: `None` leaves it untouched,
/// `Some(v)` writes `v`.
pub open spec fn written<T>(t: Source<T>, r: Option<T>) -> Source<T> {
    match r {
        Some(v) => Source { entity: t.entity, value: v, changed: true },
        None => t,
    }
}

/// The handler can be called on any source and target value.
pub open spec fn total<S, T, H: Fn(&S, &T) -> Option<T>>(h: H) -> bool {
    forall|s: &S, t: &T| #[trigger] call_requires(h, (s, t))
}

/// The handler can be called on any value.
pub open spec fn total_notify<S, F: Fn(&S)>(f: F) -> bool {
    forall|s: &S| #[trigger] call_requires(f, (s,))
}

/// Calls `h` on the source value and the target's current value, and writes
/// what it returns, if anything.
pub fn apply_binding<S, T, H: Fn(&S, &T) -> Option<T>>(h: &H, s: &S, t: &mut Source<T>)
    requires
        total(*h),
    ensures
        exists|r: Option<T>| call_ensures(*h, (s, &old(t).value), r) && *final(t) == written(*old(t), r),
{
    let r = h(s, &t.value);
    let ghost r0 = r;
    match r {
        Some(v) => {
            t.value = v;
            t.changed = true;
        },
        None => {},
    }
    assert(*t == written(*old(t), r0));
}

/// The index of the first component of entity `e`, if there is one.
pub fn find_source<T>(ts: &Vec<Source<T>>, e: Entity) -> (r: Option<usize>)
    ensures
        r matches Some(k) ==> k < ts@.len() && ts@[k as int].entity == e
            && forall|q: int| 0 <= q < k ==> ts@[q].entity != e,
        r is None ==> forall|q: int| 0 <= q < ts@.len() ==> ts@[q].entity != e,
{
    let mut i: usize = 0;
    while i < ts.len()
        invariant
            i <= ts@.len(),
            forall|q: int| 0 <= q < i ==> ts@[q].entity != e,
        decreases ts@.len() - i,
    {
        if ts[i].entity == e {
            return Some(i);
        }
        i = i + 1;
    }
    None
}

/// One handler call made by a binding system: the source (or event) it read,
/// the relation whose handler ran, and the target component it was given.
#[derive(Clone, Copy, Debug, PartialEq, Eq, Structural)]
pub struct Invocation {
    pub source: usize,
    pub relation: usize,
    pub target: usize,
}

/// Calls are made source by source, and for one source relation by relation.
pub open spec fn in_order(log: Seq<Invocation>) -> bool {
    forall|m1: int, m2: int|
        0 <= m1 < m2 < log.len() ==> (#[trigger] log[m1]).source < (#[trigger] log[m2]).source
            || (log[m1].source == log[m2].source && log[m1].relation < log[m2].relation)
}

/// `k` is the first component of entity `e`.
pub open spec fn first_of<T>(ts: Seq<Source<T>>, e: Entity, k: int) -> bool {
    &&& 0 <= k < ts.len()
    &&& ts[k].entity == e
    &&& forall|q: int| 0 <= q < k ==> ts[q].entity != e
}

pub open spec fn has_entity<T>(ts: Seq<Source<T>>, e: Entity) -> bool {
    exists|k: int| 0 <= k < ts.len() && ts[k].entity == e
}

/// No call was given target `k`.
pub open spec fn untouched(log: Seq<Invocation>, k: int) -> bool {
    forall|m: int| 0 <= m < log.len() ==> (#[trigger] log[m]).target != k
}

/// Call `m` is the only one that was given target `k`.
pub open spec fn hit_once(log: Seq<Invocation>, k: int, m: int) -> bool {
    &&& 0 <= m < log.len()
    &&& log[m].target == k
    &&& forall|m2: int| 0 <= m2 < log.len() && (#[trigger] log[m2]).target == k ==> m2 == m
}

/// A relation on a source entity that pushes the source's value into the
/// component of entity `target`.
pub struct BindToTargetItem<H> {
    pub target: Entity,
    pub handler: H,
}

/// The push relations of one source entity, in the order they run.
pub struct BindToTarget<H>(pub Vec<BindToTargetItem<H>>);

/// The calls that a push pass makes: for each written source, in order, each
/// of its relations whose target exists, in order, given the first component
/// of that target entity; nothing else.
pub open spec fn push_log<S, T, H>(
    srcs: Seq<(Source<S>, BindToTarget<H>)>,
    ts: Seq<Source<T>>,
    log: Seq<Invocation>,
) -> bool {
    &&& in_order(log)
    &&& forall|m: int| 0 <= m < log.len() ==> {
        let inv = #[trigger] log[m];
        &&& inv.source < srcs.len()
        &&& srcs[inv.source as int].0.changed
        &&& inv.relation < srcs[inv.source as int].1.0@.len()
        &&& first_of(ts, srcs[inv.source as int].1.0@[inv.relation as int].target, inv.target as int)
    }
    &&& forall|i: int, j: int|
        0 <= i < srcs.len() && srcs[i].0.changed && 0 <= j < srcs[i].1.0@.len()
            && has_entity(ts, #[trigger] srcs[i].1.0@[j].target)
            ==> exists|m: int| 0 <= m < log.len() && (#[trigger] log[m]).source == i && log[m].relation == j
}

/// The handler of the push relation that call `inv` ran.
pub open spec fn push_handler<S, H>(srcs: Seq<(Source<S>, BindToTarget<H>)>, inv: Invocation) -> H {
    srcs[inv.source as int].1.0@[inv.relation as int].handler
}

/// The component of target `k` after the first `n` calls of `log`, call `m`
/// having returned `results[m]`: each call given `k` writes what it returned,
/// if anything, in log order.
pub open spec fn fold_target<T>(t0: Source<T>, log: Seq<Invocation>, results: Seq<Option<T>>, k: int, n: int) -> Source<T>
    decreases n,
{
    if n <= 0 {
        t0
    } else {
        let prev = fold_target(t0, log, results, k, n - 1);
        if log[n - 1].target == k {
            written(prev, results[n - 1])
        } else {
            prev
        }
    }
}

proof fn lemma_fold_push<T>(
    t0: Source<T>,
    log: Seq<Invocation>,
    results: Seq<Option<T>>,
    inv: Invocation,
    r: Option<T>,
    k: int,
    n: int,
)
    requires
        0 <= n <= log.len(),
        results.len() == log.len(),
    ensures
        fold_target(t0, log.push(inv), results.push(r), k, n) == fold_target(t0, log, results, k, n),
    decreases n,
{
    if n > 0 {
        lemma_fold_push(t0, log, results, inv, r, k, n - 1);
        assert(log.push(inv)[n - 1] == log[n - 1]);
        assert(results.push(r)[n - 1] == results[n - 1]);
    }
}

/// Proves the fold facts after a call `inv` on target `k` returned `r`.
proof fn lemma_fold_step<T>(
    t0s: Seq<Source<T>>,
    tb: Seq<Source<T>>,
    ts: Seq<Source<T>>,
    log: Seq<Invocation>,
    results: Seq<Option<T>>,
    inv: Invocation,
    r: Option<T>,
)
    requires
        results.len() == log.len(),
        tb.len() == t0s.len(),
        ts.len() == t0s.len(),
        0 <= inv.target < t0s.len(),
        forall|q: int| 0 <= q < t0s.len() ==> #[trigger] tb[q] == fold_target(t0s[q], log, results, q, log.len() as int),
        ts[inv.target as int] == written(tb[inv.target as int], r),
        forall|q: int| 0 <= q < t0s.len() && q != inv.target ==> #[trigger] ts[q] == tb[q],
    ensures
        forall|q: int| 0 <= q < t0s.len()
            ==> #[trigger] ts[q] == fold_target(t0s[q], log.push(inv), results.push(r), q, log.len() + 1 as int),
        forall|q: int, n: int| 0 <= q < t0s.len() && 0 <= n <= log.len()
            ==> #[trigger] fold_target(t0s[q], log.push(inv), results.push(r), q, n) == fold_target(t0s[q], log, results, q, n),
{
    assert forall|q: int, n: int| 0 <= q < t0s.len() && 0 <= n <= log.len()
        implies #[trigger] fold_target(t0s[q], log.push(inv), results.push(r), q, n) == fold_target(t0s[q], log, results, q, n) by {
        lemma_fold_push(t0s[q], log, results, inv, r, q, n);
    }
    assert forall|q: int| 0 <= q < t0s.len()
        implies #[trigger] ts[q] == fold_target(t0s[q], log.push(inv), results.push(r), q, log.len() + 1 as int) by {
        lemma_fold_push(t0s[q], log, results, inv, r, q, log.len() as int);
        assert(log.push(inv)[log.len() as int] == inv);
        assert(results.push(r)[log.len() as int] == r);
    }
}

/// The targets of a push pass end as its calls, in log order, left them,
/// each call having been given the target's value at that point.
pub open spec fn push_folds<S, T, H: Fn(&S, &T) -> Option<T>>(
    srcs: Seq<(Source<S>, BindToTarget<H>)>,
    t0s: Seq<Source<T>>,
    ts: Seq<Source<T>>,
    log: Seq<Invocation>,
    results: Seq<Option<T>>,
) -> bool {
    &&& results.len() == log.len()
    &&& ts.len() == t0s.len()
    &&& forall|m: int| #![trigger log[m]] 0 <= m < log.len() ==> call_ensures(
        push_handler(srcs, log[m]),
        (&srcs[log[m].source as int].0.value, &fold_target(t0s[log[m].target as int], log, results, log[m].target as int, m).value),
        results[m],
    )
    &&& forall|k: int| 0 <= k < ts.len() ==> #[trigger] ts[k] == fold_target(t0s[k], log, results, k, log.len() as int)
}

/// Pushes each written source's value into its targets: each relation's
/// handler gets the source value and the target's current value, and what it
/// returns, if anything, is written.
pub fn bind_to_target_system<S, T, H: Fn(&S, &T) -> Option<T>>(
    srcs: &Vec<(Source<S>, BindToTarget<H>)>,
    targets: &mut Vec<Source<T>>,
) -> (log: Vec<Invocation>)
    requires
        forall|i: int, j: int| 0 <= i < srcs@.len() && 0 <= j < srcs@[i].1.0@.len()
            ==> total(#[trigger] srcs@[i].1.0@[j].handler),
    ensures
        push_log(srcs@, old(targets)@, log@),
        final(targets)@.len() == old(targets)@.len(),
        forall|k: int| 0 <= k < old(targets)@.len() ==> (#[trigger] final(targets)@[k]).entity == old(targets)@[k].entity,
        forall|k: int| 0 <= k < old(targets)@.len() && untouched(log@, k) ==> #[trigger] final(targets)@[k] == old(targets)@[k],
        forall|k: int, m: int| 0 <= k < old(targets)@.len() && #[trigger] hit_once(log@, k, m) ==> exists|r: Option<T>|
            call_ensures(push_handler(srcs@, log@[m]), (&srcs@[log@[m].source as int].0.value, &old(targets)@[k].value), r)
                && final(targets)@[k] == written(old(targets)@[k], r),
        exists|results: Seq<Option<T>>| push_folds(srcs@, old(targets)@, final(targets)@, log@, results),
{
    let ghost t0 = targets@;
    let ghost mut results: Seq<Option<T>> = Seq::empty();
    let mut log: Vec<Invocation> = Vec::new();
    let mut i: usize = 0;
    while i < srcs.len()
        invariant
            i <= srcs@.len(),
            forall|i: int, j: int| 0 <= i < srcs@.len() && 0 <= j < srcs@[i].1.0@.len()
                ==> total(#[trigger] srcs@[i].1.0@[j].handler),
            in_order(log@),
            forall|m: int| 0 <= m < log@.len() ==> (#[trigger] log@[m]).source < i,
            forall|m: int| 0 <= m < log@.len() ==> {
                let inv = #[trigger] log@[m];
                &&& inv.source < srcs@.len()
                &&& srcs@[inv.source as int].0.changed
                &&& inv.relation < srcs@[inv.source as int].1.0@.len()
                &&& first_of(t0, srcs@[inv.source as int].1.0@[inv.relation as int].target, inv.target as int)
            },
            forall|a: int, j: int|
                0 <= a < i && srcs@[a].0.changed && 0 <= j < srcs@[a].1.0@.len()
                    && has_entity(t0, #[trigger] srcs@[a].1.0@[j].target)
                    ==> exists|m: int| 0 <= m < log@.len() && (#[trigger] log@[m]).source == a && log@[m].relation == j,
            targets@.len() == t0.len(),
            push_folds(srcs@, t0, targets@, log@, results),
            forall|k: int| 0 <= k < t0.len() ==> (#[trigger] targets@[k]).entity == t0[k].entity,
            forall|k: int| 0 <= k < t0.len() && untouched(log@, k) ==> #[trigger] targets@[k] == t0[k],
            forall|k: int, m: int| 0 <= k < t0.len() && #[trigger] hit_once(log@, k, m) ==> exists|r: Option<T>|
                call_ensures(push_handler(srcs@, log@[m]), (&srcs@[log@[m].source as int].0.value, &t0[k].value), r)
                    && targets@[k] == written(t0[k], r),
        decreases srcs@.len() - i,
    {
        if srcs[i].0.changed {
            let items = &srcs[i].1.0;
            let mut j: usize = 0;
            while j < items.len()
                invariant
                    i < srcs@.len(),
                    srcs@[i as int].0.changed,
                    *items == srcs@[i as int].1.0,
                    j <= items@.len(),
                    forall|i: int, j: int| 0 <= i < srcs@.len() && 0 <= j < srcs@[i].1.0@.len()
                        ==> total(#[trigger] srcs@[i].1.0@[j].handler),
                    in_order(log@),
                    forall|m: int| 0 <= m < log@.len() ==> (#[trigger] log@[m]).source < i
                        || (log@[m].source == i && log@[m].relation < j),
                    forall|m: int| 0 <= m < log@.len() ==> {
                        let inv = #[trigger] log@[m];
                        &&& inv.source < srcs@.len()
                        &&& srcs@[inv.source as int].0.changed
                        &&& inv.relation < srcs@[inv.source as int].1.0@.len()
                        &&& first_of(t0, srcs@[inv.source as int].1.0@[inv.relation as int].target, inv.target as int)
                    },
                    forall|a: int, b: int|
                        ((0 <= a < i) || (a == i && b < j)) && srcs@[a].0.changed && 0 <= b < srcs@[a].1.0@.len()
                            && has_entity(t0, #[trigger] srcs@[a].1.0@[b].target)
                            ==> exists|m: int| 0 <= m < log@.len() && (#[trigger] log@[m]).source == a && log@[m].relation == b,
                    targets@.len() == t0.len(),
                    push_folds(srcs@, t0, targets@, log@, results),
                    forall|k: int| 0 <= k < t0.len() ==> (#[trigger] targets@[k]).entity == t0[k].entity,
                    forall|k: int| 0 <= k < t0.len() && untouched(log@, k) ==> #[trigger] targets@[k] == t0[k],
                    forall|k: int, m: int| 0 <= k < t0.len() && #[trigger] hit_once(log@, k, m) ==> exists|r: Option<T>|
                        call_ensures(push_handler(srcs@, log@[m]), (&srcs@[log@[m].source as int].0.value, &t0[k].value), r)
                            && targets@[k] == written(t0[k], r),
                decreases items@.len() - j,
            {
                let ghost tb = targets@;
                let ghost lb = log@;
                if let Some(k) = find_source(targets, items[j].target) {
                    let inv = Invocation { source: i, relation: j, target: k };
                    proof {
                        assert forall|q: int| 0 <= q < k implies t0[q].entity != items@[j as int].target by {
                            assert(targets@[q].entity == t0[q].entity);
                        }
                        assert(targets@[k as int].entity == t0[k as int].entity);
                    }
                    apply_binding(&items[j].handler, &srcs[i].0.value, &mut targets[k]);
                    log.push(inv);
                    proof {
                        let r = choose|r: Option<T>| call_ensures(items@[j as int].handler, (&srcs@[i as int].0.value, &tb[k as int].value), r)
                            && targets@[k as int] == written(tb[k as int], r);
                        lemma_fold_step(t0, tb, targets@, lb, results, inv, r);
                        assert(log@ == lb.push(inv));
                        let rs = results.push(r);
                        assert forall|m: int| #![trigger log@[m]] 0 <= m < log@.len() implies call_ensures(
                            push_handler(srcs@, log@[m]),
                            (&srcs@[log@[m].source as int].0.value, &fold_target(t0[log@[m].target as int], log@, rs, log@[m].target as int, m).value),
                            rs[m],
                        ) by {
                            if m < lb.len() {
                                assert(log@[m] == lb[m]);
                                assert(rs[m] == results[m]);
                            } else {
                                assert(log@[m] == inv);
                                assert(rs[m] == r);
                                assert(push_handler(srcs@, inv) == items@[j as int].handler);
                            }
                        }
                        results = rs;
                    }
                    proof {
                        let m_new = lb.len() as int;
                        assert(log@[m_new] == inv);
                        assert forall|m1: int, m2: int| 0 <= m1 < m2 < log@.len() implies
                            (#[trigger] log@[m1]).source < (#[trigger] log@[m2]).source
                            || (log@[m1].source == log@[m2].source && log@[m1].relation < log@[m2].relation) by {
                            if m2 < m_new {
                                assert(log@[m1] == lb[m1] && log@[m2] == lb[m2]);
                            } else {
                                assert(log@[m1] == lb[m1]);
                            }
                        }
                        assert forall|kk: int| 0 <= kk < t0.len() && untouched(log@, kk)
                            implies #[trigger] targets@[kk] == t0[kk] by {
                            assert(log@[m_new].target != kk);
                            assert forall|m: int| 0 <= m < lb.len() implies (#[trigger] lb[m]).target != kk by {
                                assert(log@[m] == lb[m]);
                            }
                        }
                        assert forall|kk: int, m: int| 0 <= kk < t0.len() && #[trigger] hit_once(log@, kk, m)
                            implies exists|r: Option<T>|
                                call_ensures(push_handler(srcs@, log@[m]), (&srcs@[log@[m].source as int].0.value, &t0[kk].value), r)
                                    && targets@[kk] == written(t0[kk], r) by {
                            if kk == k {
                                assert(m == m_new);
                                assert forall|m2: int| 0 <= m2 < lb.len() implies (#[trigger] lb[m2]).target != kk by {
                                    assert(log@[m2] == lb[m2]);
                                }
                                assert(untouched(lb, kk));
                                assert(tb[kk] == t0[kk]);
                            } else {
                                assert(m < m_new);
                                assert(log@[m] == lb[m]);
                                assert forall|m2: int| 0 <= m2 < lb.len() && (#[trigger] lb[m2]).target == kk implies m2 == m by {
                                    assert(log@[m2] == lb[m2]);
                                }
                                assert(hit_once(lb, kk, m));
                            }
                        }
                        assert forall|a: int, b: int|
                            ((0 <= a < i) || (a == i && b < j + 1)) && srcs@[a].0.changed && 0 <= b < srcs@[a].1.0@.len()
                                && has_entity(t0, #[trigger] srcs@[a].1.0@[b].target)
                                implies exists|m: int| 0 <= m < log@.len() && (#[trigger] log@[m]).source == a
                                    && log@[m].relation == b by {
                            if a == i && b == j {
                                assert(log@[m_new].source == a);
                            } else {
                                let m = choose|m: int| 0 <= m < lb.len() && (#[trigger] lb[m]).source == a && lb[m].relation == b;
                                assert(log@[m] == lb[m]);
                            }
                        }
                    }
                } else {
                    proof {
                        assert forall|a: int, b: int|
                            ((0 <= a < i) || (a == i && b < j + 1)) && srcs@[a].0.changed && 0 <= b < srcs@[a].1.0@.len()
                                && has_entity(t0, #[trigger] srcs@[a].1.0@[b].target)
                                implies exists|m: int| 0 <= m < log@.len() && (#[trigger] log@[m]).source == a
                                    && log@[m].relation == b by {
                            if a == i && b == j {
                                let q = choose|q: int| 0 <= q < t0.len() && t0[q].entity == srcs@[a].1.0@[b].target;
                                assert(targets@[q].entity == t0[q].entity);
                            }
                        }
                    }
                }
                j = j + 1;
            }
        } else {
            proof {
                assert forall|a: int, j: int|
                    0 <= a < i + 1 && srcs@[a].0.changed && 0 <= j < srcs@[a].1.0@.len()
                        && has_entity(t0, #[trigger] srcs@[a].1.0@[j].target)
                        implies exists|m: int| 0 <= m < log@.len() && (#[trigger] log@[m]).source == a && log@[m].relation == j by {
                }
            }
        }
        i = i + 1;
    }
    assert(push_folds(srcs@, t0, targets@, log@, results));
    log
}

/// A relation on a target entity that pulls the value of the component of
/// entity `source_entity` into the target's own component.
pub struct BindSource<H> {
    pub source_entity: Entity,
    pub handler: H,
}

/// The calls that a pull pass makes: for each written source, in order, each
/// pulling relation that names that source, in order; nothing else.
pub open spec fn pull_log<S, T, H>(
    srcs: Seq<Source<S>>,
    ts: Seq<(BindSource<H>, Source<T>)>,
    log: Seq<Invocation>,
) -> bool {
    &&& in_order(log)
    &&& forall|m: int| 0 <= m < log.len() ==> {
        let inv = #[trigger] log[m];
        &&& inv.source < srcs.len()
        &&& srcs[inv.source as int].changed
        &&& inv.relation < ts.len()
        &&& inv.target == inv.relation
        &&& ts[inv.relation as int].0.source_entity == srcs[inv.source as int].entity
    }
    &&& forall|i: int, l: int|
        0 <= i < srcs.len() && srcs[i].changed && 0 <= l < ts.len()
            && (#[trigger] ts[l]).0.source_entity == (#[trigger] srcs[i]).entity
            ==> exists|m: int| 0 <= m < log.len() && (#[trigger] log[m]).source == i && log[m].relation == l
}

proof fn lemma_fold_step_pairs<X, T>(
    t0s: Seq<(X, Source<T>)>,
    tb: Seq<(X, Source<T>)>,
    ts: Seq<(X, Source<T>)>,
    log: Seq<Invocation>,
    results: Seq<Option<T>>,
    inv: Invocation,
    r: Option<T>,
)
    requires
        results.len() == log.len(),
        tb.len() == t0s.len(),
        ts.len() == t0s.len(),
        0 <= inv.target < t0s.len(),
        forall|q: int| 0 <= q < t0s.len() ==> (#[trigger] tb[q]).1 == fold_target(t0s[q].1, log, results, q, log.len() as int),
        ts[inv.target as int].1 == written(tb[inv.target as int].1, r),
        forall|q: int| 0 <= q < t0s.len() && q != inv.target ==> #[trigger] ts[q] == tb[q],
    ensures
        forall|q: int| 0 <= q < t0s.len()
            ==> (#[trigger] ts[q]).1 == fold_target(t0s[q].1, log.push(inv), results.push(r), q, log.len() + 1 as int),
        forall|q: int, n: int| 0 <= q < t0s.len() && 0 <= n <= log.len()
            ==> #[trigger] fold_target(t0s[q].1, log.push(inv), results.push(r), q, n) == fold_target(t0s[q].1, log, results, q, n),
{
    assert forall|q: int, n: int| 0 <= q < t0s.len() && 0 <= n <= log.len()
        implies #[trigger] fold_target(t0s[q].1, log.push(inv), results.push(r), q, n) == fold_target(t0s[q].1, log, results, q, n) by {
        lemma_fold_push(t0s[q].1, log, results, inv, r, q, n);
    }
    assert forall|q: int| 0 <= q < t0s.len()
        implies (#[trigger] ts[q]).1 == fold_target(t0s[q].1, log.push(inv), results.push(r), q, log.len() + 1 as int) by {
        lemma_fold_push(t0s[q].1, log, results, inv, r, q, log.len() as int);
        assert(log.push(inv)[log.len() as int] == inv);
        assert(results.push(r)[log.len() as int] == r);
    }
}

/// The components of a pull pass end as its calls, in log order, left them,
/// each call having been given the component's value at that point.
pub open spec fn pull_folds<S, T, H: Fn(&S, &T) -> Option<T>>(
    srcs: Seq<Source<S>>,
    t0s: Seq<(BindSource<H>, Source<T>)>,
    ts: Seq<(BindSource<H>, Source<T>)>,
    log: Seq<Invocation>,
    results: Seq<Option<T>>,
) -> bool {
    &&& results.len() == log.len()
    &&& ts.len() == t0s.len()
    &&& forall|m: int| #![trigger log[m]] 0 <= m < log.len() ==> call_ensures(
        t0s[log[m].relation as int].0.handler,
        (&srcs[log[m].source as int].value, &fold_target(t0s[log[m].target as int].1, log, results, log[m].target as int, m).value),
        results[m],
    )
    &&& forall|k: int| 0 <= k < ts.len() ==> (#[trigger] ts[k]).1 == fold_target(t0s[k].1, log, results, k, log.len() as int)
}

/// Pulls each written source's value into the components that name it: each
/// relation's handler gets the source value and its own component's current
/// value, and what it returns, if anything, is written.
pub fn bind_source_system<S, T, H: Fn(&S, &T) -> Option<T>>(
    srcs: &Vec<Source<S>>,
    targets: &mut Vec<(BindSource<H>, Source<T>)>,
) -> (log: Vec<Invocation>)
    requires
        forall|l: int| 0 <= l < old(targets)@.len() ==> total(#[trigger] old(targets)@[l].0.handler),
    ensures
        pull_log(srcs@, old(targets)@, log@),
        final(targets)@.len() == old(targets)@.len(),
        forall|l: int| 0 <= l < old(targets)@.len() ==> (#[trigger] final(targets)@[l]).0 == old(targets)@[l].0
            && final(targets)@[l].1.entity == old(targets)@[l].1.entity,
        forall|l: int| 0 <= l < old(targets)@.len() && untouched(log@, l) ==> #[trigger] final(targets)@[l] == old(targets)@[l],
        forall|l: int, m: int| 0 <= l < old(targets)@.len() && #[trigger] hit_once(log@, l, m) ==> exists|r: Option<T>|
            call_ensures(old(targets)@[l].0.handler, (&srcs@[log@[m].source as int].value, &old(targets)@[l].1.value), r)
                && final(targets)@[l].1 == written(old(targets)@[l].1, r),
        exists|results: Seq<Option<T>>| pull_folds(srcs@, old(targets)@, final(targets)@, log@, results),
{
    let ghost t0 = targets@;
    let ghost mut results: Seq<Option<T>> = Seq::empty();
    let mut log: Vec<Invocation> = Vec::new();
    let mut i: usize = 0;
    while i < srcs.len()
        invariant
            i <= srcs@.len(),
            in_order(log@),
            forall|m: int| 0 <= m < log@.len() ==> (#[trigger] log@[m]).source < i,
            forall|m: int| 0 <= m < log@.len() ==> {
                let inv = #[trigger] log@[m];
                &&& inv.source < srcs@.len()
                &&& srcs@[inv.source as int].changed
                &&& inv.relation < t0.len()
                &&& inv.target == inv.relation
                &&& t0[inv.relation as int].0.source_entity == srcs@[inv.source as int].entity
            },
            forall|a: int, l: int|
                0 <= a < i && srcs@[a].changed && 0 <= l < t0.len()
                    && (#[trigger] t0[l]).0.source_entity == (#[trigger] srcs@[a]).entity
                    ==> exists|m: int| 0 <= m < log@.len() && (#[trigger] log@[m]).source == a && log@[m].relation == l,
            targets@.len() == t0.len(),
            pull_folds(srcs@, t0, targets@, log@, results),
            forall|l: int| 0 <= l < t0.len() ==> (#[trigger] targets@[l]).0 == t0[l].0
                && targets@[l].1.entity == t0[l].1.entity,
            forall|l: int| 0 <= l < t0.len() ==> total(#[trigger] t0[l].0.handler),
            forall|l: int| 0 <= l < t0.len() && untouched(log@, l) ==> #[trigger] targets@[l] == t0[l],
            forall|l: int, m: int| 0 <= l < t0.len() && #[trigger] hit_once(log@, l, m) ==> exists|r: Option<T>|
                call_ensures(t0[l].0.handler, (&srcs@[log@[m].source as int].value, &t0[l].1.value), r)
                    && targets@[l].1 == written(t0[l].1, r),
        decreases srcs@.len() - i,
    {
        if srcs[i].changed {
            let e = srcs[i].entity;
            let mut l: usize = 0;
            while l < targets.len()
                invariant
                    i < srcs@.len(),
                    srcs@[i as int].changed,
                    e == srcs@[i as int].entity,
                    l <= targets@.len(),
                    in_order(log@),
                    forall|m: int| 0 <= m < log@.len() ==> (#[trigger] log@[m]).source < i
                        || (log@[m].source == i && log@[m].relation < l),
                    forall|m: int| 0 <= m < log@.len() ==> {
                        let inv = #[trigger] log@[m];
                        &&& inv.source < srcs@.len()
                        &&& srcs@[inv.source as int].changed
                        &&& inv.relation < t0.len()
                        &&& inv.target == inv.relation
                        &&& t0[inv.relation as int].0.source_entity == srcs@[inv.source as int].entity
                    },
                    forall|a: int, b: int|
                        ((0 <= a < i) || (a == i && b < l)) && srcs@[a].changed && 0 <= b < t0.len()
                            && (#[trigger] t0[b]).0.source_entity == (#[trigger] srcs@[a]).entity
                            ==> exists|m: int| 0 <= m < log@.len() && (#[trigger] log@[m]).source == a && log@[m].relation == b,
                    targets@.len() == t0.len(),
                    pull_folds(srcs@, t0, targets@, log@, results),
                    forall|q: int| 0 <= q < t0.len() ==> (#[trigger] targets@[q]).0 == t0[q].0
                        && targets@[q].1.entity == t0[q].1.entity,
                    forall|q: int| 0 <= q < t0.len() ==> total(#[trigger] t0[q].0.handler),
                    forall|q: int| 0 <= q < t0.len() && untouched(log@, q) ==> #[trigger] targets@[q] == t0[q],
                    forall|q: int, m: int| 0 <= q < t0.len() && #[trigger] hit_once(log@, q, m) ==> exists|r: Option<T>|
                        call_ensures(t0[q].0.handler, (&srcs@[log@[m].source as int].value, &t0[q].1.value), r)
                            && targets@[q].1 == written(t0[q].1, r),
                decreases t0.len() - l,
            {
                let ghost tb = targets@;
                let ghost lb = log@;
                if targets[l].0.source_entity == e {
                    let inv = Invocation { source: i, relation: l, target: l };
                    assert(targets@[l as int].0 == t0[l as int].0);
                    assert(total(t0[l as int].0.handler));
                    let entry = &mut targets[l];
                    apply_binding(&entry.0.handler, &srcs[i].value, &mut entry.1);
                    log.push(inv);
                    proof {
                        let r = choose|r: Option<T>| call_ensures(t0[l as int].0.handler, (&srcs@[i as int].value, &tb[l as int].1.value), r)
                            && targets@[l as int].1 == written(tb[l as int].1, r);
                        lemma_fold_step_pairs(t0, tb, targets@, lb, results, inv, r);
                        assert(log@ == lb.push(inv));
                        let rs = results.push(r);
                        assert forall|m: int| #![trigger log@[m]] 0 <= m < log@.len() implies call_ensures(
                            t0[log@[m].relation as int].0.handler,
                            (&srcs@[log@[m].source as int].value, &fold_target(t0[log@[m].target as int].1, log@, rs, log@[m].target as int, m).value),
                            rs[m],
                        ) by {
                            if m < lb.len() {
                                assert(log@[m] == lb[m]);
                                assert(rs[m] == results[m]);
                            } else {
                                assert(log@[m] == inv);
                                assert(rs[m] == r);
                            }
                        }
                        results = rs;
                    }
                    proof {
                        let m_new = lb.len() as int;
                        assert(log@[m_new] == inv);
                        assert forall|m1: int, m2: int| 0 <= m1 < m2 < log@.len() implies
                            (#[trigger] log@[m1]).source < (#[trigger] log@[m2]).source
                            || (log@[m1].source == log@[m2].source && log@[m1].relation < log@[m2].relation) by {
                            if m2 < m_new {
                                assert(log@[m1] == lb[m1] && log@[m2] == lb[m2]);
                            } else {
                                assert(log@[m1] == lb[m1]);
                            }
                        }
                        assert forall|q: int| 0 <= q < t0.len() && untouched(log@, q)
                            implies #[trigger] targets@[q] == t0[q] by {
                            assert(log@[m_new].target != q);
                            assert forall|m: int| 0 <= m < lb.len() implies (#[trigger] lb[m]).target != q by {
                                assert(log@[m] == lb[m]);
                            }
                        }
                        assert forall|q: int, m: int| 0 <= q < t0.len() && #[trigger] hit_once(log@, q, m)
                            implies exists|r: Option<T>|
                                call_ensures(t0[q].0.handler, (&srcs@[log@[m].source as int].value, &t0[q].1.value), r)
                                    && targets@[q].1 == written(t0[q].1, r) by {
                            if q == l {
                                assert(m == m_new);
                                assert forall|m2: int| 0 <= m2 < lb.len() implies (#[trigger] lb[m2]).target != q by {
                                    assert(log@[m2] == lb[m2]);
                                }
                                assert(untouched(lb, q));
                                assert(tb[q] == t0[q]);
                            } else {
                                assert(m < m_new);
                                assert(log@[m] == lb[m]);
                                assert forall|m2: int| 0 <= m2 < lb.len() && (#[trigger] lb[m2]).target == q implies m2 == m by {
                                    assert(log@[m2] == lb[m2]);
                                }
                                assert(hit_once(lb, q, m));
                            }
                        }
                        assert forall|a: int, b: int|
                            ((0 <= a < i) || (a == i && b < l + 1)) && srcs@[a].changed && 0 <= b < t0.len()
                                && (#[trigger] t0[b]).0.source_entity == (#[trigger] srcs@[a]).entity
                                implies exists|m: int| 0 <= m < log@.len() && (#[trigger] log@[m]).source == a
                                    && log@[m].relation == b by {
                            if a == i && b == l {
                                assert(log@[m_new].source == a);
                            } else {
                                let m = choose|m: int| 0 <= m < lb.len() && (#[trigger] lb[m]).source == a && lb[m].relation == b;
                                assert(log@[m] == lb[m]);
                            }
                        }
                    }
                } else {
                    assert(targets@[l as int].0 == t0[l as int].0);
                }
                l = l + 1;
            }
        }
        i = i + 1;
    }
    assert(pull_folds(srcs@, t0, targets@, log@, results));
    log
}

/// A handler that is told whenever the same entity's component is written.
pub struct OnSelfChange<F>(pub F);

/// Indices strictly increase.
pub open spec fn increasing(log: Seq<usize>) -> bool {
    forall|m1: int, m2: int| 0 <= m1 < m2 < log.len() ==> (#[trigger] log[m1]) < (#[trigger] log[m2])
}

/// The entries called are exactly the written ones, in order.
pub open spec fn written_entries<S, X>(entries: Seq<(Source<S>, X)>, log: Seq<usize>) -> bool {
    &&& increasing(log)
    &&& forall|m: int| 0 <= m < log.len() ==> (#[trigger] log[m]) < entries.len() && entries[log[m] as int].0.changed
    &&& forall|i: int| 0 <= i < entries.len() && (#[trigger] entries[i]).0.changed
        ==> exists|m: int| 0 <= m < log.len() && log[m] == i
}

/// Tells each written component's own handler its new value.
pub fn on_self_change_system<S, F: Fn(&S)>(entries: &Vec<(Source<S>, OnSelfChange<F>)>) -> (log: Vec<usize>)
    requires
        forall|i: int| 0 <= i < entries@.len() ==> total_notify(#[trigger] entries@[i].1.0),
    ensures
        written_entries(entries@, log@),
{
    let mut log: Vec<usize> = Vec::new();
    let mut i: usize = 0;
    while i < entries.len()
        invariant
            i <= entries@.len(),
            forall|i: int| 0 <= i < entries@.len() ==> total_notify(#[trigger] entries@[i].1.0),
            increasing(log@),
            forall|m: int| 0 <= m < log@.len() ==> (#[trigger] log@[m]) < i && entries@[log@[m] as int].0.changed,
            forall|a: int| 0 <= a < i && (#[trigger] entries@[a]).0.changed ==> exists|m: int| 0 <= m < log@.len() && log@[m] == a,
        decreases entries@.len() - i,
    {
        if entries[i].0.changed {
            let ghost lb = log@;
            (entries[i].1.0)(&entries[i].0.value);
            log.push(i);
            proof {
                assert forall|a: int| 0 <= a < i + 1 && (#[trigger] entries@[a]).0.changed
                    implies exists|m: int| 0 <= m < log@.len() && log@[m] == a by {
                    if a == i {
                        assert(log@[lb.len() as int] == a);
                    } else {
                        let m = choose|m: int| 0 <= m < lb.len() && lb[m] == a;
                        assert(log@[m] == lb[m]);
                    }
                }
            }
        }
        i = i + 1;
    }
    log
}

/// A handler that is told whenever the component of entity `source` is written.
pub struct OnSourceChange<F> {
    pub source: Entity,
    pub handler: F,
}

/// The calls that a notify pass makes: for each written source, in order,
/// each listener that names that source, in order; nothing else.
pub open spec fn notify_log<S, F>(srcs: Seq<Source<S>>, ls: Seq<OnSourceChange<F>>, log: Seq<Invocation>) -> bool {
    &&& in_order(log)
    &&& forall|m: int| 0 <= m < log.len() ==> {
        let inv = #[trigger] log[m];
        &&& inv.source < srcs.len()
        &&& srcs[inv.source as int].changed
        &&& inv.relation < ls.len()
        &&& inv.target == inv.relation
        &&& ls[inv.relation as int].source == srcs[inv.source as int].entity
    }
    &&& forall|i: int, l: int|
        0 <= i < srcs.len() && srcs[i].changed && 0 <= l < ls.len() && (#[trigger] ls[l]).source == (#[trigger] srcs[i]).entity
            ==> exists|m: int| 0 <= m < log.len() && (#[trigger] log[m]).source == i && log[m].relation == l
}

/// Tells each listener the new value of the written source it names.
pub fn on_source_change_system<S, F: Fn(&S)>(
    srcs: &Vec<Source<S>>,
    listeners: &Vec<OnSourceChange<F>>,
) -> (log: Vec<Invocation>)
    requires
        forall|l: int| 0 <= l < listeners@.len() ==> total_notify(#[trigger] listeners@[l].handler),
    ensures
        notify_log(srcs@, listeners@, log@),
{
    let mut log: Vec<Invocation> = Vec::new();
    let mut i: usize = 0;
    while i < srcs.len()
        invariant
            i <= srcs@.len(),
            forall|l: int| 0 <= l < listeners@.len() ==> total_notify(#[trigger] listeners@[l].handler),
            in_order(log@),
            forall|m: int| 0 <= m < log@.len() ==> (#[trigger] log@[m]).source < i,
            forall|m: int| 0 <= m < log@.len() ==> {
                let inv = #[trigger] log@[m];
                &&& inv.source < srcs@.len()
                &&& srcs@[inv.source as int].changed
                &&& inv.relation < listeners@.len()
                &&& inv.target == inv.relation
                &&& listeners@[inv.relation as int].source == srcs@[inv.source as int].entity
            },
            forall|a: int, l: int|
                0 <= a < i && srcs@[a].changed && 0 <= l < listeners@.len()
                    && (#[trigger] listeners@[l]).source == (#[trigger] srcs@[a]).entity
                    ==> exists|m: int| 0 <= m < log@.len() && (#[trigger] log@[m]).source == a && log@[m].relation == l,
        decreases srcs@.len() - i,
    {
        if srcs[i].changed {
            let mut l: usize = 0;
            while l < listeners.len()
                invariant
                    i < srcs@.len(),
                    srcs@[i as int].changed,
                    l <= listeners@.len(),
                    forall|l: int| 0 <= l < listeners@.len() ==> total_notify(#[trigger] listeners@[l].handler),
                    in_order(log@),
                    forall|m: int| 0 <= m < log@.len() ==> (#[trigger] log@[m]).source < i
                        || (log@[m].source == i && log@[m].relation < l),
                    forall|m: int| 0 <= m < log@.len() ==> {
                        let inv = #[trigger] log@[m];
                        &&& inv.source < srcs@.len()
                        &&& srcs@[inv.source as int].changed
                        &&& inv.relation < listeners@.len()
                        &&& inv.target == inv.relation
                        &&& listeners@[inv.relation as int].source == srcs@[inv.source as int].entity
                    },
                    forall|a: int, b: int|
                        ((0 <= a < i) || (a == i && b < l)) && srcs@[a].changed && 0 <= b < listeners@.len()
                            && (#[trigger] listeners@[b]).source == (#[trigger] srcs@[a]).entity
                            ==> exists|m: int| 0 <= m < log@.len() && (#[trigger] log@[m]).source == a && log@[m].relation == b,
                decreases listeners@.len() - l,
            {
                if listeners[l].source == srcs[i].entity {
                    let ghost lb = log@;
                    (listeners[l].handler)(&srcs[i].value);
                    let inv = Invocation { source: i, relation: l, target: l };
                    log.push(inv);
                    proof {
                        let m_new = lb.len() as int;
                        assert(log@[m_new] == inv);
                        assert forall|m1: int, m2: int| 0 <= m1 < m2 < log@.len() implies
                            (#[trigger] log@[m1]).source < (#[trigger] log@[m2]).source
                            || (log@[m1].source == log@[m2].source && log@[m1].relation < log@[m2].relation) by {
                            if m2 < m_new {
                                assert(log@[m1] == lb[m1] && log@[m2] == lb[m2]);
                            } else {
                                assert(log@[m1] == lb[m1]);
                            }
                        }
                        assert forall|a: int, b: int|
                            ((0 <= a < i) || (a == i && b < l + 1)) && srcs@[a].changed && 0 <= b < listeners@.len()
                                && (#[trigger] listeners@[b]).source == (#[trigger] srcs@[a]).entity
                                implies exists|m: int| 0 <= m < log@.len() && (#[trigger] log@[m]).source == a
                                    && log@[m].relation == b by {
                            if a == i && b == l {
                                assert(log@[m_new].source == a);
                            } else {
                                let m = choose|m: int| 0 <= m < lb.len() && (#[trigger] lb[m]).source == a && lb[m].relation == b;
                                assert(log@[m] == lb[m]);
                            }
                        }
                    }
                }
                l = l + 1;
            }
        }
        i = i + 1;
    }
    log
}

/// A handler that rewrites the entity's own component `T` whenever its
/// component `S` is written.
pub struct SelfBind<H>(pub H);

/// For each entity whose source component was written, the handler gets the
/// source value and the entity's own target component, and what it returns,
/// if anything, is written.
pub fn self_bind_system<S, T, H: Fn(&S, &T) -> Option<T>>(
    entries: &mut Vec<(Source<S>, SelfBind<H>, Source<T>)>,
) -> (log: Vec<usize>)
    requires
        forall|i: int| 0 <= i < old(entries)@.len() ==> total(#[trigger] old(entries)@[i].1.0),
    ensures
        increasing(log@),
        forall|m: int| 0 <= m < log@.len() ==> (#[trigger] log@[m]) < old(entries)@.len()
            && old(entries)@[log@[m] as int].0.changed,
        final(entries)@.len() == old(entries)@.len(),
        forall|i: int| 0 <= i < old(entries)@.len() && !(#[trigger] old(entries)@[i]).0.changed
            ==> final(entries)@[i] == old(entries)@[i],
        forall|i: int| 0 <= i < old(entries)@.len() && (#[trigger] old(entries)@[i]).0.changed ==> {
            &&& exists|m: int| 0 <= m < log@.len() && log@[m] == i
            &&& final(entries)@[i].0 == old(entries)@[i].0
            &&& final(entries)@[i].1 == old(entries)@[i].1
            &&& exists|r: Option<T>| call_ensures(old(entries)@[i].1.0, (&old(entries)@[i].0.value, &old(entries)@[i].2.value), r)
                && final(entries)@[i].2 == written(old(entries)@[i].2, r)
        },
{
    let ghost e0 = entries@;
    let mut log: Vec<usize> = Vec::new();
    let mut i: usize = 0;
    while i < entries.len()
        invariant
            i <= entries@.len(),
            entries@.len() == e0.len(),
            forall|i: int| 0 <= i < e0.len() ==> total(#[trigger] e0[i].1.0),
            forall|a: int| i <= a < e0.len() ==> #[trigger] entries@[a] == e0[a],
            increasing(log@),
            forall|m: int| 0 <= m < log@.len() ==> (#[trigger] log@[m]) < i && e0[log@[m] as int].0.changed,
            forall|a: int| 0 <= a < i && !(#[trigger] e0[a]).0.changed ==> entries@[a] == e0[a],
            forall|a: int| 0 <= a < i && (#[trigger] e0[a]).0.changed ==> {
                &&& exists|m: int| 0 <= m < log@.len() && log@[m] == a
                &&& entries@[a].0 == e0[a].0
                &&& entries@[a].1 == e0[a].1
                &&& exists|r: Option<T>| call_ensures(e0[a].1.0, (&e0[a].0.value, &e0[a].2.value), r)
                    && entries@[a].2 == written(e0[a].2, r)
            },
        decreases e0.len() - i,
    {
        if entries[i].0.changed {
            let ghost lb = log@;
            let ghost eb = entries@;
            assert(entries@[i as int] == e0[i as int]);
            let entry = &mut entries[i];
            apply_binding(&entry.1.0, &entry.0.value, &mut entry.2);
            log.push(i);
            proof {
                assert forall|a: int| 0 <= a < i + 1 && (#[trigger] e0[a]).0.changed implies {
                    &&& exists|m: int| 0 <= m < log@.len() && log@[m] == a
                    &&& entries@[a].0 == e0[a].0
                    &&& entries@[a].1 == e0[a].1
                    &&& exists|r: Option<T>| call_ensures(e0[a].1.0, (&e0[a].0.value, &e0[a].2.value), r)
                        && entries@[a].2 == written(e0[a].2, r)
                } by {
                    if a == i {
                        assert(log@[lb.len() as int] == a);
                    } else {
                        let m = choose|m: int| 0 <= m < lb.len() && lb[m] == a;
                        assert(log@[m] == lb[m]);
                        assert(entries@[a] == eb[a]);
                    }
                }
                assert forall|a: int| 0 <= a < i + 1 && !(#[trigger] e0[a]).0.changed implies entries@[a] == e0[a] by {
                    assert(entries@[a] == eb[a]);
                }
            }
        }
        i = i + 1;
    }
    log
}

/// Some call read source (or event) `i` and ran relation `j`.
pub open spec fn logged(log: Seq<Invocation>, i: int, j: int) -> bool {
    exists|m: int| 0 <= m < log.len() && (#[trigger] log[m]).source == i && log[m].relation == j
}

/// A relation that rewrites the component of entity `target` whenever an
/// application event arrives.
pub struct EventBindToTarget<H> {
    pub target: Entity,
    pub handler: H,
}

/// The calls that an event pass makes: for each event, in order, each
/// relation whose target exists, in order, given the first component of that
/// target entity; nothing else.
pub open spec fn event_log<E, T, H>(
    events: Seq<E>,
    binds: Seq<EventBindToTarget<H>>,
    ts: Seq<Source<T>>,
    log: Seq<Invocation>,
) -> bool {
    &&& in_order(log)
    &&& forall|m: int| 0 <= m < log.len() ==> {
        let inv = #[trigger] log[m];
        &&& inv.source < events.len()
        &&& inv.relation < binds.len()
        &&& first_of(ts, binds[inv.relation as int].target, inv.target as int)
    }
    &&& forall|n: int, b: int|
        0 <= n < events.len() && 0 <= b < binds.len() && has_entity(ts, binds[b].target)
            ==> #[trigger] logged(log, n, b)
}

/// The targets of an event pass end as its calls, in log order, left them,
/// each call having been given the target's value at that point.
pub open spec fn event_folds<E, T, H: Fn(&E, &T) -> Option<T>>(
    events: Seq<E>,
    binds: Seq<EventBindToTarget<H>>,
    t0s: Seq<Source<T>>,
    ts: Seq<Source<T>>,
    log: Seq<Invocation>,
    results: Seq<Option<T>>,
) -> bool {
    &&& results.len() == log.len()
    &&& ts.len() == t0s.len()
    &&& forall|m: int| #![trigger log[m]] 0 <= m < log.len() ==> call_ensures(
        binds[log[m].relation as int].handler,
        (&events[log[m].source as int], &fold_target(t0s[log[m].target as int], log, results, log[m].target as int, m).value),
        results[m],
    )
    &&& forall|k: int| 0 <= k < ts.len() ==> #[trigger] ts[k] == fold_target(t0s[k], log, results, k, log.len() as int)
}

/// Hands each event to every relation in turn: the handler gets the event
/// and the target's current value, and what it returns, if anything, is
/// written.
pub fn event_bind_to_target_system<E, T, H: Fn(&E, &T) -> Option<T>>(
    events: &Vec<E>,
    binds: &Vec<EventBindToTarget<H>>,
    targets: &mut Vec<Source<T>>,
) -> (log: Vec<Invocation>)
    requires
        forall|b: int| 0 <= b < binds@.len() ==> total(#[trigger] binds@[b].handler),
    ensures
        event_log(events@, binds@, old(targets)@, log@),
        final(targets)@.len() == old(targets)@.len(),
        forall|k: int| 0 <= k < old(targets)@.len() ==> (#[trigger] final(targets)@[k]).entity == old(targets)@[k].entity,
        forall|k: int| 0 <= k < old(targets)@.len() && untouched(log@, k) ==> #[trigger] final(targets)@[k] == old(targets)@[k],
        forall|k: int, m: int| 0 <= k < old(targets)@.len() && #[trigger] hit_once(log@, k, m) ==> exists|r: Option<T>|
            call_ensures(binds@[log@[m].relation as int].handler, (&events@[log@[m].source as int], &old(targets)@[k].value), r)
                && final(targets)@[k] == written(old(targets)@[k], r),
        exists|results: Seq<Option<T>>| event_folds(events@, binds@, old(targets)@, final(targets)@, log@, results),
{
    let ghost t0 = targets@;
    let ghost mut results: Seq<Option<T>> = Seq::empty();
    let mut log: Vec<Invocation> = Vec::new();
    let mut n: usize = 0;
    while n < events.len()
        invariant
            n <= events@.len(),
            forall|b: int| 0 <= b < binds@.len() ==> total(#[trigger] binds@[b].handler),
            in_order(log@),
            forall|m: int| 0 <= m < log@.len() ==> (#[trigger] log@[m]).source < n,
            forall|m: int| 0 <= m < log@.len() ==> {
                let inv = #[trigger] log@[m];
                &&& inv.source < events@.len()
                &&& inv.relation < binds@.len()
                &&& first_of(t0, binds@[inv.relation as int].target, inv.target as int)
            },
            forall|a: int, b: int|
                0 <= a < n && 0 <= b < binds@.len() && has_entity(t0, binds@[b].target)
                    ==> #[trigger] logged(log@, a, b),
            targets@.len() == t0.len(),
            event_folds(events@, binds@, t0, targets@, log@, results),
            forall|k: int| 0 <= k < t0.len() ==> (#[trigger] targets@[k]).entity == t0[k].entity,
            forall|k: int| 0 <= k < t0.len() && untouched(log@, k) ==> #[trigger] targets@[k] == t0[k],
            forall|k: int, m: int| 0 <= k < t0.len() && #[trigger] hit_once(log@, k, m) ==> exists|r: Option<T>|
                call_ensures(binds@[log@[m].relation as int].handler, (&events@[log@[m].source as int], &t0[k].value), r)
                    && targets@[k] == written(t0[k], r),
        decreases events@.len() - n,
    {
        let mut j: usize = 0;
        while j < binds.len()
            invariant
                n < events@.len(),
                j <= binds@.len(),
                forall|b: int| 0 <= b < binds@.len() ==> total(#[trigger] binds@[b].handler),
                in_order(log@),
                forall|m: int| 0 <= m < log@.len() ==> (#[trigger] log@[m]).source < n
                    || (log@[m].source == n && log@[m].relation < j),
                forall|m: int| 0 <= m < log@.len() ==> {
                    let inv = #[trigger] log@[m];
                    &&& inv.source < events@.len()
                    &&& inv.relation < binds@.len()
                    &&& first_of(t0, binds@[inv.relation as int].target, inv.target as int)
                },
                forall|a: int, b: int|
                    ((0 <= a < n) || (a == n && b < j)) && 0 <= b < binds@.len()
                        && has_entity(t0, binds@[b].target)
                        ==> #[trigger] logged(log@, a, b),
                targets@.len() == t0.len(),
                event_folds(events@, binds@, t0, targets@, log@, results),
                forall|k: int| 0 <= k < t0.len() ==> (#[trigger] targets@[k]).entity == t0[k].entity,
                forall|k: int| 0 <= k < t0.len() && untouched(log@, k) ==> #[trigger] targets@[k] == t0[k],
                forall|k: int, m: int| 0 <= k < t0.len() && #[trigger] hit_once(log@, k, m) ==> exists|r: Option<T>|
                    call_ensures(binds@[log@[m].relation as int].handler, (&events@[log@[m].source as int], &t0[k].value), r)
                        && targets@[k] == written(t0[k], r),
            decreases binds@.len() - j,
        {
            let ghost tb = targets@;
            let ghost lb = log@;
            if let Some(k) = find_source(targets, binds[j].target) {
                let inv = Invocation { source: n, relation: j, target: k };
                proof {
                    assert forall|q: int| 0 <= q < k implies t0[q].entity != binds@[j as int].target by {
                        assert(targets@[q].entity == t0[q].entity);
                    }
                    assert(targets@[k as int].entity == t0[k as int].entity);
                }
                apply_binding(&binds[j].handler, &events[n], &mut targets[k]);
                log.push(inv);
                proof {
                    let r = choose|r: Option<T>| call_ensures(binds@[j as int].handler, (&events@[n as int], &tb[k as int].value), r)
                        && targets@[k as int] == written(tb[k as int], r);
                    lemma_fold_step(t0, tb, targets@, lb, results, inv, r);
                    assert(log@ == lb.push(inv));
                    let rs = results.push(r);
                    assert forall|m: int| #![trigger log@[m]] 0 <= m < log@.len() implies call_ensures(
                        binds@[log@[m].relation as int].handler,
                        (&events@[log@[m].source as int], &fold_target(t0[log@[m].target as int], log@, rs, log@[m].target as int, m).value),
                        rs[m],
                    ) by {
                        if m < lb.len() {
                            assert(log@[m] == lb[m]);
                            assert(rs[m] == results[m]);
                        } else {
                            assert(log@[m] == inv);
                            assert(rs[m] == r);
                        }
                    }
                    results = rs;
                }
                proof {
                    let m_new = lb.len() as int;
                    assert(log@[m_new] == inv);
                    assert forall|m1: int, m2: int| 0 <= m1 < m2 < log@.len() implies
                        (#[trigger] log@[m1]).source < (#[trigger] log@[m2]).source
                        || (log@[m1].source == log@[m2].source && log@[m1].relation < log@[m2].relation) by {
                        if m2 < m_new {
                            assert(log@[m1] == lb[m1] && log@[m2] == lb[m2]);
                        } else {
                            assert(log@[m1] == lb[m1]);
                        }
                    }
                    assert forall|kk: int| 0 <= kk < t0.len() && untouched(log@, kk)
                        implies #[trigger] targets@[kk] == t0[kk] by {
                        assert(log@[m_new].target != kk);
                        assert forall|m: int| 0 <= m < lb.len() implies (#[trigger] lb[m]).target != kk by {
                            assert(log@[m] == lb[m]);
                        }
                    }
                    assert forall|kk: int, m: int| 0 <= kk < t0.len() && #[trigger] hit_once(log@, kk, m)
                        implies exists|r: Option<T>|
                            call_ensures(binds@[log@[m].relation as int].handler, (&events@[log@[m].source as int], &t0[kk].value), r)
                                && targets@[kk] == written(t0[kk], r) by {
                        if kk == k {
                            assert(m == m_new);
                            assert forall|m2: int| 0 <= m2 < lb.len() implies (#[trigger] lb[m2]).target != kk by {
                                assert(log@[m2] == lb[m2]);
                            }
                            assert(untouched(lb, kk));
                            assert(tb[kk] == t0[kk]);
                        } else {
                            assert(m < m_new);
                            assert(log@[m] == lb[m]);
                            assert forall|m2: int| 0 <= m2 < lb.len() && (#[trigger] lb[m2]).target == kk implies m2 == m by {
                                assert(log@[m2] == lb[m2]);
                            }
                            assert(hit_once(lb, kk, m));
                        }
                    }
                    assert forall|a: int, b: int|
                        ((0 <= a < n) || (a == n && b < j + 1)) && 0 <= b < binds@.len()
                            && has_entity(t0, binds@[b].target)
                            implies #[trigger] logged(log@, a, b) by {
                        if a == n && b == j {
                            assert(log@[m_new].source == a);
                        } else {
                            assert(logged(lb, a, b));
                            let m = choose|m: int| 0 <= m < lb.len() && (#[trigger] lb[m]).source == a && lb[m].relation == b;
                            assert(log@[m] == lb[m]);
                        }
                    }
                }
            } else {
                proof {
                    assert forall|a: int, b: int|
                        ((0 <= a < n) || (a == n && b < j + 1)) && 0 <= b < binds@.len()
                            && has_entity(t0, binds@[b].target)
                            implies #[trigger] logged(log@, a, b) by {
                        if a == n && b == j {
                            let q = choose|q: int| 0 <= q < t0.len() && t0[q].entity == binds@[b].target;
                            assert(targets@[q].entity == t0[q].entity);
                        }
                    }
                }
            }
            j = j + 1;
        }
        n = n + 1;
    }
    assert(event_folds(events@, binds@, t0, targets@, log@, results));
    log
}

/// A push pass calls each relation of a written source exactly once when its
/// target exists, and never calls the relations of a source that was not
/// written; the call it makes reads the source's current value.
pub proof fn lemma_push_once<S, T, H>(
    srcs: Seq<(Source<S>, BindToTarget<H>)>,
    ts: Seq<Source<T>>,
    log: Seq<Invocation>,
    i: int,
    j: int,
)
    requires
        push_log(srcs, ts, log),
        0 <= i < srcs.len(),
        0 <= j < srcs[i].1.0@.len(),
    ensures
        srcs[i].0.changed && has_entity(ts, srcs[i].1.0@[j].target) ==> exists|m: int|
            0 <= m < log.len() && (#[trigger] log[m]).source == i && log[m].relation == j
                && forall|m2: int| 0 <= m2 < log.len() && (#[trigger] log[m2]).source == i && log[m2].relation == j ==> m2 == m,
        !srcs[i].0.changed ==> forall|m: int| 0 <= m < log.len() ==> (#[trigger] log[m]).source != i,
{
    if srcs[i].0.changed && has_entity(ts, srcs[i].1.0@[j].target) {
        let m = choose|m: int| 0 <= m < log.len() && (#[trigger] log[m]).source == i && log[m].relation == j;
        assert forall|m2: int| 0 <= m2 < log.len() && (#[trigger] log[m2]).source == i && log[m2].relation == j
            implies m2 == m by {
            if m2 < m {
                assert(log[m2].source < log[m].source || log[m2].relation < log[m].relation);
            } else if m < m2 {
                assert(log[m].source < log[m2].source || log[m].relation < log[m2].relation);
            }
        }
    }
}

/// A pull pass calls each relation that names a written source exactly once
/// for it, and never calls one for a source that was not written.
pub proof fn lemma_pull_once<S, T, H>(
    srcs: Seq<Source<S>>,
    ts: Seq<(BindSource<H>, Source<T>)>,
    log: Seq<Invocation>,
    i: int,
    l: int,
)
    requires
        pull_log(srcs, ts, log),
        0 <= i < srcs.len(),
        0 <= l < ts.len(),
        ts[l].0.source_entity == srcs[i].entity,
    ensures
        srcs[i].changed ==> exists|m: int|
            0 <= m < log.len() && (#[trigger] log[m]).source == i && log[m].relation == l
                && forall|m2: int| 0 <= m2 < log.len() && (#[trigger] log[m2]).source == i && log[m2].relation == l ==> m2 == m,
        !srcs[i].changed ==> forall|m: int| 0 <= m < log.len() ==> (#[trigger] log[m]).source != i,
{
    if srcs[i].changed {
        let m = choose|m: int| 0 <= m < log.len() && (#[trigger] log[m]).source == i && log[m].relation == l;
        assert forall|m2: int| 0 <= m2 < log.len() && (#[trigger] log[m2]).source == i && log[m2].relation == l
            implies m2 == m by {
            if m2 < m {
                assert(log[m2].source < log[m].source || log[m2].relation < log[m].relation);
            } else if m < m2 {
                assert(log[m].source < log[m2].source || log[m].relation < log[m2].relation);
            }
        }
    }
}

} // verus!
