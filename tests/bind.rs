use std::cell::Cell;

use ui_builder::bind::{
    bind_source_system, bind_to_target_system, event_bind_to_target_system, on_self_change_system,
    on_source_change_system, self_bind_system, BindSource, BindToTarget, BindToTargetItem,
    EventBindToTarget, Invocation, OnSelfChange, OnSourceChange, SelfBind, Source,
};
use ui_builder::Entity;

#[derive(Clone, Debug, PartialEq)]
struct Counter {
    val: u32,
}

fn show(c: &Counter, _t: &String) -> Option<String> {
    Some(format!("count {}", c.val))
}

#[test]
fn counter_pushes_text_once() {
    let mut x = Source::new(Entity(1), Counter { val: 0 });
    x.end_frame();
    let mut texts = vec![Source::new(Entity(2), String::new())];
    texts[0].end_frame();
    let mut srcs = vec![(x, BindToTarget(vec![BindToTargetItem { target: Entity(2), handler: show }]))];

    srcs[0].0.set(Counter { val: 1 });
    let log = bind_to_target_system(&srcs, &mut texts);
    assert_eq!(log, vec![Invocation { source: 0, relation: 0, target: 0 }]);
    assert_eq!(texts[0].value, "count 1");
    assert!(texts[0].changed);

    srcs[0].0.end_frame();
    texts[0].end_frame();
    let log = bind_to_target_system(&srcs, &mut texts);
    assert!(log.is_empty());
    assert_eq!(texts[0].value, "count 1");
    assert!(!texts[0].changed);
}

#[test]
fn push_targets_in_list_order_and_skip_missing() {
    let calls = Cell::new(0u32);
    let h = |s: &u32, t: &u32| {
        calls.set(calls.get() + 1);
        if *s == *t { None } else { Some(*s + *t) }
    };
    let src = Source::new(Entity(1), 5u32);
    let srcs = vec![(
        src,
        BindToTarget(vec![
            BindToTargetItem { target: Entity(3), handler: h },
            BindToTargetItem { target: Entity(9), handler: h },
            BindToTargetItem { target: Entity(2), handler: h },
        ]),
    )];
    let mut ts = vec![Source::new(Entity(2), 5u32), Source::new(Entity(3), 1u32)];
    ts[0].end_frame();
    ts[1].end_frame();
    let log = bind_to_target_system(&srcs, &mut ts);
    assert_eq!(
        log,
        vec![Invocation { source: 0, relation: 0, target: 1 }, Invocation { source: 0, relation: 2, target: 0 }]
    );
    assert_eq!(calls.get(), 2);
    assert_eq!(ts[1].value, 6);
    assert!(ts[1].changed);
    assert_eq!(ts[0].value, 5);
    assert!(!ts[0].changed);
}

#[test]
fn value_equal_write_still_propagates() {
    let mut x = Source::new(Entity(1), 3u32);
    x.end_frame();
    x.set(3);
    let srcs = vec![x];
    let mut ts = vec![(BindSource { source_entity: Entity(1), handler: |s: &u32, _t: &u32| Some(*s * 10) }, Source::new(Entity(2), 0u32))];
    let log = bind_source_system(&srcs, &mut ts);
    assert_eq!(log.len(), 1);
    assert_eq!(ts[0].1.value, 30);
}

#[test]
fn pull_from_source_only_when_written() {
    let mut a = Source::new(Entity(1), 1u32);
    let mut b = Source::new(Entity(2), 2u32);
    a.end_frame();
    b.end_frame();
    b.set(7);
    let srcs = vec![a, b];
    let h = |s: &u32, _t: &u32| Some(*s);
    let mut ts = vec![
        (BindSource { source_entity: Entity(1), handler: h }, Source::new(Entity(10), 0u32)),
        (BindSource { source_entity: Entity(2), handler: h }, Source::new(Entity(11), 0u32)),
        (BindSource { source_entity: Entity(2), handler: h }, Source::new(Entity(12), 0u32)),
    ];
    let log = bind_source_system(&srcs, &mut ts);
    assert_eq!(
        log,
        vec![Invocation { source: 1, relation: 1, target: 1 }, Invocation { source: 1, relation: 2, target: 2 }]
    );
    assert_eq!(ts[0].1.value, 0);
    assert_eq!(ts[1].1.value, 7);
    assert_eq!(ts[2].1.value, 7);
}

#[test]
fn handler_returning_none_writes_nothing() {
    let mut x = Source::new(Entity(1), 1u32);
    x.set(2);
    let srcs = vec![x];
    let mut ts = vec![(BindSource { source_entity: Entity(1), handler: |_s: &u32, _t: &u32| None }, Source::new(Entity(2), 4u32))];
    ts[0].1.end_frame();
    let log = bind_source_system(&srcs, &mut ts);
    assert_eq!(log.len(), 1);
    assert_eq!(ts[0].1.value, 4);
    assert!(!ts[0].1.changed);
}

#[test]
fn self_change_notifies_written_entities() {
    let seen = Cell::new(0u32);
    let f = |v: &u32| seen.set(seen.get() + *v);
    let mut a = Source::new(Entity(1), 4u32);
    let b = Source::new(Entity(2), 5u32);
    a.end_frame();
    let entries = vec![(a, OnSelfChange(f)), (b, OnSelfChange(f))];
    let log = on_self_change_system(&entries);
    assert_eq!(log, vec![1]);
    assert_eq!(seen.get(), 5);
}

#[test]
fn source_change_notifies_listeners() {
    let seen = Cell::new(0u32);
    let f = |v: &u32| seen.set(seen.get() * 10 + *v);
    let srcs = vec![Source::new(Entity(1), 3u32), Source::new(Entity(2), 4u32)];
    let listeners = vec![
        OnSourceChange { source: Entity(2), handler: f },
        OnSourceChange { source: Entity(1), handler: f },
        OnSourceChange { source: Entity(8), handler: f },
    ];
    let log = on_source_change_system(&srcs, &listeners);
    assert_eq!(
        log,
        vec![Invocation { source: 0, relation: 1, target: 1 }, Invocation { source: 1, relation: 0, target: 0 }]
    );
    assert_eq!(seen.get(), 34);
}

#[test]
fn self_bind_rewrites_own_target() {
    let h = |s: &u32, t: &String| Some(format!("{}{}", t, s));
    let mut quiet = Source::new(Entity(2), 9u32);
    quiet.end_frame();
    let mut entries = vec![
        (Source::new(Entity(1), 1u32), SelfBind(h), Source::new(Entity(1), "v".to_string())),
        (quiet, SelfBind(h), Source::new(Entity(2), "w".to_string())),
    ];
    let log = self_bind_system(&mut entries);
    assert_eq!(log, vec![0]);
    assert_eq!(entries[0].2.value, "v1");
    assert_eq!(entries[1].2.value, "w");
}

#[test]
fn events_rewrite_targets() {
    let h = |e: &i32, t: &i32| if *e == 0 { None } else { Some(*t + *e) };
    let binds = vec![EventBindToTarget { target: Entity(5), handler: h }, EventBindToTarget { target: Entity(6), handler: h }];
    let mut ts = vec![Source::new(Entity(5), 100i32)];
    ts[0].end_frame();
    let events = vec![1, 0, 2];
    let log = event_bind_to_target_system(&events, &binds, &mut ts);
    assert_eq!(log.len(), 3);
    assert_eq!(log[2], Invocation { source: 2, relation: 0, target: 0 });
    assert_eq!(ts[0].value, 103);
    assert!(ts[0].changed);
}

#[test]
fn empty_binding_inputs() {
    let srcs: Vec<(Source<u32>, BindToTarget<fn(&u32, &u32) -> Option<u32>>)> = vec![];
    let mut ts: Vec<Source<u32>> = vec![];
    assert!(bind_to_target_system(&srcs, &mut ts).is_empty());
    let events: Vec<u8> = vec![];
    let binds: Vec<EventBindToTarget<fn(&u8, &u32) -> Option<u32>>> = vec![];
    assert!(event_bind_to_target_system(&events, &binds, &mut ts).is_empty());
}
