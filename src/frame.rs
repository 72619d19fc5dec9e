//! One frame of the button state machine over all widgets.
use vstd::prelude::*;

use crate::buttons::{
    click_qualifies, clicked, clone_name, event_triggers, group_key, grouped, selected_in_group, toggled_on,
    visual_state_of, ButtonClickInfo, ButtonInternalState, ButtonQuery, Interaction, ToggleButton,
};
use crate::{Entity, MouseButton};

verus! {

/// A press (`is_press`) or release of `button` that the state machine recorded on `entity`.
#[derive(Clone, Copy, Debug, PartialEq, Eq, Structural)]
pub struct PressEvent {
    pub entity: Entity,
    pub button: MouseButton,
    pub is_press: bool,
}

/// What the host reports for one frame.
pub struct FrameInput {
    /// Widgets whose primary-button signal changed, with the new signal.
    pub interactions: Vec<(Entity, Interaction)>,
    /// Buttons that went down this frame.
    pub just_pressed: Vec<MouseButton>,
    /// Buttons that went up this frame.
    pub just_released: Vec<MouseButton>,
    /// Widgets whose `ToggleButton` other code wrote this frame.
    pub toggle_changed: Vec<Entity>,
    /// Widgets whose `Disabled` flag was written this frame.
    pub disabled_changed: Vec<Entity>,
}

/// What one frame of the state machine produced.
pub struct FrameOutput {
    /// Presses and releases recorded, in order.
    pub events: Vec<PressEvent>,
    /// Clicks to hand to the widgets' handlers, in order.
    pub clicks: Vec<ButtonClickInfo>,
    /// Widgets whose visual state was recomputed.
    pub visual_changed: Vec<Entity>,
}

pub open spec fn entities_unique(ws: Seq<ButtonQuery>) -> bool {
    forall|i: int, j: int|
        0 <= i < ws.len() && 0 <= j < ws.len() && i != j ==> ws[i].entity != ws[j].entity
}

/// `b` is `a` with at most its pressing and hovering state changed.
pub open spec fn only_internal_changed(a: ButtonQuery, b: ButtonQuery) -> bool {
    b == ButtonQuery { internal_state: b.internal_state, ..a }
}

/// A widget that was held by some button is still held by that same one.
pub open spec fn holds_kept(ws0: Seq<ButtonQuery>, ws: Seq<ButtonQuery>) -> bool {
    forall|k: int| 0 <= k < ws0.len() && ws0[k].internal_state.pressing.is_some()
        ==> #[trigger] ws[k].internal_state.pressing == ws0[k].internal_state.pressing
}

/// `ev` is a press on a widget that no button held in `ws0` and that `ev`'s button holds in `ws`.
pub open spec fn fresh_press(ws0: Seq<ButtonQuery>, ws: Seq<ButtonQuery>, ev: PressEvent) -> bool {
    &&& ev.is_press
    &&& exists|k: int|
        0 <= k < ws.len() && #[trigger] ws[k].entity == ev.entity
            && ws0[k].internal_state.pressing.is_none()
            && ws[k].internal_state.pressing == Some(ev.button)
}

/// The index of the widget of entity `e`, if there is one.
pub fn find_widget(ws: &Vec<ButtonQuery>, e: Entity) -> (r: Option<usize>)
    ensures
        r matches Some(k) ==> k < ws@.len() && ws@[k as int].entity == e,
        r is None ==> forall|k: int| 0 <= k < ws@.len() ==> ws@[k].entity != e,
{
    let mut i: usize = 0;
    while i < ws.len()
        invariant
            i <= ws@.len(),
            forall|k: int| 0 <= k < i ==> ws@[k].entity != e,
        decreases ws@.len() - i,
    {
        if ws[i].entity == e {
            return Some(i);
        }
        i = i + 1;
    }
    None
}

/// Whether the pointer is over `e` after the signals, starting from `h`: the
/// last hover or leave signal for `e` decides.
pub open spec fn hover_after(signals: Seq<(Entity, Interaction)>, e: Entity, h: bool) -> bool
    decreases signals.len(),
{
    if signals.len() == 0 {
        h
    } else {
        let prev = hover_after(signals.drop_last(), e, h);
        let last = signals.last();
        if last.0 == e {
            match last.1 {
                Interaction::Hovered => true,
                Interaction::Idle => false,
                Interaction::Pressed => prev,
            }
        } else {
            prev
        }
    }
}

/// Some signal presses the primary button on `e`.
pub open spec fn press_signalled(signals: Seq<(Entity, Interaction)>, e: Entity) -> bool {
    exists|i: int| 0 <= i < signals.len() && signals[i] == (e, Interaction::Pressed)
}

/// The primary button takes a widget that no button holds when its signal
/// says pressed.
pub open spec fn pressing_after_signals(
    w: ButtonQuery,
    signals: Seq<(Entity, Interaction)>,
) -> Option<MouseButton> {
    if w.internal_state.pressing.is_none() && press_signalled(signals, w.entity) {
        Some(MouseButton::Left)
    } else {
        w.internal_state.pressing
    }
}

/// Pressing and hovering of a widget after the primary-button signals.
pub open spec fn internal_after_signals(w: ButtonQuery, signals: Seq<(Entity, Interaction)>) -> ButtonInternalState {
    ButtonInternalState {
        pressing: pressing_after_signals(w, signals),
        hovering: hover_after(signals, w.entity, w.internal_state.hovering),
    }
}

/// A press of the left button on `e`.
pub open spec fn left_press(e: Entity) -> PressEvent {
    PressEvent { entity: e, button: MouseButton::Left, is_press: true }
}

/// Some event from index `from` on is `ev`.
pub open spec fn recorded(events: Seq<PressEvent>, from: int, ev: PressEvent) -> bool {
    exists|m: int| from <= m < events.len() && events[m] == ev
}

/// Applies the primary-button signals: a press takes a widget that no button
/// holds, hovering follows the signal, and each signalled widget is marked
/// for a visual update.
pub fn apply_interactions(
    ws: &mut Vec<ButtonQuery>,
    interactions: &Vec<(Entity, Interaction)>,
    events: &mut Vec<PressEvent>,
    visual: &mut Vec<Entity>,
)
    requires
        entities_unique(old(ws)@),
    ensures
        final(ws)@.len() == old(ws)@.len(),
        forall|k: int| 0 <= k < old(ws)@.len() ==> only_internal_changed(old(ws)@[k], #[trigger] final(ws)@[k]),
        forall|k: int| 0 <= k < old(ws)@.len()
            ==> (#[trigger] final(ws)@[k]).internal_state == internal_after_signals(old(ws)@[k], interactions@),
        forall|k: int| 0 <= k < old(ws)@.len() && old(ws)@[k].internal_state.pressing.is_none()
            && press_signalled(interactions@, #[trigger] old(ws)@[k].entity)
            ==> recorded(final(events)@, old(events)@.len() as int, left_press(old(ws)@[k].entity))
                && final(visual)@.contains(old(ws)@[k].entity),
        holds_kept(old(ws)@, final(ws)@),
        final(events)@.len() >= old(events)@.len(),
        forall|i: int| 0 <= i < old(events)@.len() ==> final(events)@[i] == old(events)@[i],
        forall|i: int| old(events)@.len() <= i < final(events)@.len()
            ==> fresh_press(old(ws)@, final(ws)@, #[trigger] final(events)@[i]),
        forall|v: Entity| #[trigger] final(visual)@.contains(v)
            ==> old(visual)@.contains(v) || exists|i: int| 0 <= i < interactions@.len() && interactions@[i].0 == v,
        final(visual)@.len() >= old(visual)@.len(),
        forall|t: int| 0 <= t < old(visual)@.len() ==> final(visual)@[t] == old(visual)@[t],
        forall|i: int, k: int| 0 <= i < interactions@.len() && 0 <= k < old(ws)@.len()
            && #[trigger] old(ws)@[k].entity == (#[trigger] interactions@[i]).0
            && interactions@[i].1 != Interaction::Pressed ==> final(visual)@.contains(interactions@[i].0),
{
    let ghost ws0 = ws@;
    let ghost ev0 = events@;
    let ghost vis0 = visual@;
    let mut i: usize = 0;
    proof {
        assert forall|x: Entity| !press_signalled(interactions@.subrange(0, 0), x) by {}
    }
    while i < interactions.len()
        invariant
            i <= interactions@.len(),
            entities_unique(ws0),
            ws@.len() == ws0.len(),
            forall|k: int| 0 <= k < ws0.len() ==> only_internal_changed(ws0[k], #[trigger] ws@[k]),
            forall|k: int| 0 <= k < ws0.len()
                ==> (#[trigger] ws@[k]).internal_state == internal_after_signals(ws0[k], interactions@.subrange(0, i as int)),
            forall|k: int| 0 <= k < ws0.len() && ws0[k].internal_state.pressing.is_none()
                && press_signalled(interactions@.subrange(0, i as int), #[trigger] ws0[k].entity)
                ==> recorded(events@, ev0.len() as int, left_press(ws0[k].entity)) && visual@.contains(ws0[k].entity),
            holds_kept(ws0, ws@),
            events@.len() >= ev0.len(),
            forall|j: int| 0 <= j < ev0.len() ==> events@[j] == ev0[j],
            forall|j: int| ev0.len() <= j < events@.len() ==> fresh_press(ws0, ws@, #[trigger] events@[j]),
            forall|v: Entity| #[trigger] visual@.contains(v)
                ==> vis0.contains(v) || exists|j: int| 0 <= j < interactions@.len() && interactions@[j].0 == v,
            visual@.len() >= vis0.len(),
            forall|t: int| 0 <= t < vis0.len() ==> visual@[t] == vis0[t],
            forall|j: int, k: int| 0 <= j < i && 0 <= k < ws0.len()
                && #[trigger] ws0[k].entity == (#[trigger] interactions@[j]).0
                && interactions@[j].1 != Interaction::Pressed ==> visual@.contains(interactions@[j].0),
        decreases interactions@.len() - i,
    {
        let (e, interaction) = interactions[i];
        let ghost vis1 = visual@;
        let ghost ws1 = ws@;
        let ghost ev1 = events@;
        let ghost pre = interactions@.subrange(0, i as int);
        let ghost post = interactions@.subrange(0, i + 1);
        proof {
            assert(post.drop_last() =~= pre);
            assert(post.last() == (e, interaction));
            assert forall|x: Entity| #[trigger] press_signalled(post, x)
                <==> press_signalled(pre, x) || (x == e && interaction == Interaction::Pressed) by {
                if press_signalled(post, x) {
                    let q = choose|q: int| 0 <= q < post.len() && post[q] == (x, Interaction::Pressed);
                    if q < i {
                        assert(pre[q] == post[q]);
                    }
                }
                if press_signalled(pre, x) {
                    let q = choose|q: int| 0 <= q < pre.len() && pre[q] == (x, Interaction::Pressed);
                    assert(post[q] == pre[q]);
                }
                if x == e && interaction == Interaction::Pressed {
                    assert(post[i as int] == (x, Interaction::Pressed));
                }
            }
        }
        let found = find_widget(ws, e);
        proof {
            if found is None {
                assert forall|kk: int| 0 <= kk < ws0.len() implies ws0[kk].entity != e by {
                    assert(ws@[kk].entity == ws0[kk].entity);
                }
            }
        }
        if let Some(k) = found {
            match interaction {
                Interaction::Pressed => {
                    if ws[k].internal_state.pressing.is_none() {
                        ws[k].internal_state.pressing = Some(MouseButton::Left);
                        let ev = PressEvent { entity: e, button: MouseButton::Left, is_press: true };
                        events.push(ev);
                        visual.push(e);
                        proof {
                            assert(ws@[k as int].entity == e);
                            assert forall|j: int| ev0.len() <= j < events@.len()
                                implies fresh_press(ws0, ws@, #[trigger] events@[j]) by {
                                if j < ev1.len() {
                                    assert(fresh_press(ws0, ws1, ev1[j]));
                                    let kk = choose|kk: int| 0 <= kk < ws1.len() && #[trigger] ws1[kk].entity == ev1[j].entity
                                        && ws0[kk].internal_state.pressing.is_none()
                                        && ws1[kk].internal_state.pressing == Some(ev1[j].button);
                                    assert(ws@[kk].entity == ev1[j].entity);
                                } else {
                                    assert(events@[j] == ev);
                                    assert(ws@[k as int].entity == ev.entity);
                                }
                            }
                        }
                    }
                },
                Interaction::Hovered => {
                    ws[k].internal_state.hovering = true;
                    visual.push(e);
                },
                Interaction::Idle => {
                    ws[k].internal_state.hovering = false;
                    visual.push(e);
                },
            }
            proof {
                assert forall|v: Entity| #[trigger] visual@.contains(v)
                    implies vis0.contains(v) || exists|j: int| 0 <= j < interactions@.len() && interactions@[j].0 == v by {
                    if !vis1.contains(v) {
                        assert(v == e);
                        assert(interactions@[i as int].0 == v);
                    }
                }
                assert forall|j: int| ev0.len() <= j < events@.len()
                    implies fresh_press(ws0, ws@, #[trigger] events@[j]) by {
                    if j < ev1.len() {
                        assert(fresh_press(ws0, ws1, ev1[j]));
                        let kk = choose|kk: int| 0 <= kk < ws1.len() && #[trigger] ws1[kk].entity == ev1[j].entity
                            && ws0[kk].internal_state.pressing.is_none()
                            && ws1[kk].internal_state.pressing == Some(ev1[j].button);
                        assert(ws@[kk].entity == ev1[j].entity);
                    }
                }
            }
        }
        proof {
            assert forall|j: int, kk: int| 0 <= j < i + 1 && 0 <= kk < ws0.len()
                && #[trigger] ws0[kk].entity == (#[trigger] interactions@[j]).0
                && interactions@[j].1 != Interaction::Pressed implies visual@.contains(interactions@[j].0) by {
                if j < i {
                    let q = choose|q: int| 0 <= q < vis1.len() && vis1[q] == interactions@[j].0;
                    assert(visual@[q] == vis1[q]);
                } else {
                    assert(found is Some);
                    assert(visual@.len() == vis1.len() + 1);
                    assert(visual@[vis1.len() as int] == e);
                }
            }
            assert forall|kk: int| 0 <= kk < ws0.len()
                implies (#[trigger] ws@[kk]).internal_state == internal_after_signals(ws0[kk], post) by {
                assert(ws1[kk].internal_state.pressing == pressing_after_signals(ws0[kk], pre));
                if ws0[kk].entity != e {
                    assert(ws@[kk] == ws1[kk]);
                }
            }
            assert forall|kk: int| 0 <= kk < ws0.len() && ws0[kk].internal_state.pressing.is_none()
                && press_signalled(post, #[trigger] ws0[kk].entity)
                implies recorded(events@, ev0.len() as int, left_press(ws0[kk].entity)) && visual@.contains(ws0[kk].entity) by {
                let want = left_press(ws0[kk].entity);
                if press_signalled(pre, ws0[kk].entity) {
                    let m = choose|m: int| ev0.len() <= m < ev1.len() && ev1[m] == want;
                    assert(events@[m] == ev1[m]);
                    let p = choose|p: int| 0 <= p < vis1.len() && vis1[p] == ws0[kk].entity;
                    assert(visual@[p] == vis1[p]);
                } else {
                    assert(ws0[kk].entity == e);
                    assert(ws1[kk].internal_state.pressing.is_none());
                    assert(events@[events@.len() - 1] == want);
                    assert(visual@[vis1.len() as int] == e);
                }
            }
        }
        i = i + 1;
    }
    proof {
        assert(interactions@.subrange(0, interactions@.len() as int) =~= interactions@);
    }
}


/// `bs[p]` is the first button in `bs` other than the left one.
pub open spec fn first_other_at(bs: Seq<MouseButton>, p: int) -> bool {
    &&& 0 <= p < bs.len()
    &&& bs[p] != MouseButton::Left
    &&& forall|q: int| 0 <= q < p ==> bs[q] == MouseButton::Left
}

/// The first button of `bs` other than the left one, if there is one.
pub open spec fn first_other(bs: Seq<MouseButton>) -> Option<MouseButton> {
    if exists|p: int| first_other_at(bs, p) {
        Some(bs[choose|p: int| first_other_at(bs, p)])
    } else {
        None
    }
}

proof fn lemma_first_other(bs: Seq<MouseButton>, p: int)
    requires
        first_other_at(bs, p),
    ensures
        first_other(bs) == Some(bs[p]),
{
    let q = choose|q: int| first_other_at(bs, q);
    if q < p {
        assert(bs[q] == MouseButton::Left);
    } else if p < q {
        assert(bs[p] == MouseButton::Left);
    }
}

/// The first button pressed this frame other than the left one.
pub fn first_other_button(bs: &Vec<MouseButton>) -> (r: Option<MouseButton>)
    ensures
        r == first_other(bs@),
{
    let mut i: usize = 0;
    while i < bs.len()
        invariant
            i <= bs@.len(),
            forall|q: int| 0 <= q < i ==> bs@[q] == MouseButton::Left,
        decreases bs@.len() - i,
    {
        if bs[i] != MouseButton::Left {
            proof {
                lemma_first_other(bs@, i as int);
            }
            return Some(bs[i]);
        }
        i = i + 1;
    }
    assert(!exists|p: int| first_other_at(bs@, p));
    None
}

/// A widget that no button holds and that the pointer is over is taken by `b`, if any.
pub open spec fn taken_by(w: ButtonQuery, b: Option<MouseButton>) -> bool {
    w.internal_state.pressing.is_none() && w.internal_state.hovering && b.is_some()
}

/// The widget after a press of `b`, the first button other than the left one.
pub open spec fn after_others(w: ButtonQuery, b: Option<MouseButton>) -> ButtonQuery {
    if taken_by(w, b) {
        ButtonQuery { internal_state: ButtonInternalState { pressing: b, hovering: w.internal_state.hovering }, ..w }
    } else {
        w
    }
}

/// A press of `b` on `e`.
pub open spec fn press_of(e: Entity, b: MouseButton) -> PressEvent {
    PressEvent { entity: e, button: b, is_press: true }
}

/// Presses of buttons other than the left one: the first such button takes
/// every hovered widget that no button holds yet, records the press and
/// marks the widget for a visual update.
pub fn press_other_buttons(
    ws: &mut Vec<ButtonQuery>,
    just_pressed: &Vec<MouseButton>,
    events: &mut Vec<PressEvent>,
    visual: &mut Vec<Entity>,
)
    ensures
        final(ws)@.len() == old(ws)@.len(),
        forall|k: int| 0 <= k < old(ws)@.len()
            ==> #[trigger] final(ws)@[k] == after_others(old(ws)@[k], first_other(just_pressed@)),
        final(events)@.len() >= old(events)@.len(),
        forall|i: int| 0 <= i < old(events)@.len() ==> final(events)@[i] == old(events)@[i],
        forall|i: int| old(events)@.len() <= i < final(events)@.len() ==> exists|k: int|
            0 <= k < old(ws)@.len() && taken_by(old(ws)@[k], first_other(just_pressed@))
                && #[trigger] final(events)@[i] == press_of(old(ws)@[k].entity, first_other(just_pressed@).unwrap()),
        forall|k: int| 0 <= k < old(ws)@.len() && #[trigger] taken_by(old(ws)@[k], first_other(just_pressed@))
            ==> recorded(final(events)@, old(events)@.len() as int, press_of(old(ws)@[k].entity, first_other(just_pressed@).unwrap()))
                && final(visual)@.contains(old(ws)@[k].entity),
        final(visual)@.len() >= old(visual)@.len(),
        forall|t: int| 0 <= t < old(visual)@.len() ==> final(visual)@[t] == old(visual)@[t],
{
    let ghost ws0 = ws@;
    let ghost ev0 = events@;
    let ghost vis0 = visual@;
    let fo = first_other_button(just_pressed);
    if let Some(b) = fo {
        let mut k: usize = 0;
        while k < ws.len()
            invariant
                fo == Some(b),
                fo == first_other(just_pressed@),
                k <= ws@.len(),
                ws@.len() == ws0.len(),
                forall|q: int| 0 <= q < k ==> #[trigger] ws@[q] == after_others(ws0[q], fo),
                forall|q: int| k <= q < ws0.len() ==> #[trigger] ws@[q] == ws0[q],
                events@.len() >= ev0.len(),
                forall|i: int| 0 <= i < ev0.len() ==> events@[i] == ev0[i],
                forall|i: int| ev0.len() <= i < events@.len() ==> exists|q: int|
                    0 <= q < ws0.len() && taken_by(ws0[q], fo) && #[trigger] events@[i] == press_of(ws0[q].entity, b),
                forall|q: int| 0 <= q < k && #[trigger] taken_by(ws0[q], fo)
                    ==> recorded(events@, ev0.len() as int, press_of(ws0[q].entity, b)) && visual@.contains(ws0[q].entity),
                visual@.len() >= vis0.len(),
                forall|t: int| 0 <= t < vis0.len() ==> visual@[t] == vis0[t],
            decreases ws0.len() - k,
        {
            let ghost ev1 = events@;
            let ghost vis1 = visual@;
            if ws[k].internal_state.pressing.is_none() && ws[k].internal_state.hovering {
                let e = ws[k].entity;
                ws[k].internal_state.pressing = Some(b);
                events.push(PressEvent { entity: e, button: b, is_press: true });
                visual.push(e);
                proof {
                    assert(events@[ev1.len() as int] == press_of(ws0[k as int].entity, b));
                    assert(visual@[vis1.len() as int] == e);
                    assert forall|i: int| ev0.len() <= i < events@.len() implies exists|q: int|
                        0 <= q < ws0.len() && taken_by(ws0[q], fo) && #[trigger] events@[i] == press_of(ws0[q].entity, b) by {
                        if i < ev1.len() {
                            assert(events@[i] == ev1[i]);
                        } else {
                            assert(taken_by(ws0[k as int], fo));
                        }
                    }
                    assert forall|q: int| 0 <= q < k + 1 && #[trigger] taken_by(ws0[q], fo)
                        implies recorded(events@, ev0.len() as int, press_of(ws0[q].entity, b)) && visual@.contains(ws0[q].entity) by {
                        if q < k {
                            let m = choose|m: int| ev0.len() <= m < ev1.len() && ev1[m] == press_of(ws0[q].entity, b);
                            assert(events@[m] == ev1[m]);
                            let p = choose|p: int| 0 <= p < vis1.len() && vis1[p] == ws0[q].entity;
                            assert(visual@[p] == vis1[p]);
                        }
                    }
                }
            }
            k = k + 1;
        }
    } else {
        assert forall|q: int| 0 <= q < ws0.len() implies #[trigger] ws@[q] == after_others(ws0[q], first_other(just_pressed@)) by {}
    }
}

/// The button that holds the widget is among `released`.
pub open spec fn released_by(w: ButtonQuery, released: Seq<MouseButton>) -> bool {
    match w.internal_state.pressing {
        Some(b) => released.contains(b),
        None => false,
    }
}

/// The widget after the releases: a released button lets go of it.
pub open spec fn after_releases(w: ButtonQuery, released: Seq<MouseButton>) -> ButtonQuery {
    if released_by(w, released) {
        ButtonQuery { internal_state: ButtonInternalState { pressing: None, hovering: w.internal_state.hovering }, ..w }
    } else {
        w
    }
}

/// A release of `b` on `e`.
pub open spec fn release_of(e: Entity, b: MouseButton) -> PressEvent {
    PressEvent { entity: e, button: b, is_press: false }
}

/// Whether `b` is among `bs`.
pub fn contains_button(bs: &Vec<MouseButton>, b: MouseButton) -> (r: bool)
    ensures
        r == bs@.contains(b),
{
    let mut i: usize = 0;
    while i < bs.len()
        invariant
            i <= bs@.len(),
            forall|q: int| 0 <= q < i ==> bs@[q] != b,
        decreases bs@.len() - i,
    {
        if bs[i] == b {
            assert(bs@[i as int] == b);
            return true;
        }
        i = i + 1;
    }
    false
}

/// Releases: every widget held by a released button is let go, the release
/// is recorded and the widget is marked for a visual update.
pub fn apply_releases(
    ws: &mut Vec<ButtonQuery>,
    just_released: &Vec<MouseButton>,
    events: &mut Vec<PressEvent>,
    visual: &mut Vec<Entity>,
)
    ensures
        final(ws)@.len() == old(ws)@.len(),
        forall|k: int| 0 <= k < old(ws)@.len() ==> #[trigger] final(ws)@[k] == after_releases(old(ws)@[k], just_released@),
        final(events)@.len() >= old(events)@.len(),
        forall|i: int| 0 <= i < old(events)@.len() ==> final(events)@[i] == old(events)@[i],
        forall|i: int| old(events)@.len() <= i < final(events)@.len() ==> exists|k: int|
            0 <= k < old(ws)@.len() && released_by(old(ws)@[k], just_released@)
                && #[trigger] final(events)@[i] == release_of(old(ws)@[k].entity, old(ws)@[k].internal_state.pressing.unwrap()),
        forall|k: int| 0 <= k < old(ws)@.len() && #[trigger] released_by(old(ws)@[k], just_released@)
            ==> recorded(final(events)@, old(events)@.len() as int, release_of(old(ws)@[k].entity, old(ws)@[k].internal_state.pressing.unwrap()))
                && final(visual)@.contains(old(ws)@[k].entity),
        final(visual)@.len() >= old(visual)@.len(),
        forall|t: int| 0 <= t < old(visual)@.len() ==> final(visual)@[t] == old(visual)@[t],
{
    let ghost ws0 = ws@;
    let ghost ev0 = events@;
    let ghost vis0 = visual@;
    let ghost jr = just_released@;
    let mut k: usize = 0;
    while k < ws.len()
        invariant
            jr == just_released@,
            k <= ws@.len(),
            ws@.len() == ws0.len(),
            forall|q: int| 0 <= q < k ==> #[trigger] ws@[q] == after_releases(ws0[q], jr),
            forall|q: int| k <= q < ws0.len() ==> #[trigger] ws@[q] == ws0[q],
            events@.len() >= ev0.len(),
            forall|i: int| 0 <= i < ev0.len() ==> events@[i] == ev0[i],
            forall|i: int| ev0.len() <= i < events@.len() ==> exists|q: int|
                0 <= q < ws0.len() && released_by(ws0[q], jr)
                    && #[trigger] events@[i] == release_of(ws0[q].entity, ws0[q].internal_state.pressing.unwrap()),
            forall|q: int| 0 <= q < k && #[trigger] released_by(ws0[q], jr)
                ==> recorded(events@, ev0.len() as int, release_of(ws0[q].entity, ws0[q].internal_state.pressing.unwrap()))
                    && visual@.contains(ws0[q].entity),
            visual@.len() >= vis0.len(),
            forall|t: int| 0 <= t < vis0.len() ==> visual@[t] == vis0[t],
        decreases ws0.len() - k,
    {
        let ghost ev1 = events@;
        let ghost vis1 = visual@;
        if let Some(b) = ws[k].internal_state.pressing {
            if contains_button(just_released, b) {
                let e = ws[k].entity;
                ws[k].internal_state.pressing = None;
                events.push(PressEvent { entity: e, button: b, is_press: false });
                visual.push(e);
                proof {
                    assert(released_by(ws0[k as int], jr));
                    assert(events@[ev1.len() as int] == release_of(e, b));
                    assert(visual@[vis1.len() as int] == e);
                    assert forall|i: int| ev0.len() <= i < events@.len() implies exists|q: int|
                        0 <= q < ws0.len() && released_by(ws0[q], jr)
                            && #[trigger] events@[i] == release_of(ws0[q].entity, ws0[q].internal_state.pressing.unwrap()) by {
                        if i < ev1.len() {
                            assert(events@[i] == ev1[i]);
                        }
                    }
                    assert forall|q: int| 0 <= q < k + 1 && #[trigger] released_by(ws0[q], jr)
                        implies recorded(events@, ev0.len() as int, release_of(ws0[q].entity, ws0[q].internal_state.pressing.unwrap()))
                            && visual@.contains(ws0[q].entity) by {
                        if q < k {
                            let m = choose|m: int| ev0.len() <= m < ev1.len()
                                && ev1[m] == release_of(ws0[q].entity, ws0[q].internal_state.pressing.unwrap());
                            assert(events@[m] == ev1[m]);
                            let p = choose|p: int| 0 <= p < vis1.len() && vis1[p] == ws0[q].entity;
                            assert(visual@[p] == vis1[p]);
                        }
                    }
                }
            }
        }
        k = k + 1;
    }
}

/// Event `j` is one that widget `w` acts on.
pub open spec fn acts_at(w: ButtonQuery, events: Seq<PressEvent>, j: int) -> bool {
    &&& 0 <= j < events.len()
    &&& events[j].entity == w.entity
    &&& click_qualifies(w, events[j].button, events[j].is_press)
}

/// Event `j` is the first one that widget `w` acts on.
pub open spec fn first_act_at(w: ButtonQuery, events: Seq<PressEvent>, j: int) -> bool {
    acts_at(w, events, j) && forall|q: int| 0 <= q < j ==> !acts_at(w, events, q)
}

/// Some recorded event is one that widget `w` acts on.
pub open spec fn acts_on(w: ButtonQuery, events: Seq<PressEvent>) -> bool {
    exists|j: int| acts_at(w, events, j)
}

/// The first event that widget `w` acts on.
pub open spec fn first_act(w: ButtonQuery, events: Seq<PressEvent>) -> int {
    choose|j: int| first_act_at(w, events, j)
}

proof fn lemma_first_act(w: ButtonQuery, events: Seq<PressEvent>, j: int)
    requires
        first_act_at(w, events, j),
    ensures
        first_act(w, events) == j,
{
    let q = choose|q: int| first_act_at(w, events, q);
    if q < j {
        assert(!acts_at(w, events, q));
    } else if j < q {
        assert(!acts_at(w, events, j));
    }
}

/// The widget after the clicks: one that acts on some event is clicked.
pub open spec fn after_clicks(w: ButtonQuery, events: Seq<PressEvent>) -> ButtonQuery {
    if acts_on(w, events) {
        clicked(w)
    } else {
        w
    }
}

pub open spec fn toggle_state_of(w: ButtonQuery) -> Option<bool> {
    match w.toggle {
        Some(t) => Some(t.toggled),
        None => None,
    }
}

/// What the handler of widget `w` is told about its click from the pointer.
pub open spec fn pointer_click(w: ButtonQuery, events: Seq<PressEvent>) -> ButtonClickInfo {
    ButtonClickInfo {
        entity: w.entity,
        name: w.name,
        mouse_button: Some(events[first_act(w, events)].button),
        toggle_state: toggle_state_of(clicked(w)),
    }
}

/// `entry` asks on behalf of widget `w`, a toggle widget of a group, for the
/// rest of its group to be turned off.
pub open spec fn entry_from(w: ButtonQuery, entry: (String, Entity)) -> bool {
    grouped(w) && entry.0@ == group_key(w) && entry.1 == w.entity
}

/// `entry` comes from a widget of `ws` that acts on a recorded event.
pub open spec fn from_clicked(ws: Seq<ButtonQuery>, events: Seq<PressEvent>, entry: (String, Entity)) -> bool {
    exists|k: int| 0 <= k < ws.len() && acts_on(ws[k], events) && entry_from(ws[k], entry)
}

/// Turns recorded presses and releases into clicks: each widget that acts on
/// a recorded event gets exactly one click, from the first such event; a
/// toggle widget flips, the widget is marked for a visual update, and a toggle
/// widget of a group asks for the rest of its group to be turned off.
#[verifier::rlimit(100)]
pub fn resolve_clicks(
    ws: &mut Vec<ButtonQuery>,
    events: &Vec<PressEvent>,
    groups: &mut Vec<(String, Entity)>,
    visual: &mut Vec<Entity>,
    clicks: &mut Vec<ButtonClickInfo>,
)
    requires
        entities_unique(old(ws)@),
    ensures
        final(ws)@.len() == old(ws)@.len(),
        forall|k: int| 0 <= k < old(ws)@.len() ==> #[trigger] final(ws)@[k] == after_clicks(old(ws)@[k], events@),
        final(groups)@.len() >= old(groups)@.len(),
        forall|t: int| 0 <= t < old(groups)@.len() ==> final(groups)@[t] == old(groups)@[t],
        forall|t: int| old(groups)@.len() <= t < final(groups)@.len()
            ==> from_clicked(old(ws)@, events@, #[trigger] final(groups)@[t]),
        forall|k: int| 0 <= k < old(ws)@.len() && acts_on(old(ws)@[k], events@) && #[trigger] grouped(old(ws)@[k])
            ==> exists|t: int| old(groups)@.len() <= t < final(groups)@.len() && entry_from(old(ws)@[k], final(groups)@[t]),
        final(visual)@.len() >= old(visual)@.len(),
        forall|t: int| 0 <= t < old(visual)@.len() ==> final(visual)@[t] == old(visual)@[t],
        forall|k: int| 0 <= k < old(ws)@.len() && #[trigger] acts_on(old(ws)@[k], events@)
            ==> final(visual)@.contains(old(ws)@[k].entity),
        final(clicks)@.len() >= old(clicks)@.len(),
        forall|t: int| 0 <= t < old(clicks)@.len() ==> final(clicks)@[t] == old(clicks)@[t],
        forall|c: int| old(clicks)@.len() <= c < final(clicks)@.len() ==> exists|k: int|
            0 <= k < old(ws)@.len() && acts_on(old(ws)@[k], events@)
                && #[trigger] final(clicks)@[c] == pointer_click(old(ws)@[k], events@),
        forall|k: int| 0 <= k < old(ws)@.len() && #[trigger] acts_on(old(ws)@[k], events@) ==> exists|c: int|
            old(clicks)@.len() <= c < final(clicks)@.len() && final(clicks)@[c] == pointer_click(old(ws)@[k], events@)
                && forall|c2: int| old(clicks)@.len() <= c2 < final(clicks)@.len()
                    && (#[trigger] final(clicks)@[c2]).entity == old(ws)@[k].entity ==> c2 == c,
{
    let ghost ws0 = ws@;
    let ghost g0 = groups@;
    let ghost vis0 = visual@;
    let ghost c0 = clicks@;
    let ghost mut owners: Seq<int> = Seq::empty();
    let mut k: usize = 0;
    while k < ws.len()
        invariant
            k <= ws@.len(),
            ws@.len() == ws0.len(),
            entities_unique(ws0),
            forall|q: int| 0 <= q < k ==> #[trigger] ws@[q] == after_clicks(ws0[q], events@),
            forall|q: int| k <= q < ws0.len() ==> #[trigger] ws@[q] == ws0[q],
            groups@.len() >= g0.len(),
            forall|t: int| 0 <= t < g0.len() ==> groups@[t] == g0[t],
            forall|t: int| g0.len() <= t < groups@.len() ==> from_clicked(ws0, events@, #[trigger] groups@[t]),
            forall|q: int| 0 <= q < k && acts_on(ws0[q], events@) && #[trigger] grouped(ws0[q])
                ==> exists|t: int| g0.len() <= t < groups@.len() && entry_from(ws0[q], groups@[t]),
            visual@.len() >= vis0.len(),
            forall|t: int| 0 <= t < vis0.len() ==> visual@[t] == vis0[t],
            forall|q: int| 0 <= q < k && #[trigger] acts_on(ws0[q], events@) ==> visual@.contains(ws0[q].entity),
            clicks@.len() == c0.len() + owners.len(),
            forall|t: int| 0 <= t < c0.len() ==> clicks@[t] == c0[t],
            forall|i: int| 0 <= i < owners.len() ==> 0 <= #[trigger] owners[i] < k && acts_on(ws0[owners[i]], events@)
                && clicks@[c0.len() + i] == pointer_click(ws0[owners[i]], events@),
            forall|i1: int, i2: int| 0 <= i1 < i2 < owners.len() ==> #[trigger] owners[i1] < #[trigger] owners[i2],
            forall|q: int| 0 <= q < k && #[trigger] acts_on(ws0[q], events@) ==> exists|i: int| 0 <= i < owners.len() && owners[i] == q,
        decreases ws0.len() - k,
    {
        let mut j: usize = 0;
        let mut found: Option<usize> = None;
        while j < events.len()
            invariant
                k < ws@.len(),
                ws@.len() == ws0.len(),
                ws@[k as int] == ws0[k as int],
                j <= events@.len(),
                found is None ==> forall|q: int| 0 <= q < j ==> !acts_at(ws0[k as int], events@, q),
                found matches Some(f) ==> first_act_at(ws0[k as int], events@, f as int),
            decreases events@.len() - j,
        {
            if found.is_none() && events[j].entity == ws[k].entity && ws[k].qualifies(&events[j].button, events[j].is_press) {
                found = Some(j);
            }
            j = j + 1;
        }
        let ghost g1 = groups@;
        let ghost vis1 = visual@;
        let ghost cl1 = clicks@;
        let ghost ow1 = owners;
        if let Some(f) = found {
            let ev = events[f];
            proof {
                lemma_first_act(ws0[k as int], events@, f as int);
            }
            let r = ws[k].resolve_click(ev.button, ev.is_press);
            if let Some(info) = r {
                let e = ws[k].entity;
                if ws[k].toggle.is_some() {
                    if let Some(g) = &ws[k].toggle_group {
                        groups.push((g.0.clone(), e));
                    }
                }
                visual.push(e);
                clicks.push(info);
                proof {
                    owners = owners.push(k as int);
                    assert(clicks@[c0.len() + owners.len() - 1] == pointer_click(ws0[k as int], events@));
                    assert(visual@[vis1.len() as int] == e);
                    assert forall|t: int| g0.len() <= t < groups@.len() implies from_clicked(ws0, events@, #[trigger] groups@[t]) by {
                        if t < g1.len() {
                            assert(groups@[t] == g1[t]);
                        } else {
                            assert(acts_at(ws0[k as int], events@, f as int));
                            assert(grouped(ws0[k as int]));
                            assert(entry_from(ws0[k as int], groups@[t]));
                        }
                    }
                    assert forall|q: int| 0 <= q < k + 1 && acts_on(ws0[q], events@) && #[trigger] grouped(ws0[q])
                        implies exists|t: int| g0.len() <= t < groups@.len() && entry_from(ws0[q], groups@[t]) by {
                        if q < k {
                            let t = choose|t: int| g0.len() <= t < g1.len() && entry_from(ws0[q], g1[t]);
                            assert(groups@[t] == g1[t]);
                        } else {
                            assert(entry_from(ws0[q], groups@[g1.len() as int]));
                        }
                    }
                    assert forall|q: int| 0 <= q < k + 1 && #[trigger] acts_on(ws0[q], events@) implies visual@.contains(ws0[q].entity) by {
                        if q < k {
                            let p = choose|p: int| 0 <= p < vis1.len() && vis1[p] == ws0[q].entity;
                            assert(visual@[p] == vis1[p]);
                        }
                    }
                    assert forall|i: int| 0 <= i < owners.len() implies 0 <= #[trigger] owners[i] < k + 1 && acts_on(ws0[owners[i]], events@)
                        && clicks@[c0.len() + i] == pointer_click(ws0[owners[i]], events@) by {
                        if i < owners.len() - 1 {
                            assert(clicks@[c0.len() + i] == cl1[c0.len() + i]);
                        }
                    }
                    assert forall|q: int| 0 <= q < k + 1 && #[trigger] acts_on(ws0[q], events@)
                        implies exists|i: int| 0 <= i < owners.len() && owners[i] == q by {
                        if q == k {
                            assert(owners[owners.len() - 1] == q);
                        } else {
                            let i = choose|i: int| 0 <= i < ow1.len() && ow1[i] == q;
                            assert(owners[i] == ow1[i]);
                        }
                    }
                }
            }
        } else {
            assert(!acts_on(ws0[k as int], events@));
        }
        k = k + 1;
    }
    proof {
        assert forall|c: int| c0.len() <= c < clicks@.len() implies exists|q: int|
            0 <= q < ws0.len() && acts_on(ws0[q], events@) && #[trigger] clicks@[c] == pointer_click(ws0[q], events@) by {
            let i = c - c0.len();
            assert(0 <= owners[i] < ws0.len());
        }
        assert forall|q: int| 0 <= q < ws0.len() && #[trigger] acts_on(ws0[q], events@) implies exists|c: int|
            c0.len() <= c < clicks@.len() && clicks@[c] == pointer_click(ws0[q], events@)
                && forall|c2: int| c0.len() <= c2 < clicks@.len()
                    && (#[trigger] clicks@[c2]).entity == ws0[q].entity ==> c2 == c by {
            let i = choose|i: int| 0 <= i < owners.len() && owners[i] == q;
            let c = c0.len() + i;
            assert forall|c2: int| c0.len() <= c2 < clicks@.len() && (#[trigger] clicks@[c2]).entity == ws0[q].entity
                implies c2 == c by {
                let i2 = c2 - c0.len();
                assert(clicks@[c2].entity == ws0[owners[i2]].entity);
                assert(owners[i2] == q);
                if i2 < i {
                    assert(owners[i2] < owners[i]);
                } else if i < i2 {
                    assert(owners[i] < owners[i2]);
                }
            }
        }
    }
}

/// Whether `e` is among `v`.
pub fn contains_entity(v: &Vec<Entity>, e: Entity) -> (r: bool)
    ensures
        r == v@.contains(e),
{
    let mut i: usize = 0;
    while i < v.len()
        invariant
            i <= v@.len(),
            forall|q: int| 0 <= q < i ==> v@[q] != e,
        decreases v@.len() - i,
    {
        if v[i] == e {
            assert(v@[i as int] == e);
            return true;
        }
        i = i + 1;
    }
    false
}

/// `entry` comes from a widget of `ws` that other code wrote and that is on.
pub open spec fn from_written(ws: Seq<ButtonQuery>, written: Seq<Entity>, entry: (String, Entity)) -> bool {
    exists|k: int| 0 <= k < ws.len() && written.contains(ws[k].entity) && toggled_on(ws[k]) && entry_from(ws[k], entry)
}

/// Toggle widgets that other code wrote this frame are marked for a visual
/// update, and one of a group that is on asks for the rest of its group to be
/// turned off.
pub fn handle_toggle_writes(
    ws: &Vec<ButtonQuery>,
    toggle_changed: &Vec<Entity>,
    groups: &mut Vec<(String, Entity)>,
    visual: &mut Vec<Entity>,
)
    requires
        entities_unique(ws@),
    ensures
        final(groups)@.len() >= old(groups)@.len(),
        forall|t: int| 0 <= t < old(groups)@.len() ==> final(groups)@[t] == old(groups)@[t],
        forall|t: int| old(groups)@.len() <= t < final(groups)@.len()
            ==> from_written(ws@, toggle_changed@, #[trigger] final(groups)@[t]),
        forall|k: int| 0 <= k < ws@.len() && toggle_changed@.contains(ws@[k].entity) && toggled_on(ws@[k]) && #[trigger] grouped(ws@[k])
            ==> exists|t: int| old(groups)@.len() <= t < final(groups)@.len() && entry_from(ws@[k], final(groups)@[t]),
        final(visual)@.len() >= old(visual)@.len(),
        forall|t: int| 0 <= t < old(visual)@.len() ==> final(visual)@[t] == old(visual)@[t],
        forall|k: int| 0 <= k < ws@.len() && toggle_changed@.contains(#[trigger] ws@[k].entity) && ws@[k].toggle.is_some()
            ==> final(visual)@.contains(ws@[k].entity),
{
    let ghost g0 = groups@;
    let ghost vis0 = visual@;
    let ghost tc = toggle_changed@;
    let mut i: usize = 0;
    while i < toggle_changed.len()
        invariant
            i <= tc.len(),
            tc == toggle_changed@,
            entities_unique(ws@),
            groups@.len() >= g0.len(),
            forall|t: int| 0 <= t < g0.len() ==> groups@[t] == g0[t],
            forall|t: int| g0.len() <= t < groups@.len() ==> from_written(ws@, tc, #[trigger] groups@[t]),
            forall|k: int| 0 <= k < ws@.len() && tc.subrange(0, i as int).contains(ws@[k].entity) && toggled_on(ws@[k])
                && #[trigger] grouped(ws@[k]) ==> exists|t: int| g0.len() <= t < groups@.len() && entry_from(ws@[k], groups@[t]),
            visual@.len() >= vis0.len(),
            forall|t: int| 0 <= t < vis0.len() ==> visual@[t] == vis0[t],
            forall|k: int| 0 <= k < ws@.len() && tc.subrange(0, i as int).contains(#[trigger] ws@[k].entity) && ws@[k].toggle.is_some()
                ==> visual@.contains(ws@[k].entity),
        decreases tc.len() - i,
    {
        let e = toggle_changed[i];
        let ghost g1 = groups@;
        let ghost vis1 = visual@;
        let ghost pre = tc.subrange(0, i as int);
        let ghost post = tc.subrange(0, i + 1);
        proof {
            assert forall|x: Entity| #[trigger] post.contains(x) <==> pre.contains(x) || x == e by {
                if post.contains(x) {
                    let q = choose|q: int| 0 <= q < post.len() && post[q] == x;
                    if q < i {
                        assert(pre[q] == x);
                    }
                }
                if pre.contains(x) {
                    let q = choose|q: int| 0 <= q < pre.len() && pre[q] == x;
                    assert(post[q] == x);
                }
                if x == e {
                    assert(post[i as int] == x);
                }
            }
        }
        let found = find_widget(ws, e);
        if let Some(k) = found {
            if let Some(tb) = &ws[k].toggle {
                if tb.toggled {
                    if let Some(g) = &ws[k].toggle_group {
                        groups.push((g.0.clone(), e));
                        proof {
                            assert(tc.contains(e)) by {
                                assert(tc[i as int] == e);
                            }
                            assert(entry_from(ws@[k as int], groups@[g1.len() as int]));
                        }
                    }
                }
                if !contains_entity(visual, e) {
                    visual.push(e);
                    assert(visual@[vis1.len() as int] == e);
                }
            }
        }
        proof {
            assert forall|t: int| g0.len() <= t < groups@.len() implies from_written(ws@, tc, #[trigger] groups@[t]) by {
                if t < g1.len() {
                    assert(groups@[t] == g1[t]);
                } else {
                    let k = found.unwrap();
                    assert(tc[i as int] == e);
                    assert(tc.contains(ws@[k as int].entity));
                }
            }
            assert forall|kk: int| 0 <= kk < ws@.len() && post.contains(ws@[kk].entity) && toggled_on(ws@[kk])
                && #[trigger] grouped(ws@[kk]) implies exists|t: int| g0.len() <= t < groups@.len() && entry_from(ws@[kk], groups@[t]) by {
                if pre.contains(ws@[kk].entity) {
                    let t = choose|t: int| g0.len() <= t < g1.len() && entry_from(ws@[kk], g1[t]);
                    assert(groups@[t] == g1[t]);
                } else {
                    assert(found == Some(kk as usize));
                    assert(entry_from(ws@[kk], groups@[g1.len() as int]));
                }
            }
            assert forall|kk: int| 0 <= kk < ws@.len() && post.contains(#[trigger] ws@[kk].entity) && ws@[kk].toggle.is_some()
                implies visual@.contains(ws@[kk].entity) by {
                if pre.contains(ws@[kk].entity) {
                    let p = choose|p: int| 0 <= p < vis1.len() && vis1[p] == ws@[kk].entity;
                    assert(visual@[p] == vis1[p]);
                } else {
                    assert(found == Some(kk as usize));
                    if vis1.contains(e) {
                        let p = choose|p: int| 0 <= p < vis1.len() && vis1[p] == e;
                        assert(visual@[p] == vis1[p]);
                    }
                }
            }
        }
        i = i + 1;
    }
    proof {
        assert(tc.subrange(0, tc.len() as int) =~= tc);
    }
}

/// Some other widget asked for the rest of group `g` to be turned off.
pub open spec fn other_trigger(groups: Seq<(String, Entity)>, g: Seq<char>, e: Entity) -> bool {
    exists|t: int| 0 <= t < groups.len() && groups[t].0@ == g && groups[t].1 != e
}

/// A member of a group that is on while another member asked for the rest to be turned off.
pub open spec fn turned_off_by(w: ButtonQuery, groups: Seq<(String, Entity)>) -> bool {
    grouped(w) && toggled_on(w) && other_trigger(groups, group_key(w), w.entity)
}

/// The widget after its group's requests: a member turned off is off.
pub open spec fn after_group(w: ButtonQuery, groups: Seq<(String, Entity)>) -> ButtonQuery {
    if turned_off_by(w, groups) {
        ButtonQuery { toggle: Some(ToggleButton { toggled: false }), ..w }
    } else {
        w
    }
}

/// What the handler of a member turned off by its group is told.
pub open spec fn off_click(w: ButtonQuery) -> ButtonClickInfo {
    ButtonClickInfo { entity: w.entity, name: w.name, mouse_button: None, toggle_state: Some(false) }
}

/// Turns off every member of a group that is on while another member asked
/// for the rest to be turned off; each one is marked for a visual update and
/// its handler gets exactly one click, with no button and the new state.
#[verifier::rlimit(100)]
pub fn untoggle_group_members(
    ws: &mut Vec<ButtonQuery>,
    groups: &Vec<(String, Entity)>,
    visual: &mut Vec<Entity>,
    clicks: &mut Vec<ButtonClickInfo>,
)
    requires
        entities_unique(old(ws)@),
    ensures
        final(ws)@.len() == old(ws)@.len(),
        forall|k: int| 0 <= k < old(ws)@.len() ==> #[trigger] final(ws)@[k] == after_group(old(ws)@[k], groups@),
        final(visual)@.len() >= old(visual)@.len(),
        forall|t: int| 0 <= t < old(visual)@.len() ==> final(visual)@[t] == old(visual)@[t],
        forall|k: int| 0 <= k < old(ws)@.len() && #[trigger] turned_off_by(old(ws)@[k], groups@)
            ==> final(visual)@.contains(old(ws)@[k].entity),
        final(clicks)@.len() >= old(clicks)@.len(),
        forall|t: int| 0 <= t < old(clicks)@.len() ==> final(clicks)@[t] == old(clicks)@[t],
        forall|c: int| old(clicks)@.len() <= c < final(clicks)@.len() ==> exists|k: int|
            0 <= k < old(ws)@.len() && turned_off_by(old(ws)@[k], groups@) && #[trigger] final(clicks)@[c] == off_click(old(ws)@[k]),
        forall|k: int| 0 <= k < old(ws)@.len() && #[trigger] turned_off_by(old(ws)@[k], groups@) ==> exists|c: int|
            old(clicks)@.len() <= c < final(clicks)@.len() && final(clicks)@[c] == off_click(old(ws)@[k])
                && forall|c2: int| old(clicks)@.len() <= c2 < final(clicks)@.len()
                    && (#[trigger] final(clicks)@[c2]).entity == old(ws)@[k].entity ==> c2 == c,
{
    let ghost ws0 = ws@;
    let ghost vis0 = visual@;
    let ghost c0 = clicks@;
    let ghost mut owners: Seq<int> = Seq::empty();
    let mut m: usize = 0;
    while m < ws.len()
        invariant
            m <= ws@.len(),
            ws@.len() == ws0.len(),
            entities_unique(ws0),
            forall|q: int| 0 <= q < m ==> #[trigger] ws@[q] == after_group(ws0[q], groups@),
            forall|q: int| m <= q < ws0.len() ==> #[trigger] ws@[q] == ws0[q],
            visual@.len() >= vis0.len(),
            forall|t: int| 0 <= t < vis0.len() ==> visual@[t] == vis0[t],
            forall|q: int| 0 <= q < m && #[trigger] turned_off_by(ws0[q], groups@) ==> visual@.contains(ws0[q].entity),
            clicks@.len() == c0.len() + owners.len(),
            forall|t: int| 0 <= t < c0.len() ==> clicks@[t] == c0[t],
            forall|i: int| 0 <= i < owners.len() ==> 0 <= #[trigger] owners[i] < m && turned_off_by(ws0[owners[i]], groups@)
                && clicks@[c0.len() + i] == off_click(ws0[owners[i]]),
            forall|i1: int, i2: int| 0 <= i1 < i2 < owners.len() ==> #[trigger] owners[i1] < #[trigger] owners[i2],
            forall|q: int| 0 <= q < m && #[trigger] turned_off_by(ws0[q], groups@) ==> exists|i: int| 0 <= i < owners.len() && owners[i] == q,
        decreases ws0.len() - m,
    {
        let ghost vis1 = visual@;
        let ghost cl1 = clicks@;
        let ghost ow1 = owners;
        let on = match &ws[m].toggle {
            Some(tb) => tb.toggled,
            None => false,
        };
        let mut hit = false;
        if on {
            if let Some(g) = &ws[m].toggle_group {
                let e = ws[m].entity;
                let mut t: usize = 0;
                while t < groups.len()
                    invariant
                        t <= groups@.len(),
                        hit == exists|q: int| 0 <= q < t && groups@[q].0@ == g.0@ && groups@[q].1 != e,
                    decreases groups@.len() - t,
                {
                    if groups[t].1 != e && groups[t].0 == g.0 {
                        hit = true;
                    }
                    t = t + 1;
                }
            }
        }
        assert(hit == turned_off_by(ws0[m as int], groups@));
        if hit {
            let e = ws[m].entity;
            let name = clone_name(&ws[m].name);
            ws[m].toggle = Some(ToggleButton { toggled: false });
            visual.push(e);
            clicks.push(ButtonClickInfo { entity: e, name, mouse_button: None, toggle_state: Some(false) });
            proof {
                owners = owners.push(m as int);
                assert(visual@[vis1.len() as int] == e);
                assert(clicks@[c0.len() + owners.len() - 1] == off_click(ws0[m as int]));
                assert forall|q: int| 0 <= q < m + 1 && #[trigger] turned_off_by(ws0[q], groups@)
                    implies visual@.contains(ws0[q].entity) by {
                    if q < m {
                        let p = choose|p: int| 0 <= p < vis1.len() && vis1[p] == ws0[q].entity;
                        assert(visual@[p] == vis1[p]);
                    }
                }
                assert forall|i: int| 0 <= i < owners.len() implies 0 <= #[trigger] owners[i] < m + 1
                    && turned_off_by(ws0[owners[i]], groups@) && clicks@[c0.len() + i] == off_click(ws0[owners[i]]) by {
                    if i < owners.len() - 1 {
                        assert(clicks@[c0.len() + i] == cl1[c0.len() + i]);
                    }
                }
                assert forall|q: int| 0 <= q < m + 1 && #[trigger] turned_off_by(ws0[q], groups@)
                    implies exists|i: int| 0 <= i < owners.len() && owners[i] == q by {
                    if q == m {
                        assert(owners[owners.len() - 1] == q);
                    } else {
                        let i = choose|i: int| 0 <= i < ow1.len() && ow1[i] == q;
                        assert(owners[i] == ow1[i]);
                    }
                }
            }
        }
        m = m + 1;
    }
    proof {
        assert forall|c: int| c0.len() <= c < clicks@.len() implies exists|q: int|
            0 <= q < ws0.len() && turned_off_by(ws0[q], groups@) && #[trigger] clicks@[c] == off_click(ws0[q]) by {
            let i = c - c0.len();
            assert(0 <= owners[i] < ws0.len());
        }
        assert forall|q: int| 0 <= q < ws0.len() && #[trigger] turned_off_by(ws0[q], groups@) implies exists|c: int|
            c0.len() <= c < clicks@.len() && clicks@[c] == off_click(ws0[q])
                && forall|c2: int| c0.len() <= c2 < clicks@.len()
                    && (#[trigger] clicks@[c2]).entity == ws0[q].entity ==> c2 == c by {
            let i = choose|i: int| 0 <= i < owners.len() && owners[i] == q;
            let c = c0.len() + i;
            assert forall|c2: int| c0.len() <= c2 < clicks@.len() && (#[trigger] clicks@[c2]).entity == ws0[q].entity
                implies c2 == c by {
                let i2 = c2 - c0.len();
                assert(clicks@[c2].entity == ws0[owners[i2]].entity);
                assert(owners[i2] == q);
                if i2 < i {
                    assert(owners[i2] < owners[i]);
                } else if i < i2 {
                    assert(owners[i] < owners[i2]);
                }
            }
        }
    }
}

/// Recomputes the visual state of every widget marked for it.
pub fn refresh_visuals(ws: &mut Vec<ButtonQuery>, visual: &Vec<Entity>)
    ensures
        final(ws)@.len() == old(ws)@.len(),
        forall|k: int| 0 <= k < old(ws)@.len() ==> (#[trigger] final(ws)@[k]) == (ButtonQuery {
            visual_state: final(ws)@[k].visual_state,
            ..old(ws)@[k]
        }),
        forall|k: int| 0 <= k < old(ws)@.len() && !visual@.contains(old(ws)@[k].entity)
            ==> #[trigger] final(ws)@[k] == old(ws)@[k],
        forall|k: int| 0 <= k < old(ws)@.len() && visual@.contains(old(ws)@[k].entity)
            ==> (#[trigger] final(ws)@[k]).visual_state == visual_state_of(final(ws)@[k]),
{
    let ghost ws0 = ws@;
    let mut i: usize = 0;
    while i < visual.len()
        invariant
            i <= visual@.len(),
            ws@.len() == ws0.len(),
            forall|k: int| 0 <= k < ws0.len() ==> (#[trigger] ws@[k]) == (ButtonQuery {
                visual_state: ws@[k].visual_state,
                ..ws0[k]
            }),
            forall|k: int| 0 <= k < ws0.len() && !(exists|j: int| 0 <= j < i && visual@[j] == ws0[k].entity)
                ==> #[trigger] ws@[k] == ws0[k],
            forall|k: int| 0 <= k < ws0.len() && (exists|j: int| 0 <= j < i && visual@[j] == ws0[k].entity)
                ==> (#[trigger] ws@[k]).visual_state == visual_state_of(ws@[k]),
        decreases visual@.len() - i,
    {
        let e = visual[i];
        let mut k: usize = 0;
        while k < ws.len()
            invariant
                i < visual@.len(),
                e == visual@[i as int],
                k <= ws@.len(),
                ws@.len() == ws0.len(),
                forall|q: int| 0 <= q < ws0.len() ==> (#[trigger] ws@[q]) == (ButtonQuery {
                    visual_state: ws@[q].visual_state,
                    ..ws0[q]
                }),
                forall|q: int| 0 <= q < ws0.len() && !(exists|j: int| 0 <= j < i && visual@[j] == ws0[q].entity)
                    && !(q < k && ws0[q].entity == e) ==> #[trigger] ws@[q] == ws0[q],
                forall|q: int| 0 <= q < ws0.len() && ((exists|j: int| 0 <= j < i && visual@[j] == ws0[q].entity)
                    || (q < k && ws0[q].entity == e)) ==> (#[trigger] ws@[q]).visual_state == visual_state_of(ws@[q]),
            decreases ws0.len() - k,
        {
            if ws[k].entity == e {
                ws[k].refresh_visual_state();
            }
            k = k + 1;
        }
        proof {
            assert forall|q: int| 0 <= q < ws0.len() && (exists|j: int| 0 <= j < i + 1 && visual@[j] == ws0[q].entity)
                implies (#[trigger] ws@[q]).visual_state == visual_state_of(ws@[q]) by {
                let j = choose|j: int| 0 <= j < i + 1 && visual@[j] == ws0[q].entity;
                if j == i {
                    assert(ws0[q].entity == e);
                } else {
                    assert(exists|j: int| 0 <= j < i && visual@[j] == ws0[q].entity);
                }
            }
            assert forall|q: int| 0 <= q < ws0.len() && !(exists|j: int| 0 <= j < i + 1 && visual@[j] == ws0[q].entity)
                implies #[trigger] ws@[q] == ws0[q] by {
                assert(!(exists|j: int| 0 <= j < i && visual@[j] == ws0[q].entity));
                assert(visual@[i as int] != ws0[q].entity);
            }
        }
        i = i + 1;
    }
    proof {
        assert forall|k: int| 0 <= k < ws0.len() && visual@.contains(ws0[k].entity)
            implies (#[trigger] ws@[k]).visual_state == visual_state_of(ws@[k]) by {
            let j = choose|j: int| 0 <= j < visual@.len() && visual@[j] == ws0[k].entity;
            assert(exists|j: int| 0 <= j < visual@.len() && visual@[j] == ws0[k].entity);
        }
        assert forall|k: int| 0 <= k < ws0.len() && !visual@.contains(ws0[k].entity)
            implies #[trigger] ws@[k] == ws0[k] by {
            if exists|j: int| 0 <= j < visual@.len() && visual@[j] == ws0[k].entity {
                let j = choose|j: int| 0 <= j < visual@.len() && visual@[j] == ws0[k].entity;
                assert(visual@.contains(ws0[k].entity));
            }
        }
    }
}


/// `b` is `a` with the same entity and configuration; its toggle may differ
/// in state, and its pressing, hovering and visual state may differ.
pub open spec fn same_config(a: ButtonQuery, b: ButtonQuery) -> bool {
    &&& b.entity == a.entity
    &&& b.name == a.name
    &&& b.action_on_release == a.action_on_release
    &&& b.mouse_button_mask == a.mouse_button_mask
    &&& b.toggle_group == a.toggle_group
    &&& b.disabled == a.disabled
    &&& b.toggle.is_some() == a.toggle.is_some()
}

/// No two members of one group are on.
pub open spec fn groups_exclusive(ws: Seq<ButtonQuery>) -> bool {
    forall|i: int, j: int|
        0 <= i < ws.len() && 0 <= j < ws.len() && i != j && grouped(#[trigger] ws[i]) && grouped(#[trigger] ws[j])
            && group_key(ws[i]) == group_key(ws[j]) && toggled_on(ws[i]) ==> !toggled_on(ws[j])
}

/// No two members of one group are on, unless other code wrote one of them.
pub open spec fn exclusive_unless_written(ws: Seq<ButtonQuery>, written: Seq<Entity>) -> bool {
    forall|i: int, j: int|
        0 <= i < ws.len() && 0 <= j < ws.len() && i != j && grouped(#[trigger] ws[i]) && grouped(#[trigger] ws[j])
            && group_key(ws[i]) == group_key(ws[j]) && toggled_on(ws[i]) && toggled_on(ws[j])
            ==> written.contains(ws[i].entity) || written.contains(ws[j].entity)
}

/// The widget after the primary-button signals.
pub open spec fn after_signals(w: ButtonQuery, input: FrameInput) -> ButtonQuery {
    ButtonQuery { internal_state: internal_after_signals(w, input.interactions@), ..w }
}

/// The widget after this frame's signals, presses and releases.
pub open spec fn after_input(w: ButtonQuery, input: FrameInput) -> ButtonQuery {
    after_releases(
        after_others(after_signals(w, input), first_other(input.just_pressed@)),
        input.just_released@,
    )
}

/// The widgets after this frame's signals, presses and releases.
pub open spec fn inputs_applied(ws: Seq<ButtonQuery>, input: FrameInput) -> Seq<ButtonQuery> {
    Seq::new(ws.len(), |k: int| after_input(ws[k], input))
}

/// Whether a press or release is one the frame records on widget `w`: a
/// pressed signal on a widget no button holds, a press of the first other
/// button on a hovered widget no button holds, or a release of the button
/// that holds the widget.
pub open spec fn frame_event(w: ButtonQuery, input: FrameInput, ev: PressEvent) -> bool {
    let a = after_signals(w, input);
    let fo = first_other(input.just_pressed@);
    let b = after_others(a, fo);
    ||| (ev == left_press(w.entity) && w.internal_state.pressing.is_none()
        && press_signalled(input.interactions@, w.entity))
    ||| (taken_by(a, fo) && ev == press_of(w.entity, fo.unwrap()))
    ||| (released_by(b, input.just_released@) && ev == release_of(w.entity, b.internal_state.pressing.unwrap()))
}

/// `ev` is a press or release the frame records on some widget of `ws`.
pub open spec fn some_frame_event(ws: Seq<ButtonQuery>, input: FrameInput, ev: PressEvent) -> bool {
    exists|k: int| 0 <= k < ws.len() && frame_event(ws[k], input, ev)
}

/// A widget (after the input) that asks for the rest of its group to be
/// turned off: it acts on an event, or other code wrote it and it is on.
pub open spec fn triggers(w: ButtonQuery, events: Seq<PressEvent>, written: Seq<Entity>) -> bool {
    grouped(w) && (acts_on(w, events) || (written.contains(w.entity) && toggled_on(after_clicks(w, events))))
}

/// Widget `k` (after the input) is on after the clicks while another member
/// of its group asks for the rest to be turned off.
pub open spec fn group_turned_off(ws: Seq<ButtonQuery>, k: int, events: Seq<PressEvent>, written: Seq<Entity>) -> bool {
    &&& grouped(ws[k])
    &&& toggled_on(after_clicks(ws[k], events))
    &&& exists|k2: int|
        0 <= k2 < ws.len() && ws[k2].entity != ws[k].entity && #[trigger] triggers(ws[k2], events, written)
            && group_key(ws[k2]) == group_key(ws[k])
}

/// The toggle of widget `k` at the end of the frame.
pub open spec fn toggle_after_frame(ws: Seq<ButtonQuery>, k: int, events: Seq<PressEvent>, written: Seq<Entity>) -> Option<
    ToggleButton,
> {
    if group_turned_off(ws, k, events, written) {
        Some(ToggleButton { toggled: false })
    } else {
        after_clicks(ws[k], events).toggle
    }
}

/// The widget's pressing or hovering, its toggle, or its `Disabled` changed,
/// or other code wrote its toggle.
pub open spec fn state_changed(w0: ButtonQuery, w: ButtonQuery, input: FrameInput) -> bool {
    ||| w.internal_state != w0.internal_state
    ||| w.toggle != w0.toggle
    ||| input.disabled_changed@.contains(w0.entity)
    ||| (input.toggle_changed@.contains(w0.entity) && w0.toggle.is_some())
}

pub open spec fn prefix_of<A>(a: Seq<A>, b: Seq<A>) -> bool {
    a.len() <= b.len() && forall|t: int| 0 <= t < a.len() ==> b[t] == a[t]
}

proof fn lemma_prefix_contains<A>(a: Seq<A>, b: Seq<A>, x: A)
    requires
        prefix_of(a, b),
        a.contains(x),
    ensures
        b.contains(x),
{
    let p = choose|p: int| 0 <= p < a.len() && a[p] == x;
    assert(b[p] == x);
}

proof fn lemma_hover_kept(signals: Seq<(Entity, Interaction)>, e: Entity, h: bool)
    requires
        forall|i: int| 0 <= i < signals.len() && signals[i].0 == e ==> signals[i].1 == Interaction::Pressed,
    ensures
        hover_after(signals, e, h) == h,
    decreases signals.len(),
{
    if signals.len() > 0 {
        let d = signals.drop_last();
        assert forall|i: int| 0 <= i < d.len() && d[i].0 == e implies d[i].1 == Interaction::Pressed by {
            assert(d[i] == signals[i]);
        }
        lemma_hover_kept(d, e, h);
    }
}

#[verifier::spinoff_prover]
proof fn lemma_frame_events(
    ws0: Seq<ButtonQuery>,
    ws_a: Seq<ButtonQuery>,
    ws_b: Seq<ButtonQuery>,
    ev_a: Seq<PressEvent>,
    ev_b: Seq<PressEvent>,
    ev: Seq<PressEvent>,
    input: FrameInput,
)
    requires
        ws_a.len() == ws0.len(),
        ws_b.len() == ws0.len(),
        forall|k: int| 0 <= k < ws0.len() ==> only_internal_changed(ws0[k], #[trigger] ws_a[k]),
        forall|k: int| 0 <= k < ws0.len()
            ==> (#[trigger] ws_a[k]).internal_state == internal_after_signals(ws0[k], input.interactions@),
        forall|k: int| 0 <= k < ws0.len() ==> #[trigger] ws_b[k] == after_others(ws_a[k], first_other(input.just_pressed@)),
        prefix_of(ev_a, ev_b),
        prefix_of(ev_b, ev),
        forall|i: int| 0 <= i < ev_a.len() ==> fresh_press(ws0, ws_a, #[trigger] ev_a[i]),
        forall|k: int| 0 <= k < ws0.len() && ws0[k].internal_state.pressing.is_none()
            && press_signalled(input.interactions@, #[trigger] ws0[k].entity)
            ==> recorded(ev_a, 0, left_press(ws0[k].entity)),
        forall|i: int| ev_a.len() <= i < ev_b.len() ==> exists|k: int|
            0 <= k < ws_a.len() && taken_by(ws_a[k], first_other(input.just_pressed@))
                && #[trigger] ev_b[i] == press_of(ws_a[k].entity, first_other(input.just_pressed@).unwrap()),
        forall|k: int| 0 <= k < ws_a.len() && #[trigger] taken_by(ws_a[k], first_other(input.just_pressed@))
            ==> recorded(ev_b, ev_a.len() as int, press_of(ws_a[k].entity, first_other(input.just_pressed@).unwrap())),
        forall|i: int| ev_b.len() <= i < ev.len() ==> exists|k: int|
            0 <= k < ws_b.len() && released_by(ws_b[k], input.just_released@)
                && #[trigger] ev[i] == release_of(ws_b[k].entity, ws_b[k].internal_state.pressing.unwrap()),
        forall|k: int| 0 <= k < ws_b.len() && #[trigger] released_by(ws_b[k], input.just_released@)
            ==> recorded(ev, ev_b.len() as int, release_of(ws_b[k].entity, ws_b[k].internal_state.pressing.unwrap())),
    ensures
        forall|j: int| 0 <= j < ev.len() ==> some_frame_event(ws0, input, #[trigger] ev[j]),
        forall|k: int, e: PressEvent| 0 <= k < ws0.len() && #[trigger] frame_event(ws0[k], input, e)
            ==> recorded(ev, 0, e),
{
    assert forall|k: int| 0 <= k < ws0.len() implies #[trigger] ws_a[k] == after_signals(ws0[k], input) by {
        assert(only_internal_changed(ws0[k], ws_a[k]));
    }
    assert forall|j: int| 0 <= j < ev.len() implies some_frame_event(ws0, input, #[trigger] ev[j]) by {
        if j < ev_a.len() {
            assert(ev[j] == ev_b[j] && ev_b[j] == ev_a[j]);
            assert(fresh_press(ws0, ws_a, ev_a[j]));
            let k = choose|k: int| 0 <= k < ws_a.len() && #[trigger] ws_a[k].entity == ev_a[j].entity
                && ws0[k].internal_state.pressing.is_none() && ws_a[k].internal_state.pressing == Some(ev_a[j].button);
            assert(ws_a[k] == after_signals(ws0[k], input));
            assert(ev[j] == left_press(ws0[k].entity));
            assert(frame_event(ws0[k], input, ev[j]));
        } else if j < ev_b.len() {
            assert(ev[j] == ev_b[j]);
            let k = choose|k: int| 0 <= k < ws_a.len() && taken_by(ws_a[k], first_other(input.just_pressed@))
                && #[trigger] ev_b[j] == press_of(ws_a[k].entity, first_other(input.just_pressed@).unwrap());
            assert(ws_a[k] == after_signals(ws0[k], input));
            assert(frame_event(ws0[k], input, ev[j]));
        } else {
            let k = choose|k: int| 0 <= k < ws_b.len() && released_by(ws_b[k], input.just_released@)
                && #[trigger] ev[j] == release_of(ws_b[k].entity, ws_b[k].internal_state.pressing.unwrap());
            assert(ws_a[k] == after_signals(ws0[k], input));
            assert(frame_event(ws0[k], input, ev[j]));
        }
    }
    assert forall|k: int, e: PressEvent| 0 <= k < ws0.len() && #[trigger] frame_event(ws0[k], input, e)
        implies recorded(ev, 0, e) by {
        assert(ws_a[k] == after_signals(ws0[k], input));
        let fo = first_other(input.just_pressed@);
        if e == left_press(ws0[k].entity) && ws0[k].internal_state.pressing.is_none()
            && press_signalled(input.interactions@, ws0[k].entity) {
            let m = choose|m: int| 0 <= m < ev_a.len() && ev_a[m] == e;
            assert(ev_b[m] == ev_a[m]);
            assert(ev[m] == ev_b[m]);
        } else if taken_by(ws_a[k], fo) && e == press_of(ws0[k].entity, fo.unwrap()) {
            assert(ws_a[k].entity == ws0[k].entity);
            let m = choose|m: int| ev_a.len() <= m < ev_b.len() && ev_b[m] == e;
            assert(ev[m] == ev_b[m]);
        } else {
            assert(released_by(ws_b[k], input.just_released@));
            assert(ws_b[k].entity == ws0[k].entity);
            let m = choose|m: int| ev_b.len() <= m < ev.len() && ev[m] == e;
        }
    }
}

#[verifier::spinoff_prover]
proof fn lemma_group_requests(
    ws0: Seq<ButtonQuery>,
    wc: Seq<ButtonQuery>,
    ws_c: Seq<ButtonQuery>,
    ws_d: Seq<ButtonQuery>,
    groups_d: Seq<(String, Entity)>,
    groups_e: Seq<(String, Entity)>,
    ev: Seq<PressEvent>,
    tc: Seq<Entity>,
)
    requires
        wc.len() == ws0.len(),
        ws_c.len() == ws0.len(),
        ws_d.len() == ws0.len(),
        forall|k: int| 0 <= k < ws0.len() ==> #[trigger] ws_c[k] == wc[k],
        forall|k: int| 0 <= k < ws0.len() ==> #[trigger] ws_d[k] == after_clicks(ws_c[k], ev),
        prefix_of(groups_d, groups_e),
        forall|t: int| 0 <= t < groups_d.len() ==> from_clicked(ws_c, ev, #[trigger] groups_d[t]),
        forall|k: int| 0 <= k < ws_c.len() && acts_on(ws_c[k], ev) && #[trigger] grouped(ws_c[k])
            ==> exists|t: int| 0 <= t < groups_d.len() && entry_from(ws_c[k], groups_d[t]),
        forall|t: int| groups_d.len() <= t < groups_e.len() ==> from_written(ws_d, tc, #[trigger] groups_e[t]),
        forall|k: int| 0 <= k < ws_d.len() && tc.contains(ws_d[k].entity) && toggled_on(ws_d[k]) && #[trigger] grouped(ws_d[k])
            ==> exists|t: int| groups_d.len() <= t < groups_e.len() && entry_from(ws_d[k], groups_e[t]),
    ensures
        forall|k: int| 0 <= k < ws0.len() ==> #[trigger] turned_off_by(ws_d[k], groups_e) == group_turned_off(wc, k, ev, tc),
{
    assert forall|k: int| 0 <= k < ws0.len() implies #[trigger] turned_off_by(ws_d[k], groups_e)
        == group_turned_off(wc, k, ev, tc) by {
        assert(ws_d[k] == after_clicks(wc[k], ev));
        if turned_off_by(ws_d[k], groups_e) {
            let t = choose|t: int| 0 <= t < groups_e.len() && groups_e[t].0@ == group_key(ws_d[k]) && groups_e[t].1 != ws_d[k].entity;
            if t < groups_d.len() {
                assert(groups_e[t] == groups_d[t]);
                assert(from_clicked(ws_c, ev, groups_d[t]));
                let k2 = choose|k2: int| 0 <= k2 < ws_c.len() && acts_on(ws_c[k2], ev) && entry_from(ws_c[k2], groups_d[t]);
                assert(triggers(wc[k2], ev, tc));
            } else {
                assert(from_written(ws_d, tc, groups_e[t]));
                let k2 = choose|k2: int| 0 <= k2 < ws_d.len() && tc.contains(ws_d[k2].entity) && toggled_on(ws_d[k2])
                    && entry_from(ws_d[k2], groups_e[t]);
                assert(ws_d[k2] == after_clicks(wc[k2], ev));
                assert(triggers(wc[k2], ev, tc));
            }
        }
        if group_turned_off(wc, k, ev, tc) {
            let k2 = choose|k2: int| 0 <= k2 < wc.len() && wc[k2].entity != wc[k].entity && #[trigger] triggers(wc[k2], ev, tc)
                && group_key(wc[k2]) == group_key(wc[k]);
            assert(ws_c[k2] == wc[k2]);
            if acts_on(ws_c[k2], ev) {
                assert(grouped(ws_c[k2]));
                let t = choose|t: int| 0 <= t < groups_d.len() && entry_from(ws_c[k2], groups_d[t]);
                assert(groups_e[t] == groups_d[t]);
            } else {
                assert(ws_d[k2] == after_clicks(wc[k2], ev));
                assert(grouped(ws_d[k2]));
                let t = choose|t: int| groups_d.len() <= t < groups_e.len() && entry_from(ws_d[k2], groups_e[t]);
            }
        }
    }
}

#[verifier::spinoff_prover]
proof fn lemma_frame_clicks(
    ws0: Seq<ButtonQuery>,
    wc: Seq<ButtonQuery>,
    ws_c: Seq<ButtonQuery>,
    ws_d: Seq<ButtonQuery>,
    groups_e: Seq<(String, Entity)>,
    clicks_d: Seq<ButtonClickInfo>,
    clicks: Seq<ButtonClickInfo>,
    ev: Seq<PressEvent>,
    tc: Seq<Entity>,
)
    requires
        wc.len() == ws0.len(),
        ws_c.len() == ws0.len(),
        ws_d.len() == ws0.len(),
        forall|k: int| 0 <= k < ws0.len() ==> #[trigger] wc[k] == ws_c[k] && same_config(ws0[k], wc[k]),
        forall|k: int| 0 <= k < ws0.len() ==> #[trigger] ws_d[k] == after_clicks(ws_c[k], ev),
        forall|k: int| 0 <= k < ws0.len() ==> #[trigger] turned_off_by(ws_d[k], groups_e) == group_turned_off(wc, k, ev, tc),
        prefix_of(clicks_d, clicks),
        forall|c: int| 0 <= c < clicks_d.len() ==> exists|k: int|
            0 <= k < ws_c.len() && acts_on(ws_c[k], ev) && #[trigger] clicks_d[c] == pointer_click(ws_c[k], ev),
        forall|k: int| 0 <= k < ws_c.len() && #[trigger] acts_on(ws_c[k], ev) ==> exists|c: int|
            0 <= c < clicks_d.len() && clicks_d[c] == pointer_click(ws_c[k], ev)
                && forall|c2: int| 0 <= c2 < clicks_d.len() && (#[trigger] clicks_d[c2]).entity == ws_c[k].entity ==> c2 == c,
        forall|c: int| clicks_d.len() <= c < clicks.len() ==> exists|k: int|
            0 <= k < ws_d.len() && turned_off_by(ws_d[k], groups_e) && #[trigger] clicks[c] == off_click(ws_d[k]),
        forall|k: int| 0 <= k < ws_d.len() && #[trigger] turned_off_by(ws_d[k], groups_e) ==> exists|c: int|
            clicks_d.len() <= c < clicks.len() && clicks[c] == off_click(ws_d[k])
                && forall|c2: int| clicks_d.len() <= c2 < clicks.len() && (#[trigger] clicks[c2]).entity == ws_d[k].entity ==> c2 == c,
    ensures
        forall|c: int| 0 <= c < clicks.len() && (#[trigger] clicks[c]).mouse_button.is_some()
            ==> exists|k: int| 0 <= k < ws0.len() && acts_on(wc[k], ev) && clicks[c] == pointer_click(wc[k], ev),
        forall|k: int| 0 <= k < ws0.len() && #[trigger] acts_on(wc[k], ev) ==> exists|c: int|
            0 <= c < clicks.len() && clicks[c] == pointer_click(wc[k], ev)
                && forall|c2: int| 0 <= c2 < clicks.len() && (#[trigger] clicks[c2]).entity == ws0[k].entity
                    && clicks[c2].mouse_button.is_some() ==> c2 == c,
        forall|c: int| 0 <= c < clicks.len() && (#[trigger] clicks[c]).mouse_button.is_none()
            ==> exists|k: int| 0 <= k < ws0.len() && group_turned_off(wc, k, ev, tc) && clicks[c] == off_click(ws0[k]),
        forall|k: int| 0 <= k < ws0.len() && #[trigger] group_turned_off(wc, k, ev, tc) ==> exists|c: int|
            0 <= c < clicks.len() && clicks[c] == off_click(ws0[k])
                && forall|c2: int| 0 <= c2 < clicks.len() && (#[trigger] clicks[c2]).entity == ws0[k].entity
                    && clicks[c2].mouse_button.is_none() ==> c2 == c,
{
    assert forall|c: int| 0 <= c < clicks.len() && (#[trigger] clicks[c]).mouse_button.is_some()
        implies exists|k: int| 0 <= k < ws0.len() && acts_on(wc[k], ev) && clicks[c] == pointer_click(wc[k], ev) by {
        if c < clicks_d.len() {
            assert(clicks[c] == clicks_d[c]);
            let k = choose|k: int| 0 <= k < ws_c.len() && acts_on(ws_c[k], ev) && #[trigger] clicks_d[c] == pointer_click(ws_c[k], ev);
            assert(wc[k] == ws_c[k]);
        } else {
            let k = choose|k: int| 0 <= k < ws_d.len() && turned_off_by(ws_d[k], groups_e) && #[trigger] clicks[c] == off_click(ws_d[k]);
        }
    }
    assert forall|k: int| 0 <= k < ws0.len() && #[trigger] acts_on(wc[k], ev) implies exists|c: int|
        0 <= c < clicks.len() && clicks[c] == pointer_click(wc[k], ev)
            && forall|c2: int| 0 <= c2 < clicks.len() && (#[trigger] clicks[c2]).entity == ws0[k].entity
                && clicks[c2].mouse_button.is_some() ==> c2 == c by {
        assert(wc[k] == ws_c[k] && same_config(ws0[k], wc[k]));
        assert(acts_on(ws_c[k], ev));
        let c = choose|c: int| 0 <= c < clicks_d.len() && clicks_d[c] == pointer_click(ws_c[k], ev)
            && forall|c2: int| 0 <= c2 < clicks_d.len() && (#[trigger] clicks_d[c2]).entity == ws_c[k].entity ==> c2 == c;
        assert(clicks[c] == clicks_d[c]);
        assert forall|c2: int| 0 <= c2 < clicks.len() && (#[trigger] clicks[c2]).entity == ws0[k].entity
            && clicks[c2].mouse_button.is_some() implies c2 == c by {
            if c2 < clicks_d.len() {
                assert(clicks[c2] == clicks_d[c2]);
            } else {
                let k2 = choose|k2: int| 0 <= k2 < ws_d.len() && turned_off_by(ws_d[k2], groups_e) && #[trigger] clicks[c2] == off_click(ws_d[k2]);
            }
        }
    }
    assert forall|c: int| 0 <= c < clicks.len() && (#[trigger] clicks[c]).mouse_button.is_none()
        implies exists|k: int| 0 <= k < ws0.len() && group_turned_off(wc, k, ev, tc) && clicks[c] == off_click(ws0[k]) by {
        if c < clicks_d.len() {
            assert(clicks[c] == clicks_d[c]);
            let k = choose|k: int| 0 <= k < ws_c.len() && acts_on(ws_c[k], ev) && #[trigger] clicks_d[c] == pointer_click(ws_c[k], ev);
        } else {
            let k = choose|k: int| 0 <= k < ws_d.len() && turned_off_by(ws_d[k], groups_e) && #[trigger] clicks[c] == off_click(ws_d[k]);
            assert(wc[k] == ws_c[k] && same_config(ws0[k], wc[k]));
            assert(off_click(ws_d[k]) == off_click(ws0[k]));
        }
    }
    assert forall|k: int| 0 <= k < ws0.len() && #[trigger] group_turned_off(wc, k, ev, tc) implies exists|c: int|
        0 <= c < clicks.len() && clicks[c] == off_click(ws0[k])
            && forall|c2: int| 0 <= c2 < clicks.len() && (#[trigger] clicks[c2]).entity == ws0[k].entity
                && clicks[c2].mouse_button.is_none() ==> c2 == c by {
        assert(turned_off_by(ws_d[k], groups_e));
        assert(wc[k] == ws_c[k] && same_config(ws0[k], wc[k]));
        assert(off_click(ws_d[k]) == off_click(ws0[k]));
        let c = choose|c: int| clicks_d.len() <= c < clicks.len() && clicks[c] == off_click(ws_d[k])
            && forall|c2: int| clicks_d.len() <= c2 < clicks.len() && (#[trigger] clicks[c2]).entity == ws_d[k].entity ==> c2 == c;
        assert forall|c2: int| 0 <= c2 < clicks.len() && (#[trigger] clicks[c2]).entity == ws0[k].entity
            && clicks[c2].mouse_button.is_none() implies c2 == c by {
            if c2 < clicks_d.len() {
                assert(clicks[c2] == clicks_d[c2]);
                let k2 = choose|k2: int| 0 <= k2 < ws_c.len() && acts_on(ws_c[k2], ev) && #[trigger] clicks_d[c2] == pointer_click(ws_c[k2], ev);
            }
        }
    }
}

#[verifier::spinoff_prover]
proof fn lemma_frame_exclusive(
    ws0: Seq<ButtonQuery>,
    wc: Seq<ButtonQuery>,
    ws: Seq<ButtonQuery>,
    ev: Seq<PressEvent>,
    input: FrameInput,
)
    requires
        entities_unique(ws0),
        wc.len() == ws0.len(),
        ws.len() == ws0.len(),
        forall|k: int| 0 <= k < ws0.len() ==> #[trigger] wc[k] == after_input(ws0[k], input),
        forall|k: int| 0 <= k < ws0.len() ==> same_config(ws0[k], #[trigger] ws[k])
            && ws[k].toggle == toggle_after_frame(wc, k, ev, input.toggle_changed@),
        exclusive_unless_written(ws0, input.toggle_changed@),
    ensures
        groups_exclusive(ws),
{
    let tc = input.toggle_changed@;
    assert forall|i: int, j: int|
        0 <= i < ws.len() && 0 <= j < ws.len() && i != j && grouped(#[trigger] ws[i])
            && grouped(#[trigger] ws[j]) && group_key(ws[i]) == group_key(ws[j]) && toggled_on(ws[i])
            implies !toggled_on(ws[j]) by {
        if toggled_on(ws[j]) {
            assert(same_config(ws0[i], ws[i]) && same_config(ws0[j], ws[j]));
            assert(wc[i] == after_input(ws0[i], input) && wc[j] == after_input(ws0[j], input));
            assert(!group_turned_off(wc, i, ev, tc));
            assert(!group_turned_off(wc, j, ev, tc));
            if triggers(wc[i], ev, tc) {
                assert(group_turned_off(wc, j, ev, tc));
            } else if triggers(wc[j], ev, tc) {
                assert(group_turned_off(wc, i, ev, tc));
            } else {
                assert(toggled_on(ws0[i]) && toggled_on(ws0[j]));
            }
        }
    }
}

/// A signal, a press or a release of this frame concerns the widget: a
/// pressed signal while free, a hover or leave signal, a press of the first
/// other button while hovered and free, or a release of its button.
pub open spec fn input_marks(w: ButtonQuery, input: FrameInput) -> bool {
    let a = after_signals(w, input);
    let fo = first_other(input.just_pressed@);
    ||| (w.internal_state.pressing.is_none() && press_signalled(input.interactions@, w.entity))
    ||| (exists|i: int| 0 <= i < input.interactions@.len() && input.interactions@[i].0 == w.entity
        && input.interactions@[i].1 != Interaction::Pressed)
    ||| taken_by(a, fo)
    ||| released_by(after_others(a, fo), input.just_released@)
}

/// Widget `k` (after the input) is clicked, written by other code as a
/// toggle widget, or turned off by its group.
pub open spec fn click_marks(ws: Seq<ButtonQuery>, k: int, events: Seq<PressEvent>, written: Seq<Entity>) -> bool {
    ||| acts_on(ws[k], events)
    ||| (written.contains(ws[k].entity) && ws[k].toggle.is_some())
    ||| group_turned_off(ws, k, events, written)
}

/// Applies this frame's primary-button signals, the press of the first other
/// button and the releases to every widget, recording each press and release
/// and marking each widget they concern for a visual update.
#[verifier::spinoff_prover]
pub fn apply_input(
    ws: &mut Vec<ButtonQuery>,
    input: &FrameInput,
    events: &mut Vec<PressEvent>,
    visual: &mut Vec<Entity>,
)
    requires
        entities_unique(old(ws)@),
        old(events)@.len() == 0,
        old(visual)@.len() == 0,
    ensures
        final(ws)@.len() == old(ws)@.len(),
        forall|k: int| 0 <= k < old(ws)@.len() ==> #[trigger] final(ws)@[k] == after_input(old(ws)@[k], *input),
        forall|j: int| 0 <= j < final(events)@.len() ==> some_frame_event(old(ws)@, *input, #[trigger] final(events)@[j]),
        forall|k: int, e: PressEvent| 0 <= k < old(ws)@.len() && #[trigger] frame_event(old(ws)@[k], *input, e)
            ==> recorded(final(events)@, 0, e),
        forall|k: int| 0 <= k < old(ws)@.len() && input_marks(#[trigger] old(ws)@[k], *input)
            ==> final(visual)@.contains(old(ws)@[k].entity),
{
    let ghost ws0 = ws@;
    let ghost fo = first_other(input.just_pressed@);
    apply_interactions(ws, &input.interactions, events, visual);
    let ghost ws_a = ws@;
    let ghost ev_a = events@;
    let ghost vis_a = visual@;
    press_other_buttons(ws, &input.just_pressed, events, visual);
    let ghost ws_b = ws@;
    let ghost ev_b = events@;
    let ghost vis_b = visual@;
    apply_releases(ws, &input.just_released, events, visual);
    proof {
        assert forall|k: int| 0 <= k < ws0.len() implies #[trigger] ws_a[k] == after_signals(ws0[k], *input) by {
            assert(only_internal_changed(ws0[k], ws_a[k]));
        }
        assert forall|k: int| 0 <= k < ws0.len() implies #[trigger] ws@[k] == after_input(ws0[k], *input) by {
            assert(ws_a[k] == after_signals(ws0[k], *input));
        }
        assert(prefix_of(ev_a, ev_b) && prefix_of(ev_b, events@));
        lemma_frame_events(ws0, ws_a, ws_b, ev_a, ev_b, events@, *input);
        assert(prefix_of(vis_a, vis_b) && prefix_of(vis_b, visual@));
        assert(prefix_of(vis_a, visual@));
        assert forall|k: int| 0 <= k < ws0.len() && input_marks(#[trigger] ws0[k], *input)
            implies visual@.contains(ws0[k].entity) by {
            let e = ws0[k].entity;
            assert(ws_a[k] == after_signals(ws0[k], *input));
            if ws0[k].internal_state.pressing.is_none() && press_signalled(input.interactions@, e) {
                lemma_prefix_contains(vis_a, visual@, e);
            } else if exists|i: int| 0 <= i < input.interactions@.len() && input.interactions@[i].0 == e
                && input.interactions@[i].1 != Interaction::Pressed {
                let i = choose|i: int| 0 <= i < input.interactions@.len() && input.interactions@[i].0 == e
                    && input.interactions@[i].1 != Interaction::Pressed;
                assert(ws0[k].entity == input.interactions@[i].0);
                lemma_prefix_contains(vis_a, visual@, e);
            } else if taken_by(ws_a[k], fo) {
                lemma_prefix_contains(vis_b, visual@, e);
            } else {
                assert(released_by(ws_b[k], input.just_released@));
            }
        }
    }
}

/// Resolves the clicks of the recorded events, handles toggle widgets that
/// other code wrote, and turns off the members of groups that another member
/// asked to turn off; each widget concerned is marked for a visual update.
#[verifier::spinoff_prover]
pub fn apply_clicks(
    ws: &mut Vec<ButtonQuery>,
    events: &Vec<PressEvent>,
    toggle_changed: &Vec<Entity>,
    visual: &mut Vec<Entity>,
    clicks: &mut Vec<ButtonClickInfo>,
)
    requires
        entities_unique(old(ws)@),
        old(clicks)@.len() == 0,
    ensures
        final(ws)@.len() == old(ws)@.len(),
        forall|k: int| 0 <= k < old(ws)@.len() ==> #[trigger] final(ws)@[k] == (ButtonQuery {
            toggle: toggle_after_frame(old(ws)@, k, events@, toggle_changed@),
            ..after_clicks(old(ws)@[k], events@)
        }),
        prefix_of(old(visual)@, final(visual)@),
        forall|k: int| 0 <= k < old(ws)@.len() && #[trigger] click_marks(old(ws)@, k, events@, toggle_changed@)
            ==> final(visual)@.contains(old(ws)@[k].entity),
        forall|c: int| 0 <= c < final(clicks)@.len() && (#[trigger] final(clicks)@[c]).mouse_button.is_some()
            ==> exists|k: int| 0 <= k < old(ws)@.len() && acts_on(old(ws)@[k], events@)
                && final(clicks)@[c] == pointer_click(old(ws)@[k], events@),
        forall|k: int| 0 <= k < old(ws)@.len() && #[trigger] acts_on(old(ws)@[k], events@) ==> exists|c: int|
            0 <= c < final(clicks)@.len() && final(clicks)@[c] == pointer_click(old(ws)@[k], events@)
                && forall|c2: int| 0 <= c2 < final(clicks)@.len() && (#[trigger] final(clicks)@[c2]).entity == old(ws)@[k].entity
                    && final(clicks)@[c2].mouse_button.is_some() ==> c2 == c,
        forall|c: int| 0 <= c < final(clicks)@.len() && (#[trigger] final(clicks)@[c]).mouse_button.is_none()
            ==> exists|k: int| 0 <= k < old(ws)@.len() && group_turned_off(old(ws)@, k, events@, toggle_changed@)
                && final(clicks)@[c] == off_click(old(ws)@[k]),
        forall|k: int| 0 <= k < old(ws)@.len() && #[trigger] group_turned_off(old(ws)@, k, events@, toggle_changed@)
            ==> exists|c: int| 0 <= c < final(clicks)@.len() && final(clicks)@[c] == off_click(old(ws)@[k])
                && forall|c2: int| 0 <= c2 < final(clicks)@.len() && (#[trigger] final(clicks)@[c2]).entity == old(ws)@[k].entity
                    && final(clicks)@[c2].mouse_button.is_none() ==> c2 == c,
{
    let ghost ws_c = ws@;
    let ghost ev = events@;
    let ghost tc = toggle_changed@;
    let ghost vis_c = visual@;
    let mut groups: Vec<(String, Entity)> = Vec::new();
    resolve_clicks(ws, events, &mut groups, visual, clicks);
    let ghost ws_d = ws@;
    let ghost groups_d = groups@;
    let ghost vis_d = visual@;
    let ghost clicks_d = clicks@;
    proof {
        assert(entities_unique(ws_d)) by {
            assert forall|i: int, j: int| 0 <= i < ws_d.len() && 0 <= j < ws_d.len() && i != j
                implies ws_d[i].entity != ws_d[j].entity by {
                assert(ws_d[i] == after_clicks(ws_c[i], ev));
                assert(ws_d[j] == after_clicks(ws_c[j], ev));
            }
        }
    }
    handle_toggle_writes(ws, toggle_changed, &mut groups, visual);
    let ghost groups_e = groups@;
    let ghost vis_e = visual@;
    untoggle_group_members(ws, &groups, visual, clicks);
    proof {
        assert(prefix_of(groups_d, groups_e));
        lemma_group_requests(ws_c, ws_c, ws_c, ws_d, groups_d, groups_e, ev, tc);
        assert forall|k: int| 0 <= k < ws_c.len() implies #[trigger] ws@[k] == (ButtonQuery {
            toggle: toggle_after_frame(ws_c, k, ev, tc),
            ..after_clicks(ws_c[k], ev)
        }) by {
            assert(ws_d[k] == after_clicks(ws_c[k], ev));
            assert(turned_off_by(ws_d[k], groups_e) == group_turned_off(ws_c, k, ev, tc));
            assert(ws@[k] == after_group(ws_d[k], groups_e));
        }
        assert(prefix_of(clicks_d, clicks@));
        assert forall|k: int| 0 <= k < ws_c.len() implies #[trigger] ws_c[k] == ws_c[k] && same_config(ws_c[k], ws_c[k]) by {}
        lemma_frame_clicks(ws_c, ws_c, ws_c, ws_d, groups_e, clicks_d, clicks@, ev, tc);
        assert(prefix_of(vis_c, vis_d) && prefix_of(vis_d, vis_e) && prefix_of(vis_e, visual@));
        assert(prefix_of(vis_d, visual@));
        assert forall|k: int| 0 <= k < ws_c.len() && #[trigger] click_marks(ws_c, k, ev, tc)
            implies visual@.contains(ws_c[k].entity) by {
            let e = ws_c[k].entity;
            assert(ws_d[k] == after_clicks(ws_c[k], ev));
            if acts_on(ws_c[k], ev) {
                lemma_prefix_contains(vis_d, visual@, e);
            } else if tc.contains(e) && ws_c[k].toggle.is_some() {
                assert(ws_d[k].entity == e && ws_d[k].toggle.is_some());
                lemma_prefix_contains(vis_e, visual@, e);
            } else {
                assert(turned_off_by(ws_d[k], groups_e));
            }
        }
    }
}

proof fn lemma_frame_marks(
    ws0: Seq<ButtonQuery>,
    wc: Seq<ButtonQuery>,
    ws: Seq<ButtonQuery>,
    vis1: Seq<Entity>,
    vis2: Seq<Entity>,
    vis: Seq<Entity>,
    ev: Seq<PressEvent>,
    input: FrameInput,
)
    requires
        wc.len() == ws0.len(),
        ws.len() == ws0.len(),
        forall|k: int| 0 <= k < ws0.len() ==> #[trigger] wc[k] == after_input(ws0[k], input),
        forall|k: int| 0 <= k < ws0.len() ==> (#[trigger] ws[k]).internal_state == wc[k].internal_state
            && ws[k].toggle == toggle_after_frame(wc, k, ev, input.toggle_changed@),
        forall|k: int| 0 <= k < ws0.len() && input_marks(#[trigger] ws0[k], input) ==> vis1.contains(ws0[k].entity),
        forall|k: int| 0 <= k < ws0.len() && #[trigger] click_marks(wc, k, ev, input.toggle_changed@)
            ==> vis2.contains(wc[k].entity),
        prefix_of(vis1, vis2),
        vis == vis2 + input.disabled_changed@,
    ensures
        forall|k: int| 0 <= k < ws0.len() && state_changed(ws0[k], #[trigger] ws[k], input) ==> vis.contains(ws0[k].entity),
{
    assert(prefix_of(vis2, vis));
    assert(prefix_of(vis1, vis));
    let tc = input.toggle_changed@;
    assert forall|k: int| 0 <= k < ws0.len() && state_changed(ws0[k], #[trigger] ws[k], input)
        implies vis.contains(ws0[k].entity) by {
        let e = ws0[k].entity;
        let w = ws0[k];
        assert(wc[k] == after_input(w, input));
        assert(wc[k].entity == e && wc[k].toggle == w.toggle);
        if input.disabled_changed@.contains(e) {
            let q = choose|q: int| 0 <= q < input.disabled_changed@.len() && input.disabled_changed@[q] == e;
            assert(vis[vis2.len() + q] == e);
        } else if input_marks(w, input) {
            lemma_prefix_contains(vis1, vis, e);
        } else if click_marks(wc, k, ev, tc) {
            lemma_prefix_contains(vis2, vis, e);
        } else {
            if forall|i: int| 0 <= i < input.interactions@.len() && input.interactions@[i].0 == e
                ==> input.interactions@[i].1 == Interaction::Pressed {
                lemma_hover_kept(input.interactions@, e, w.internal_state.hovering);
            }
            assert(wc[k].internal_state == w.internal_state);
            assert(ws[k].toggle == w.toggle);
        }
    }
}

/// Runs one frame of the state machine over all widgets: applies the
/// primary-button signals, the press of the first other button and the
/// releases, resolves clicks (flipping toggles), turns off group members that
/// another member asked to turn off, and recomputes the visual state of every
/// widget whose state changed.
#[verifier::spinoff_prover]
pub fn button_system(ws: &mut Vec<ButtonQuery>, input: &FrameInput) -> (out: FrameOutput)
    requires
        entities_unique(old(ws)@),
    ensures
        final(ws)@.len() == old(ws)@.len(),
        forall|k: int| 0 <= k < old(ws)@.len() ==> same_config(old(ws)@[k], #[trigger] final(ws)@[k]),
        // pressing and hovering: the signals, then the first other button, then the releases
        forall|k: int| 0 <= k < old(ws)@.len()
            ==> (#[trigger] final(ws)@[k]).internal_state == after_input(old(ws)@[k], *input).internal_state,
        // toggles: clicked widgets flip, members turned off by their group end off, others stay
        forall|k: int| 0 <= k < old(ws)@.len() ==> (#[trigger] final(ws)@[k]).toggle
            == toggle_after_frame(inputs_applied(old(ws)@, *input), k, out.events@, input.toggle_changed@),
        // the recorded presses and releases are exactly those of the frame
        forall|j: int| 0 <= j < out.events@.len() ==> some_frame_event(old(ws)@, *input, #[trigger] out.events@[j]),
        forall|k: int, ev: PressEvent| 0 <= k < old(ws)@.len() && #[trigger] frame_event(old(ws)@[k], *input, ev)
            ==> recorded(out.events@, 0, ev),
        // clicks from the pointer: exactly one per widget that acts on a recorded event
        forall|c: int| 0 <= c < out.clicks@.len() && (#[trigger] out.clicks@[c]).mouse_button.is_some()
            ==> exists|k: int| 0 <= k < old(ws)@.len() && acts_on(inputs_applied(old(ws)@, *input)[k], out.events@)
                && out.clicks@[c] == pointer_click(inputs_applied(old(ws)@, *input)[k], out.events@),
        forall|k: int| 0 <= k < old(ws)@.len() && #[trigger] acts_on(inputs_applied(old(ws)@, *input)[k], out.events@)
            ==> exists|c: int| 0 <= c < out.clicks@.len()
                && out.clicks@[c] == pointer_click(inputs_applied(old(ws)@, *input)[k], out.events@)
                && forall|c2: int| 0 <= c2 < out.clicks@.len() && (#[trigger] out.clicks@[c2]).entity == old(ws)@[k].entity
                    && out.clicks@[c2].mouse_button.is_some() ==> c2 == c,
        // clicks for members turned off by their group: exactly one each
        forall|c: int| 0 <= c < out.clicks@.len() && (#[trigger] out.clicks@[c]).mouse_button.is_none()
            ==> exists|k: int| 0 <= k < old(ws)@.len()
                && group_turned_off(inputs_applied(old(ws)@, *input), k, out.events@, input.toggle_changed@)
                && out.clicks@[c] == off_click(inputs_applied(old(ws)@, *input)[k]),
        forall|k: int| 0 <= k < old(ws)@.len()
            && #[trigger] group_turned_off(inputs_applied(old(ws)@, *input), k, out.events@, input.toggle_changed@)
            ==> exists|c: int| 0 <= c < out.clicks@.len() && out.clicks@[c] == off_click(inputs_applied(old(ws)@, *input)[k])
                && forall|c2: int| 0 <= c2 < out.clicks@.len() && (#[trigger] out.clicks@[c2]).entity == old(ws)@[k].entity
                    && out.clicks@[c2].mouse_button.is_none() ==> c2 == c,
        // every widget whose state changed is marked, and every marked widget shows its state
        forall|k: int| 0 <= k < old(ws)@.len() && state_changed(old(ws)@[k], #[trigger] final(ws)@[k], *input)
            ==> out.visual_changed@.contains(old(ws)@[k].entity),
        forall|k: int| 0 <= k < final(ws)@.len() && out.visual_changed@.contains(final(ws)@[k].entity)
            ==> (#[trigger] final(ws)@[k]).visual_state == visual_state_of(final(ws)@[k]),
        forall|k: int| 0 <= k < old(ws)@.len() && !out.visual_changed@.contains(old(ws)@[k].entity)
            ==> (#[trigger] final(ws)@[k]).visual_state == old(ws)@[k].visual_state,
        // toggle groups stay exclusive
        exclusive_unless_written(old(ws)@, input.toggle_changed@) ==> groups_exclusive(final(ws)@),
{
    let ghost ws0 = ws@;
    let ghost wc = inputs_applied(ws0, *input);
    let mut events: Vec<PressEvent> = Vec::new();
    let mut visual: Vec<Entity> = Vec::new();
    let mut clicks: Vec<ButtonClickInfo> = Vec::new();
    apply_input(ws, input, &mut events, &mut visual);
    let ghost vis1 = visual@;
    proof {
        assert(ws@ =~= wc);
        assert forall|i: int, j: int| 0 <= i < ws@.len() && 0 <= j < ws@.len() && i != j
            implies ws@[i].entity != ws@[j].entity by {
            assert(ws@[i] == after_input(ws0[i], *input));
            assert(ws@[j] == after_input(ws0[j], *input));
        }
    }
    apply_clicks(ws, &events, &input.toggle_changed, &mut visual, &mut clicks);
    let ghost ws_f = ws@;
    let ghost vis2 = visual@;
    let mut i: usize = 0;
    while i < input.disabled_changed.len()
        invariant
            i <= input.disabled_changed@.len(),
            visual@ == vis2 + input.disabled_changed@.subrange(0, i as int),
        decreases input.disabled_changed@.len() - i,
    {
        visual.push(input.disabled_changed[i]);
        assert(visual@ =~= vis2 + input.disabled_changed@.subrange(0, i + 1));
        i = i + 1;
    }
    assert(visual@ =~= vis2 + input.disabled_changed@);
    refresh_visuals(ws, &visual);
    proof {
        let ev = events@;
        let tc = input.toggle_changed@;
        assert forall|k: int| 0 <= k < ws0.len() implies same_config(ws0[k], #[trigger] ws@[k])
            && ws@[k].internal_state == wc[k].internal_state
            && ws@[k].toggle == toggle_after_frame(wc, k, ev, tc) by {
            assert(wc[k] == after_input(ws0[k], *input));
            assert(ws_f[k] == (ButtonQuery { toggle: toggle_after_frame(wc, k, ev, tc), ..after_clicks(wc[k], ev) }));
        }
        lemma_frame_marks(ws0, wc, ws@, vis1, vis2, visual@, ev, *input);
        if exclusive_unless_written(ws0, tc) {
            lemma_frame_exclusive(ws0, wc, ws@, ev, *input);
        }
    }
    FrameOutput { events, clicks, visual_changed: visual }
}

} // verus!
