//! Reduction of voice messages into note intervals grouped by start time.

use vstd::prelude::*;
use crate::smf::{TimedMessage, VoiceMessage};
use crate::timing::{ticks_to_ms, ticks_to_ms_spec, TempoMap, TempoModel};
use crate::types::{events_view, NoteEvent, NoteEventModel, NoteInterval, Timestamp};

verus! {

/// A note that is sounding: its key and channel, and the velocity and time at
/// which it started.
#[derive(Debug, Clone, Copy, PartialEq, Eq, Structural)]
pub struct ActiveNote {
    pub note: u8,
    pub channel: u8,
    pub velocity: u8,
    pub start: Timestamp,
}

/// The state of a reduction: the sounding notes, in order of first strike,
/// and the closed intervals grouped by start time.
pub ghost struct Reduction {
    pub active: Seq<ActiveNote>,
    pub groups: Seq<NoteEventModel>,
}

/// Index of the sounding note with this key and channel, or -1.
pub open spec fn find_active(active: Seq<ActiveNote>, note: u8, channel: u8) -> int
    decreases active.len(),
{
    if active.len() == 0 {
        -1
    } else if active.last().note == note && active.last().channel == channel {
        active.len() - 1
    } else {
        find_active(active.drop_last(), note, channel)
    }
}

/// Position of start time `t` among groups sorted by start time: after every
/// group that starts earlier.
pub open spec fn group_slot(groups: Seq<NoteEventModel>, t: Timestamp) -> int
    decreases groups.len(),
{
    if groups.len() == 0 {
        0
    } else if groups.last().timestamp < t {
        groups.len() as int
    } else {
        group_slot(groups.drop_last(), t)
    }
}

/// Groups with one more closed interval: appended to the group of its start
/// time, or in a new group placed in order of start time.
pub open spec fn add_interval(groups: Seq<NoteEventModel>, start: Timestamp, iv: NoteInterval) -> Seq<
    NoteEventModel,
> {
    let p = group_slot(groups, start);
    if p < groups.len() && groups[p].timestamp == start {
        groups.update(p, NoteEventModel { timestamp: start, notes: groups[p].notes.push(iv) })
    } else {
        groups.insert(p, NoteEventModel { timestamp: start, notes: seq![iv] })
    }
}

/// A note-off: the sounding note with this key and channel, if any, becomes
/// an interval ending now; otherwise nothing changes.
pub open spec fn note_off(st: Reduction, note: u8, channel: u8, now: Timestamp) -> Reduction {
    let i = find_active(st.active, note, channel);
    if i < 0 {
        st
    } else {
        let a = st.active[i];
        Reduction {
            active: st.active.remove(i),
            groups: add_interval(
                st.groups,
                a.start,
                NoteInterval { note, velocity: a.velocity, soundfont: channel as usize, end_time: now },
            ),
        }
    }
}

/// A note-on: with a velocity it starts the note now, replacing a sounding
/// note of the same key and channel without closing it; with velocity zero it
/// is a note-off.
pub open spec fn note_on(st: Reduction, note: u8, velocity: u8, channel: u8, now: Timestamp) -> Reduction {
    if velocity > 0 {
        let i = find_active(st.active, note, channel);
        let a = ActiveNote { note, channel, velocity, start: now };
        Reduction {
            active: if i < 0 {
                st.active.push(a)
            } else {
                st.active.update(i, a)
            },
            groups: st.groups,
        }
    } else {
        note_off(st, note, channel, now)
    }
}

/// The effect of one message at time `now`; messages other than note-on and
/// note-off change nothing.
pub open spec fn apply_message(st: Reduction, m: TimedMessage, now: Timestamp) -> Reduction {
    match m.message {
        VoiceMessage::NoteOn { key, vel } => note_on(st, key, vel, m.channel, now),
        VoiceMessage::NoteOff { key, vel } => note_off(st, key, m.channel, now),
        _ => st,
    }
}

/// The state after the messages, each at the millisecond of its tick.
pub open spec fn run_messages(msgs: Seq<TimedMessage>, map: TempoModel) -> Reduction
    decreases msgs.len(),
{
    if msgs.len() == 0 {
        Reduction { active: seq![], groups: seq![] }
    } else {
        apply_message(
            run_messages(msgs.drop_last(), map),
            msgs.last(),
            ticks_to_ms_spec(map, msgs.last().tick as int) as Timestamp,
        )
    }
}

/// Groups after closing every sounding note at `end`, in order of first strike.
pub open spec fn close_all(groups: Seq<NoteEventModel>, active: Seq<ActiveNote>, end: Timestamp) -> Seq<
    NoteEventModel,
>
    decreases active.len(),
{
    if active.len() == 0 {
        groups
    } else {
        let a = active.last();
        add_interval(
            close_all(groups, active.drop_last(), end),
            a.start,
            NoteInterval { note: a.note, velocity: a.velocity, soundfont: a.channel as usize, end_time: end },
        )
    }
}

/// Position at which a message at tick `t` goes in messages sorted by tick:
/// after every message at the same tick or earlier.
pub open spec fn tick_slot(sorted: Seq<TimedMessage>, t: u64) -> int
    decreases sorted.len(),
{
    if sorted.len() == 0 {
        0
    } else if sorted.last().tick <= t {
        sorted.len() as int
    } else {
        tick_slot(sorted.drop_last(), t)
    }
}

/// The messages in order of tick; messages at the same tick keep their order.
pub open spec fn sort_by_tick(msgs: Seq<TimedMessage>) -> Seq<TimedMessage>
    decreases msgs.len(),
{
    if msgs.len() == 0 {
        seq![]
    } else {
        let r = sort_by_tick(msgs.drop_last());
        r.insert(tick_slot(r, msgs.last().tick), msgs.last())
    }
}

/// The note events of a file: its messages in order of tick, reduced, and the
/// notes still sounding closed at the time of the last message.
pub open spec fn reduce_notes(msgs: Seq<TimedMessage>, map: TempoModel) -> Seq<NoteEventModel> {
    let sorted = sort_by_tick(msgs);
    let end = if sorted.len() == 0 {
        0
    } else {
        ticks_to_ms_spec(map, sorted.last().tick as int) as Timestamp
    };
    let st = run_messages(sorted, map);
    close_all(st.groups, st.active, end)
}

proof fn lemma_sort_len(msgs: Seq<TimedMessage>)
    ensures
        sort_by_tick(msgs).len() == msgs.len(),
    decreases msgs.len(),
{
    if msgs.len() > 0 {
        lemma_sort_len(msgs.drop_last());
        lemma_tick_slot_range(sort_by_tick(msgs.drop_last()), msgs.last().tick);
    }
}

proof fn lemma_tick_slot_range(s: Seq<TimedMessage>, t: u64)
    ensures
        0 <= tick_slot(s, t) <= s.len(),
    decreases s.len(),
{
    if s.len() > 0 {
        lemma_tick_slot_range(s.drop_last(), t);
    }
}

proof fn lemma_group_slot_range(s: Seq<NoteEventModel>, t: Timestamp)
    ensures
        0 <= group_slot(s, t) <= s.len(),
    decreases s.len(),
{
    if s.len() > 0 {
        lemma_group_slot_range(s.drop_last(), t);
    }
}

proof fn lemma_find_active_range(s: Seq<ActiveNote>, note: u8, channel: u8)
    ensures
        -1 <= find_active(s, note, channel) < s.len(),
        find_active(s, note, channel) >= 0 ==> s[find_active(s, note, channel)].note == note
            && s[find_active(s, note, channel)].channel == channel,
    decreases s.len(),
{
    if s.len() > 0 {
        lemma_find_active_range(s.drop_last(), note, channel);
    }
}

/// Groups in strictly ascending order of start time, none of them empty.
pub open spec fn groups_wf(g: Seq<NoteEventModel>) -> bool {
    &&& forall|i: int, j: int| 0 <= i < j < g.len() ==> #[trigger] g[i].timestamp < #[trigger] g[j].timestamp
    &&& forall|i: int| 0 <= i < g.len() ==> (#[trigger] g[i]).notes.len() > 0
}

proof fn lemma_group_slot(g: Seq<NoteEventModel>, t: Timestamp)
    requires
        groups_wf(g),
    ensures
        0 <= group_slot(g, t) <= g.len(),
        forall|i: int| 0 <= i < group_slot(g, t) ==> #[trigger] g[i].timestamp < t,
        forall|i: int| group_slot(g, t) <= i < g.len() ==> #[trigger] g[i].timestamp >= t,
    decreases g.len(),
{
    if g.len() > 0 {
        let d = g.drop_last();
        assert(groups_wf(d)) by {
            assert forall|i: int, j: int| 0 <= i < j < d.len() implies #[trigger] d[i].timestamp < #[trigger] d[j].timestamp by {
                assert(g[i].timestamp < g[j].timestamp);
            }
            assert forall|i: int| 0 <= i < d.len() implies (#[trigger] d[i]).notes.len() > 0 by {
                assert(g[i].notes.len() > 0);
            }
        }
        lemma_group_slot(d, t);
        if g.last().timestamp >= t {
            assert forall|i: int| group_slot(g, t) <= i < g.len() implies #[trigger] g[i].timestamp >= t by {
                if i < g.len() - 1 {
                    assert(d[i] == g[i]);
                }
            }
            assert forall|i: int| 0 <= i < group_slot(g, t) implies #[trigger] g[i].timestamp < t by {
                assert(d[i] == g[i]);
            }
        } else {
            assert forall|i: int| 0 <= i < group_slot(g, t) implies #[trigger] g[i].timestamp < t by {
                if i < g.len() - 1 {
                    assert(g[i].timestamp < g[g.len() - 1].timestamp);
                }
            }
        }
    }
}

proof fn lemma_add_interval_wf(g: Seq<NoteEventModel>, start: Timestamp, iv: NoteInterval)
    requires
        groups_wf(g),
    ensures
        groups_wf(add_interval(g, start, iv)),
{
    lemma_group_slot(g, start);
    let p = group_slot(g, start);
    let r = add_interval(g, start, iv);
    if p < g.len() && g[p].timestamp == start {
        assert forall|i: int, j: int| 0 <= i < j < r.len() implies #[trigger] r[i].timestamp < #[trigger] r[j].timestamp by {
            assert(g[i].timestamp < g[j].timestamp);
        }
        assert forall|i: int| 0 <= i < r.len() implies (#[trigger] r[i]).notes.len() > 0 by {
            assert(g[i].notes.len() > 0);
        }
    } else {
        assert forall|i: int, j: int| 0 <= i < j < r.len() implies #[trigger] r[i].timestamp < #[trigger] r[j].timestamp by {
            if i < p && j > p {
                assert(g[i].timestamp < g[j - 1].timestamp);
            } else if i > p {
                assert(g[i - 1].timestamp < g[j - 1].timestamp);
            }
        }
        assert forall|i: int| 0 <= i < r.len() implies (#[trigger] r[i]).notes.len() > 0 by {
            if i < p {
                assert(g[i].notes.len() > 0);
            } else if i > p {
                assert(g[i - 1].notes.len() > 0);
            }
        }
    }
}

proof fn lemma_run_messages_wf(msgs: Seq<TimedMessage>, map: TempoModel)
    ensures
        groups_wf(run_messages(msgs, map).groups),
    decreases msgs.len(),
{
    if msgs.len() > 0 {
        let st = run_messages(msgs.drop_last(), map);
        lemma_run_messages_wf(msgs.drop_last(), map);
        let m = msgs.last();
        let now = ticks_to_ms_spec(map, m.tick as int) as Timestamp;
        match m.message {
            VoiceMessage::NoteOn { key, vel } => {
                let i = find_active(st.active, key, m.channel);
                if vel == 0 && i >= 0 {
                    let a = st.active[i];
                    lemma_add_interval_wf(
                        st.groups,
                        a.start,
                        NoteInterval { note: key, velocity: a.velocity, soundfont: m.channel as usize, end_time: now },
                    );
                }
            },
            VoiceMessage::NoteOff { key, vel } => {
                let i = find_active(st.active, key, m.channel);
                if i >= 0 {
                    let a = st.active[i];
                    lemma_add_interval_wf(
                        st.groups,
                        a.start,
                        NoteInterval { note: key, velocity: a.velocity, soundfont: m.channel as usize, end_time: now },
                    );
                }
            },
            _ => {},
        }
    }
}

proof fn lemma_close_all_wf(groups: Seq<NoteEventModel>, active: Seq<ActiveNote>, end: Timestamp)
    requires
        groups_wf(groups),
    ensures
        groups_wf(close_all(groups, active, end)),
    decreases active.len(),
{
    if active.len() > 0 {
        let a = active.last();
        lemma_close_all_wf(groups, active.drop_last(), end);
        lemma_add_interval_wf(
            close_all(groups, active.drop_last(), end),
            a.start,
            NoteInterval { note: a.note, velocity: a.velocity, soundfont: a.channel as usize, end_time: end },
        );
    }
}

/// The note events of a reduction come in strictly ascending order of start
/// time, and none is empty.
pub proof fn lemma_reduce_notes_wf(msgs: Seq<TimedMessage>, map: TempoModel)
    ensures
        groups_wf(reduce_notes(msgs, map)),
{
    let sorted = sort_by_tick(msgs);
    let st = run_messages(sorted, map);
    let end = if sorted.len() == 0 {
        0
    } else {
        ticks_to_ms_spec(map, sorted.last().tick as int) as Timestamp
    };
    lemma_run_messages_wf(sorted, map);
    lemma_close_all_wf(st.groups, st.active, end);
}

/// Messages in order of tick: never a later tick before an earlier one.
pub open spec fn tick_ordered(s: Seq<TimedMessage>) -> bool {
    forall|i: int, j: int| 0 <= i < j < s.len() ==> #[trigger] s[i].tick <= #[trigger] s[j].tick
}

proof fn lemma_tick_slot(s: Seq<TimedMessage>, t: u64)
    requires
        tick_ordered(s),
    ensures
        0 <= tick_slot(s, t) <= s.len(),
        forall|i: int| 0 <= i < tick_slot(s, t) ==> #[trigger] s[i].tick <= t,
        forall|i: int| tick_slot(s, t) <= i < s.len() ==> #[trigger] s[i].tick > t,
    decreases s.len(),
{
    if s.len() > 0 {
        let d = s.drop_last();
        lemma_tick_slot(d, t);
        if s.last().tick > t {
            assert forall|i: int| tick_slot(s, t) <= i < s.len() implies #[trigger] s[i].tick > t by {
                if i < s.len() - 1 {
                    assert(d[i] == s[i]);
                }
            }
            assert forall|i: int| 0 <= i < tick_slot(s, t) implies #[trigger] s[i].tick <= t by {
                assert(d[i] == s[i]);
            }
        } else {
            assert forall|i: int| 0 <= i < tick_slot(s, t) implies #[trigger] s[i].tick <= t by {
                if i < s.len() - 1 {
                    assert(s[i].tick <= s[s.len() - 1].tick);
                }
            }
        }
    }
}

/// Sorting puts the messages in order of tick.
pub proof fn lemma_sort_by_tick_ordered(msgs: Seq<TimedMessage>)
    ensures
        tick_ordered(sort_by_tick(msgs)),
        sort_by_tick(msgs).len() == msgs.len(),
    decreases msgs.len(),
{
    if msgs.len() > 0 {
        let r = sort_by_tick(msgs.drop_last());
        let x = msgs.last();
        lemma_sort_by_tick_ordered(msgs.drop_last());
        lemma_tick_slot(r, x.tick);
        let p = tick_slot(r, x.tick);
        let out = r.insert(p, x);
        assert forall|i: int, j: int| 0 <= i < j < out.len() implies #[trigger] out[i].tick <= #[trigger] out[j].tick by {
            if i < p && j > p {
                assert(r[i].tick <= x.tick);
            } else if i > p {
                assert(r[i - 1].tick <= r[j - 1].tick);
            }
        }
    }
}

/// The messages at tick `t`, in their order.
pub open spec fn at_tick(s: Seq<TimedMessage>, t: u64) -> Seq<TimedMessage>
    decreases s.len(),
{
    if s.len() == 0 {
        seq![]
    } else {
        let prev = at_tick(s.drop_last(), t);
        if s.last().tick == t {
            prev.push(s.last())
        } else {
            prev
        }
    }
}

proof fn lemma_at_tick_concat(a: Seq<TimedMessage>, b: Seq<TimedMessage>, t: u64)
    ensures
        at_tick(a + b, t) == at_tick(a, t) + at_tick(b, t),
    decreases b.len(),
{
    if b.len() == 0 {
        assert(a + b =~= a);
        assert(at_tick(a, t) + at_tick(b, t) =~= at_tick(a, t));
    } else {
        assert((a + b).drop_last() =~= a + b.drop_last());
        assert((a + b).last() == b.last());
        lemma_at_tick_concat(a, b.drop_last(), t);
        if b.last().tick == t {
            assert(at_tick(a + b, t) =~= at_tick(a, t) + at_tick(b, t));
        } else {
            assert(at_tick(a + b, t) =~= at_tick(a, t) + at_tick(b, t));
        }
    }
}

proof fn lemma_at_tick_none(s: Seq<TimedMessage>, t: u64)
    requires
        forall|i: int| 0 <= i < s.len() ==> #[trigger] s[i].tick != t,
    ensures
        at_tick(s, t) == Seq::<TimedMessage>::empty(),
    decreases s.len(),
{
    if s.len() > 0 {
        lemma_at_tick_none(s.drop_last(), t);
    }
}

/// Sorting by tick is stable and loses or adds nothing: at every tick, the
/// sorted messages are the original ones in their original order. With
/// [`lemma_sort_by_tick_ordered`] this pins the sort down: it is a
/// permutation in order of tick that keeps ties in place.
pub proof fn lemma_sort_by_tick_stable(msgs: Seq<TimedMessage>)
    ensures
        forall|t: u64| #[trigger] at_tick(sort_by_tick(msgs), t) == at_tick(msgs, t),
    decreases msgs.len(),
{
    if msgs.len() > 0 {
        let r = sort_by_tick(msgs.drop_last());
        let x = msgs.last();
        lemma_sort_by_tick_stable(msgs.drop_last());
        lemma_sort_by_tick_ordered(msgs.drop_last());
        lemma_tick_slot(r, x.tick);
        let p = tick_slot(r, x.tick);
        let lo = r.subrange(0, p);
        let hi = r.subrange(p, r.len() as int);
        assert(r.insert(p, x) =~= lo + seq![x] + hi);
        assert(r =~= lo + hi);
        assert forall|t: u64| #[trigger] at_tick(sort_by_tick(msgs), t) == at_tick(msgs, t) by {
            lemma_at_tick_concat(lo + seq![x], hi, t);
            lemma_at_tick_concat(lo, seq![x], t);
            lemma_at_tick_concat(lo, hi, t);
            assert(seq![x].drop_last() =~= Seq::<TimedMessage>::empty());
            assert(seq![x].last() == x);
            assert(at_tick(Seq::<TimedMessage>::empty(), t) =~= Seq::<TimedMessage>::empty());
            assert(sort_by_tick(msgs) == r.insert(p, x));
            if t == x.tick {
                assert(at_tick(seq![x], t) =~= seq![x]);
                assert forall|i: int| 0 <= i < hi.len() implies #[trigger] hi[i].tick != t by {
                    assert(hi[i] == r[p + i]);
                }
                lemma_at_tick_none(hi, t);
                assert(at_tick(sort_by_tick(msgs), t) =~= at_tick(lo, t).push(x));
                assert(at_tick(msgs, t) =~= at_tick(lo, t).push(x));
            } else {
                assert(at_tick(seq![x], t) =~= Seq::<TimedMessage>::empty());
                assert(at_tick(sort_by_tick(msgs), t) =~= at_tick(lo, t) + at_tick(hi, t));
            }
        }
    }
}

/// Sorts messages by tick, keeping the order of messages at the same tick.
fn sort_events(events: Vec<TimedMessage>) -> (r: Vec<TimedMessage>)
    ensures
        r@ == sort_by_tick(events@),
{
    let mut out: Vec<TimedMessage> = Vec::new();
    let mut i: usize = 0;
    while i < events.len()
        invariant
            0 <= i <= events@.len(),
            out@ == sort_by_tick(events@.subrange(0, i as int)),
        decreases events@.len() - i,
    {
        let e = events[i];
        let ghost before = out@;
        proof {
            assert(events@.subrange(0, i as int + 1).drop_last() =~= events@.subrange(0, i as int));
            assert(before.subrange(0, before.len() as int) =~= before);
        }
        let mut p: usize = out.len();
        while p > 0 && out[p - 1].tick > e.tick
            invariant
                out@ == before,
                0 <= p <= before.len(),
                tick_slot(before, e.tick) == tick_slot(before.subrange(0, p as int), e.tick),
            decreases p,
        {
            proof {
                assert(before.subrange(0, p as int).drop_last() =~= before.subrange(0, p as int - 1));
            }
            p = p - 1;
        }
        proof {
            if p > 0 {
                assert(before.subrange(0, p as int).last() == before[p - 1]);
            }
        }
        out.insert(p, e);
        i = i + 1;
    }
    proof {
        assert(events@.subrange(0, events@.len() as int) =~= events@);
    }
    out
}

/// Adds a closed interval to the group of its start time.
fn add_to_group(note_changes: &mut Vec<NoteEvent>, start: Timestamp, iv: NoteInterval)
    ensures
        events_view(final(note_changes)@) == add_interval(events_view(old(note_changes)@), start, iv),
{
    let ghost before = events_view(note_changes@);
    proof {
        assert(before.subrange(0, before.len() as int) =~= before);
    }
    let mut p: usize = note_changes.len();
    while p > 0 && note_changes[p - 1].timestamp >= start
        invariant
            events_view(note_changes@) == before,
            note_changes@.len() == before.len(),
            0 <= p <= before.len(),
            group_slot(before, start) == group_slot(before.subrange(0, p as int), start),
        decreases p,
    {
        proof {
            assert(before.subrange(0, p as int).drop_last() =~= before.subrange(0, p as int - 1));
        }
        p = p - 1;
    }
    proof {
        if p > 0 {
            assert(before.subrange(0, p as int).last() == before[p - 1]);
        }
    }
    if p < note_changes.len() && note_changes[p].timestamp == start {
        let mut ev = note_changes.remove(p);
        ev.notes.push(iv);
        note_changes.insert(p, ev);
        proof {
            assert(events_view(note_changes@) =~= before.update(
                p as int,
                NoteEventModel { timestamp: start, notes: before[p as int].notes.push(iv) },
            ));
        }
    } else {
        let mut notes: Vec<NoteInterval> = Vec::new();
        notes.push(iv);
        note_changes.insert(p, NoteEvent { timestamp: start, notes });
        proof {
            assert(events_view(note_changes@) =~= before.insert(
                p as int,
                NoteEventModel { timestamp: start, notes: seq![iv] },
            ));
        }
    }
}

/// Closes the sounding note with this key and channel, if there is one.
fn handle_note_off(
    note: u8,
    channel: u8,
    current_time: Timestamp,
    active_notes: &mut Vec<ActiveNote>,
    note_changes: &mut Vec<NoteEvent>,
)
    ensures
        ({
            let st = note_off(
                Reduction { active: old(active_notes)@, groups: events_view(old(note_changes)@) },
                note,
                channel,
                current_time,
            );
            final(active_notes)@ == st.active && events_view(final(note_changes)@) == st.groups
        }),
{
    if let Some(i) = find_note(active_notes, note, channel) {
        let a = active_notes.remove(i);
        add_to_group(
            note_changes,
            a.start,
            NoteInterval { note, velocity: a.velocity, soundfont: channel as usize, end_time: current_time },
        );
    }
}

/// Starts a note, or closes it when the velocity is zero.
fn handle_note_on(
    note: u8,
    velocity: u8,
    channel: u8,
    current_time: Timestamp,
    active_notes: &mut Vec<ActiveNote>,
    note_changes: &mut Vec<NoteEvent>,
)
    ensures
        ({
            let st = note_on(
                Reduction { active: old(active_notes)@, groups: events_view(old(note_changes)@) },
                note,
                velocity,
                channel,
                current_time,
            );
            final(active_notes)@ == st.active && events_view(final(note_changes)@) == st.groups
        }),
{
    if velocity > 0 {
        let a = ActiveNote { note, channel, velocity, start: current_time };
        match find_note(active_notes, note, channel) {
            Some(i) => active_notes.set(i, a),
            None => active_notes.push(a),
        }
    } else {
        handle_note_off(note, channel, current_time, active_notes, note_changes);
    }
}

/// Index of the sounding note with this key and channel, or -1.
fn find_note(active_notes: &Vec<ActiveNote>, note: u8, channel: u8) -> (r: Option<usize>)
    ensures
        match r {
            Some(i) => i == find_active(active_notes@, note, channel) && i < active_notes@.len(),
            None => find_active(active_notes@, note, channel) == -1,
        },
{
    let ghost s = active_notes@;
    proof {
        lemma_find_active_range(s, note, channel);
        assert(s.subrange(0, s.len() as int) =~= s);
    }
    let mut p: usize = active_notes.len();
    while p > 0
        invariant
            active_notes@ == s,
            0 <= p <= s.len(),
            find_active(s, note, channel) == find_active(s.subrange(0, p as int), note, channel),
        decreases p,
    {
        proof {
            assert(s.subrange(0, p as int).drop_last() =~= s.subrange(0, p as int - 1));
            assert(s.subrange(0, p as int).last() == s[p - 1]);
        }
        if active_notes[p - 1].note == note && active_notes[p - 1].channel == channel {
            return Some(p - 1);
        }
        p = p - 1;
    }
    None
}

/// Reduces voice messages to note events: messages are taken in order of
/// tick, note-ons start notes, note-offs (and note-ons of velocity zero) close
/// them into intervals grouped by start time, and notes still sounding at the
/// end close at the time of the last message.
pub fn process_note_events(all_events: Vec<TimedMessage>, tempo_map: &TempoMap) -> (r: Vec<NoteEvent>)
    requires
        tempo_map.wf(),
    ensures
        events_view(r@) == reduce_notes(all_events@, tempo_map@),
        groups_wf(events_view(r@)),
{
    let ghost msgs = all_events@;
    let sorted = sort_events(all_events);
    proof {
        lemma_sort_len(msgs);
    }
    let last_event_time: Timestamp = if sorted.len() > 0 {
        ticks_to_ms(sorted[sorted.len() - 1].tick, tempo_map)
    } else {
        0
    };
    let mut active_notes: Vec<ActiveNote> = Vec::new();
    let mut note_changes: Vec<NoteEvent> = Vec::new();
    let mut i: usize = 0;
    proof {
        assert(events_view(note_changes@) =~= seq![]);
    }
    while i < sorted.len()
        invariant
            tempo_map.wf(),
            0 <= i <= sorted@.len(),
            ({
                let st = run_messages(sorted@.subrange(0, i as int), tempo_map@);
                active_notes@ == st.active && events_view(note_changes@) == st.groups
            }),
        decreases sorted@.len() - i,
    {
        let m = sorted[i];
        let now = ticks_to_ms(m.tick, tempo_map);
        proof {
            assert(sorted@.subrange(0, i as int + 1).drop_last() =~= sorted@.subrange(0, i as int));
        }
        match m.message {
            VoiceMessage::NoteOn { key, vel } => {
                handle_note_on(key, vel, m.channel, now, &mut active_notes, &mut note_changes);
            },
            VoiceMessage::NoteOff { key, vel: _ } => {
                handle_note_off(key, m.channel, now, &mut active_notes, &mut note_changes);
            },
            _ => {},
        }
        i = i + 1;
    }
    proof {
        assert(sorted@.subrange(0, sorted@.len() as int) =~= sorted@);
    }
    let ghost st_groups = events_view(note_changes@);
    let ghost st_active = active_notes@;
    let mut k: usize = 0;
    while k < active_notes.len()
        invariant
            active_notes@ == st_active,
            0 <= k <= st_active.len(),
            events_view(note_changes@) == close_all(
                st_groups,
                st_active.subrange(0, k as int),
                last_event_time,
            ),
        decreases st_active.len() - k,
    {
        let a = active_notes[k];
        proof {
            assert(st_active.subrange(0, k as int + 1).drop_last() =~= st_active.subrange(0, k as int));
        }
        add_to_group(
            &mut note_changes,
            a.start,
            NoteInterval { note: a.note, velocity: a.velocity, soundfont: a.channel as usize, end_time: last_event_time },
        );
        k = k + 1;
    }
    proof {
        assert(st_active.subrange(0, st_active.len() as int) =~= st_active);
        lemma_reduce_notes_wf(msgs, tempo_map@);
        assert(sorted@ == sort_by_tick(msgs));
    }
    note_changes
}

} // verus!
