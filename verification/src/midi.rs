//! MIDI events derived from wave patterns, and their text rendering.

use vstd::prelude::*;

use crate::text::{
    all_digits, decimal, digits_value, lemma_decimal_value, lemma_zero_padded_value, push_decimal,
    push_zero_padded, zero_padded,
};

verus! {

/// A single MIDI event derived from a wave pattern.
#[derive(Debug, Clone)]
pub struct MidiEvent {
    /// MIDI note number (0–127). Mapped from node position.
    pub note: u8,
    /// Velocity (0–127). Mapped from wave amplitude.
    pub velocity: u8,
    /// Time offset in ticks.
    pub tick: u32,
    /// Duration in ticks.
    pub duration: u32,
}

/// One line of the text rendering:
/// `tick=TTTT note=NNN vel=VVV dur=D`, with tick, note and velocity zero-padded.
pub open spec fn event_line(e: MidiEvent) -> Seq<char> {
    "tick="@ + zero_padded(e.tick as nat, 4) + " note="@ + zero_padded(e.note as nat, 3) + " vel="@
        + zero_padded(e.velocity as nat, 3) + " dur="@ + decimal(e.duration as nat)
}

/// The lines of all events, joined by newlines (no trailing newline).
pub open spec fn events_text(events: Seq<MidiEvent>) -> Seq<char>
    decreases events.len(),
{
    if events.len() == 0 {
        Seq::empty()
    } else if events.len() == 1 {
        event_line(events[0])
    } else {
        events_text(events.drop_last()) + "\n"@ + event_line(events.last())
    }
}

/// Each line reads `tick=T note=N vel=V dur=D`, where `T`, `N`, `V` and `D`
/// are strings of digits that write the event's tick, note, velocity and
/// duration, with `T` at least four digits long and `N` and `V` at least three.
pub proof fn lemma_event_line_fields(e: MidiEvent)
    ensures
        exists|t: Seq<char>, nt: Seq<char>, vl: Seq<char>, d: Seq<char>|
            #![trigger digits_value(t), digits_value(nt), digits_value(vl), digits_value(d)]
            event_line(e) == "tick="@ + t + " note="@ + nt + " vel="@ + vl + " dur="@ + d
                && all_digits(t) && t.len() >= 4 && digits_value(t) == e.tick
                && all_digits(nt) && nt.len() >= 3 && digits_value(nt) == e.note
                && all_digits(vl) && vl.len() >= 3 && digits_value(vl) == e.velocity
                && all_digits(d) && d.len() >= 1 && digits_value(d) == e.duration,
{
    let t = zero_padded(e.tick as nat, 4);
    let nt = zero_padded(e.note as nat, 3);
    let vl = zero_padded(e.velocity as nat, 3);
    let d = decimal(e.duration as nat);
    lemma_zero_padded_value(e.tick as nat, 4);
    lemma_zero_padded_value(e.note as nat, 3);
    lemma_zero_padded_value(e.velocity as nat, 3);
    lemma_decimal_value(e.duration as nat);
    assert(digits_value(t) == e.tick && digits_value(nt) == e.note && digits_value(vl) == e.velocity
        && digits_value(d) == e.duration);
}

/// Splits `s` at every `'\n'`, as `str::split('\n')` does: `k` newlines give
/// `k + 1` pieces, and the empty text gives one empty piece.
pub open spec fn split_lines(s: Seq<char>) -> Seq<Seq<char>>
    decreases s.len(),
{
    if s.len() == 0 {
        seq![Seq::<char>::empty()]
    } else if s.last() == '\n' {
        split_lines(s.drop_last()).push(Seq::<char>::empty())
    } else {
        let r = split_lines(s.drop_last());
        r.update(r.len() - 1, r.last().push(s.last()))
    }
}

/// `s` holds no newline character.
pub open spec fn no_newline(s: Seq<char>) -> bool {
    forall|i: int| 0 <= i < s.len() ==> s[i] != '\n'
}

proof fn lemma_split_nonempty(s: Seq<char>)
    ensures
        split_lines(s).len() >= 1,
    decreases s.len(),
{
    if s.len() > 0 {
        lemma_split_nonempty(s.drop_last());
    }
}

/// Appending text without newlines extends the last piece.
proof fn lemma_split_append_plain(a: Seq<char>, b: Seq<char>)
    requires
        no_newline(b),
    ensures
        split_lines(a + b) == split_lines(a).update(
            split_lines(a).len() - 1,
            split_lines(a).last() + b,
        ),
    decreases b.len(),
{
    lemma_split_nonempty(a);
    if b.len() == 0 {
        assert(a + b =~= a);
        assert(split_lines(a).last() + b =~= split_lines(a).last());
        assert(split_lines(a).update(split_lines(a).len() - 1, split_lines(a).last())
            =~= split_lines(a));
    } else {
        let b0 = b.drop_last();
        assert(no_newline(b0));
        lemma_split_append_plain(a, b0);
        assert((a + b).drop_last() =~= a + b0);
        assert((a + b).last() == b.last());
        let r = split_lines(a + b0);
        assert(r.last() == split_lines(a).last() + b0);
        assert(b[b.len() - 1] != '\n');
        assert((a + b).len() > 0);
        assert(split_lines(a + b) == r.update(r.len() - 1, r.last().push(b.last())));
        assert(r.last().push(b.last()) =~= split_lines(a).last() + b);
        assert(split_lines(a + b) =~= split_lines(a).update(
            split_lines(a).len() - 1,
            split_lines(a).last() + b,
        ));
    }
}

proof fn lemma_decimal_no_newline(x: nat)
    ensures
        no_newline(decimal(x)),
    decreases x,
{
    if x >= 10 {
        lemma_decimal_no_newline(x / 10);
    }
}

proof fn lemma_event_line_no_newline(e: MidiEvent)
    ensures
        no_newline(event_line(e)),
{
    reveal_strlit("tick=");
    reveal_strlit(" note=");
    reveal_strlit(" vel=");
    reveal_strlit(" dur=");
    lemma_decimal_no_newline(e.tick as nat);
    lemma_decimal_no_newline(e.note as nat);
    lemma_decimal_no_newline(e.velocity as nat);
    lemma_decimal_no_newline(e.duration as nat);
    let l = event_line(e);
    assert forall|i: int| 0 <= i < l.len() implies l[i] != '\n' by {
        let d = decimal(e.duration as nat);
        let p1 = "tick="@ + zero_padded(e.tick as nat, 4);
        let p2 = p1 + " note="@ + zero_padded(e.note as nat, 3);
        let p3 = p2 + " vel="@ + zero_padded(e.velocity as nat, 3);
        let p4 = p3 + " dur="@;
        assert(no_newline(zero_padded(e.tick as nat, 4)));
        assert(no_newline(zero_padded(e.note as nat, 3)));
        assert(no_newline(zero_padded(e.velocity as nat, 3)));
        assert(no_newline(p1));
        assert(no_newline(p2));
        assert(no_newline(p3));
        assert(no_newline(p4));
        assert(l == p4 + d);
    }
}

/// The text of a non-empty list of events, split at its newlines, gives back
/// exactly one line per event, in order; so it holds one newline between each
/// pair of consecutive events and no other. No events give the empty text.
pub proof fn lemma_text_lines(events: Seq<MidiEvent>)
    ensures
        events.len() >= 1 ==> split_lines(events_text(events)) == events.map_values(
            |e: MidiEvent| event_line(e),
        ),
        events.len() == 0 ==> events_text(events).len() == 0,
    decreases events.len(),
{
    reveal_strlit("\n");
    if events.len() == 1 {
        lemma_event_line_no_newline(events[0]);
        lemma_split_append_plain(Seq::empty(), event_line(events[0]));
        assert(Seq::<char>::empty() + event_line(events[0]) =~= event_line(events[0]));
        assert(Seq::<char>::empty() + event_line(events[0]) =~= event_line(events[0]));
        assert(split_lines(event_line(events[0])) =~= events.map_values(
            |e: MidiEvent| event_line(e),
        ));
    } else if events.len() > 1 {
        let init = events.drop_last();
        let line = event_line(events.last());
        lemma_text_lines(init);
        lemma_event_line_no_newline(events.last());
        let a = events_text(init) + "\n"@;
        assert(a.last() == '\n');
        assert(a.drop_last() =~= events_text(init));
        assert(split_lines(a) == split_lines(events_text(init)).push(Seq::<char>::empty()));
        lemma_split_append_plain(a, line);
        assert(Seq::<char>::empty() + line =~= line);
        assert(split_lines(events_text(events)) =~= events.map_values(
            |e: MidiEvent| event_line(e),
        ));
    }
}

fn push_event_line(s: &mut String, e: &MidiEvent)
    ensures
        final(s)@ == old(s)@ + event_line(*e),
{
    let ghost start = s@;
    s.append("tick=");
    push_zero_padded(s, e.tick as u64, 4);
    s.append(" note=");
    push_zero_padded(s, e.note as u64, 3);
    s.append(" vel=");
    push_zero_padded(s, e.velocity as u64, 3);
    s.append(" dur=");
    push_decimal(s, e.duration as u64);
    assert(s@ =~= start + event_line(*e));
}

/// Convert MIDI events to a simple text-based MIDI file representation (for debugging).
pub fn midi_to_text(events: &[MidiEvent]) -> (text: String)
    ensures
        text@ == events_text(events@),
        events@.len() >= 1 ==> split_lines(text@) == events@.map_values(|e: MidiEvent| event_line(e)),
        events@.len() == 0 ==> text@.len() == 0,
{
    proof {
        lemma_text_lines(events@);
    }
    let mut s = String::new();
    let mut i: usize = 0;
    while i < events.len()
        invariant
            i <= events@.len(),
            s@ == events_text(events@.subrange(0, i as int)),
        decreases events@.len() - i,
    {
        let ghost before = s@;
        if i > 0 {
            s.append("\n");
        }
        push_event_line(&mut s, &events[i]);
        proof {
            let pre = events@.subrange(0, i as int);
            let post = events@.subrange(0, i + 1);
            assert(post.drop_last() =~= pre);
            assert(post.last() == events@[i as int]);
            if i == 0 {
                assert(s@ =~= event_line(events@[0]));
            }
        }
        i = i + 1;
    }
    assert(events@.subrange(0, events@.len() as int) =~= events@);
    s
}

} // verus!
