use wave_conservation::midi::{midi_to_text, MidiEvent};

#[test]
fn test_midi_to_text() {
    let events = vec![MidiEvent {
        note: 60,
        velocity: 100,
        tick: 0,
        duration: 480,
    }];
    let text = midi_to_text(&events);
    assert!(text.contains("note=060"));
    assert!(text.contains("vel=100"));
}

#[test]
fn midi_text_exact_lines() {
    let events = vec![
        MidiEvent { note: 5, velocity: 1, tick: 7, duration: 0 },
        MidiEvent { note: 127, velocity: 127, tick: 123456, duration: 4294967295 },
    ];
    assert_eq!(
        midi_to_text(&events),
        "tick=0007 note=005 vel=001 dur=0\ntick=123456 note=127 vel=127 dur=4294967295"
    );
}

#[test]
fn midi_text_empty() {
    assert_eq!(midi_to_text(&[]), "");
}
