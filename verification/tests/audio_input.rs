use fantasyconsole::audio::{
    arpeggio_duration, channel_waveform, sfx_channel, sfx_duration, waveform_from_code, ChannelClock, Waveform,
};
use fantasyconsole::network::{pack_buttons, unpack_buttons};

#[test]
fn waveform_codes() {
    assert_eq!(waveform_from_code(0), Waveform::Sine);
    assert_eq!(waveform_from_code(1), Waveform::Square);
    assert_eq!(waveform_from_code(2), Waveform::Triangle);
    assert_eq!(waveform_from_code(3), Waveform::Sawtooth);
    assert_eq!(waveform_from_code(200), Waveform::Sawtooth);
}

#[test]
fn sfx_channel_selection() {
    assert_eq!(sfx_channel(None), 0);
    assert_eq!(sfx_channel(Some(-1)), 0);
    assert_eq!(sfx_channel(Some(2)), 2);
    assert_eq!(sfx_channel(Some(6)), 2);
    assert_eq!(sfx_channel(Some(i32::MAX)), 3);
    assert_eq!(channel_waveform(0), 0);
    assert_eq!(channel_waveform(3), 3);
    assert_eq!(channel_waveform(5), 1);
}

#[test]
fn sound_durations() {
    assert_eq!(sfx_duration(None), 150);
    assert_eq!(sfx_duration(Some(40)), 40);
    assert_eq!(sfx_duration(Some(-1)), u32::MAX);
    assert_eq!(arpeggio_duration(None), 300);
    assert_eq!(arpeggio_duration(Some(7)), 7);
}

#[test]
fn arpeggio_cycles_and_sound_ends() {
    let mut c = ChannelClock::new(2);
    assert!(!c.active);
    assert_eq!(c.step(), None);
    c.play(5, 3);
    assert!(c.active);
    assert_eq!(c.step(), None);
    assert_eq!(c.step(), Some(1));
    assert_eq!(c.step(), None);
    assert_eq!(c.step(), Some(2));
    assert_eq!(c.remaining_samples, 1);
    assert!(c.active);
    assert_eq!(c.step(), None);
    assert!(!c.active);
    assert_eq!(c.remaining_samples, 0);
    // a silent channel stays as it is
    assert_eq!(c.step(), None);
    assert_eq!((c.tick_counter, c.current_note_idx), (1, 2));
    // the arpeggio wraps round to the first note
    c.play(10, 2);
    assert_eq!(c.step(), None);
    assert_eq!(c.step(), Some(1));
    assert_eq!(c.step(), None);
    assert_eq!(c.step(), Some(0));
}

#[test]
fn single_note_and_endless_sounds() {
    let mut c = ChannelClock::new(1);
    c.play(2, 1);
    assert_eq!(c.step(), None);
    assert_eq!(c.step(), None);
    assert!(!c.active);
    // a length of zero never counts down
    c.play(0, 1);
    for _ in 0..10 {
        c.step();
    }
    assert!(c.active);
    // a tick of one sample moves every sample
    c.play(0, 3);
    assert_eq!(c.step(), Some(1));
    assert_eq!(c.step(), Some(2));
    assert_eq!(c.step(), Some(0));
}

#[test]
fn button_bitmask() {
    let b = [true, false, true, false, false, true];
    assert_eq!(pack_buttons(&b), 0b100101);
    assert_eq!(unpack_buttons(0b100101), b);
    assert_eq!(pack_buttons(&[false; 6]), 0);
    assert_eq!(pack_buttons(&[true; 6]), 63);
    assert_eq!(unpack_buttons(0xFF), [true; 6]);
    // the two high bits carry nothing
    assert_eq!(pack_buttons(&unpack_buttons(0xC5)), 0x05);
    for p in 0..64u8 {
        assert_eq!(pack_buttons(&unpack_buttons(p)), p);
    }
}
