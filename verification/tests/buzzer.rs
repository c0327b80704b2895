use laser_lockdown::buzzer::{play_fight_song, Beat, BuzzerStep, Note};

#[test]
fn written_notes_sound_two_semitones_lower() {
    assert_eq!(Note::B.to_freq(4), 440);
    assert_eq!(Note::D.to_freq(4), 262);
    assert_eq!(Note::A.to_freq(4), 392);
    assert_eq!(Note::C.to_freq(5), 466);
    assert_eq!(Note::Cs.to_freq(5), 494);
    assert_eq!(Note::Cs.to_freq(4), 247);
}

#[test]
fn octaves_double_and_halve() {
    assert_eq!(Note::B.to_freq(5), 880);
    assert_eq!(Note::B.to_freq(7), 3520);
    assert_eq!(Note::B.to_freq(3), 220);
    assert_eq!(Note::E.to_freq(2), 294 / 4);
    assert_eq!(Note::B.to_freq(-20), 0);
    assert_eq!(Note::B.to_freq(35), 0);
}

#[test]
fn pause_is_silent() {
    assert_eq!(Note::Pause.to_freq(4), 0);
    assert_eq!(Note::Pause.to_freq(i32::MIN), 0);
}

#[test]
fn beats() {
    assert_eq!(Beat::Q, 428);
    assert_eq!(Beat::H, 856);
    assert_eq!(Beat::DH, 1284);
    assert_eq!(Beat::E, 214);
    assert_eq!(Beat::DE, 321);
    assert_eq!(Beat::S, 107);
}

#[test]
fn fight_song() {
    let steps = play_fight_song();
    let waits: Vec<u32> = steps
        .iter()
        .filter_map(|s| match s {
            BuzzerStep::Wait(ms) if *ms != 10 => Some(*ms),
            _ => None,
        })
        .collect();
    assert_eq!(
        waits,
        vec![321, 107, 214, 214, 214, 214, 214, 214, 214, 214, 428, 214, 214, 428, 856, 428, 428]
    );
    assert_eq!(
        steps[..5],
        [
            BuzzerStep::Frequency(524),
            BuzzerStep::Duty(50),
            BuzzerStep::Wait(321),
            BuzzerStep::Duty(0),
            BuzzerStep::Wait(10),
        ]
    );
    let tones = steps.iter().filter(|s| matches!(s, BuzzerStep::Frequency(_))).count();
    assert_eq!(tones, 13);
    assert_eq!(steps.len(), 13 * 5 + 4 * 4);
    assert_eq!(steps[steps.len() - 1], BuzzerStep::Wait(10));
}
