use laser_lockdown::door::{AddMode, Door, DoorAction, DoorEvent, DoorNeed};

const ON: &str = "Led { on: true }, Buzzer { on: true }";
const OFF: &str = "Led { on: false }, Buzzer { on: false }";

fn text(actions: &[DoorAction]) -> String {
    let parts: Vec<String> = actions.iter().map(|a| format!("{:?}", a)).collect();
    parts.join(", ")
}

fn door() -> (Door, AddMode) {
    (Door::new().0, AddMode::new())
}

fn grant(door: &mut Door, mode: &mut AddMode) -> String {
    door.step(mode, DoorEvent::Card { code: 5, now: 0 });
    door.step(mode, DoorEvent::Sensor { high: true });
    door.step(mode, DoorEvent::Hashed { id: 77 });
    text(&door.step(mode, DoorEvent::Answer { known: true }))
}

#[test]
fn device_tests_its_outputs_at_the_start() {
    let (door, actions) = Door::new();
    assert_eq!(
        text(&actions),
        "Led { on: true }, Wait { ms: 5000 }, Led { on: false }, Buzzer { on: true }, Wait { ms: 5000 }, Buzzer { on: false }"
    );
    assert_eq!(door.need(), DoorNeed::Card);
}

#[test]
fn card_in_add_mode_is_added_with_a_triple_blink() {
    let (mut door, mut mode) = door();
    mode.enable(1_000_000);
    let actions = door.step(&mut mode, DoorEvent::Card { code: 0x1_2345, now: 20_999_999 });
    let blink = format!("{}, Wait {{ ms: 500 }}, {}, Wait {{ ms: 500 }}", ON, OFF);
    assert_eq!(
        text(&actions),
        format!("Send {{ command: AddUser {{ id: 9029 }} }}, {}, {}, {}", blink, blink, blink)
    );
    assert!(!mode.enabled);
    assert_eq!(door.need(), DoorNeed::Card);
}

#[test]
fn add_mode_takes_one_card() {
    let (mut door, mut mode) = door();
    mode.enable(0);
    assert_eq!(door.step(&mut mode, DoorEvent::Card { code: 1, now: 5 }).len(), 19);
    assert!(door.step(&mut mode, DoorEvent::Card { code: 2, now: 6 }).is_empty());
    assert_eq!(door.need(), DoorNeed::Sensor);
}

#[test]
fn add_mode_expires_after_twenty_seconds() {
    let (mut door, mut mode) = door();
    mode.enable(1_000_000);
    let actions = door.step(&mut mode, DoorEvent::Card { code: 1, now: 21_000_000 });
    assert!(actions.is_empty());
    assert!(!mode.enabled);
    assert_eq!(door.need(), DoorNeed::Sensor);
}

#[test]
fn card_at_an_open_door_does_nothing() {
    let (mut door, mut mode) = door();
    door.step(&mut mode, DoorEvent::Card { code: 1, now: 0 });
    assert!(door.step(&mut mode, DoorEvent::Sensor { high: false }).is_empty());
    assert_eq!(door.need(), DoorNeed::Card);
}

#[test]
fn user_is_asked_for_by_the_hashed_id() {
    let (mut door, mut mode) = door();
    door.step(&mut mode, DoorEvent::Card { code: 0x1f_abcd, now: 0 });
    assert!(door.step(&mut mode, DoorEvent::Sensor { high: true }).is_empty());
    assert_eq!(door.need(), DoorNeed::Hash { id: 0xabcd });
    let actions = door.step(&mut mode, DoorEvent::Hashed { id: 77 });
    assert_eq!(text(&actions), "Send { command: IsUser { id: 77 } }");
    assert_eq!(door.need(), DoorNeed::Answer);
}

#[test]
fn unknown_user_is_denied_with_a_long_pulse() {
    let (mut door, mut mode) = door();
    door.step(&mut mode, DoorEvent::Card { code: 5, now: 0 });
    door.step(&mut mode, DoorEvent::Sensor { high: true });
    door.step(&mut mode, DoorEvent::Hashed { id: 77 });
    let actions = door.step(&mut mode, DoorEvent::Answer { known: false });
    assert_eq!(text(&actions), format!("{}, Wait {{ ms: 1000 }}, {}", ON, OFF));
    assert_eq!(door.need(), DoorNeed::Card);
}

#[test]
fn known_user_is_logged_and_let_in() {
    let (mut door, mut mode) = door();
    assert_eq!(
        grant(&mut door, &mut mode),
        "Send { command: LogUser { id: 77 } }, Opener { on: true }, Wait { ms: 2000 }, Opener { on: false }, StartTicker { ms: 250 }"
    );
    assert_eq!(door.need(), DoorNeed::Sensor);
}

#[test]
fn closed_door_flashes_for_ten_seconds_and_is_locked() {
    let (mut door, mut mode) = door();
    grant(&mut door, &mut mode);
    let flash = format!("{}, Tick, {}, Tick", ON, OFF);
    let mut ticks = 0;
    for i in 1..=20 {
        let actions = door.step(&mut mode, DoorEvent::Sensor { high: true });
        ticks += actions.iter().filter(|a| matches!(a, DoorAction::Tick)).count();
        if i < 20 {
            assert_eq!(text(&actions), flash);
        } else {
            assert_eq!(text(&actions), format!("{}, StartTicker {{ ms: 250 }}", flash));
        }
    }
    assert_eq!(ticks * 250, 10_000);
    let actions = door.step(&mut mode, DoorEvent::Sensor { high: true });
    assert_eq!(text(&actions), "Closer { on: true }, Wait { ms: 2000 }, Closer { on: false }");
    assert_eq!(door.need(), DoorNeed::Card);
}

#[test]
fn open_door_is_locked_when_it_is_closed() {
    let (mut door, mut mode) = door();
    grant(&mut door, &mut mode);
    for i in 1..=20 {
        let actions = door.step(&mut mode, DoorEvent::Sensor { high: false });
        assert_eq!(text(&actions), if i < 20 { "" } else { "StartTicker { ms: 250 }" });
    }
    for _ in 0..50 {
        assert_eq!(text(&door.step(&mut mode, DoorEvent::Sensor { high: false })), "Tick");
    }
    let actions = door.step(&mut mode, DoorEvent::Sensor { high: true });
    assert_eq!(text(&actions), "Closer { on: true }, Wait { ms: 2000 }, Closer { on: false }");
    assert_eq!(door.need(), DoorNeed::Card);
}

#[test]
fn outputs_are_off_behind_every_step() {
    let (mut door, mut mode) = door();
    mode.enable(0);
    let mut levels = [false; 4];
    let mut all = Door::new().1;
    all.extend(door.step(&mut mode, DoorEvent::Card { code: 5, now: 0 }));
    all.extend(door.step(&mut mode, DoorEvent::Card { code: 5, now: 0 }));
    all.extend(door.step(&mut mode, DoorEvent::Sensor { high: true }));
    all.extend(door.step(&mut mode, DoorEvent::Hashed { id: 1 }));
    all.extend(door.step(&mut mode, DoorEvent::Answer { known: true }));
    for _ in 0..21 {
        all.extend(door.step(&mut mode, DoorEvent::Sensor { high: true }));
    }
    for a in &all {
        match a {
            DoorAction::Led { on } => levels[0] = *on,
            DoorAction::Buzzer { on } => levels[1] = *on,
            DoorAction::Opener { on } => levels[2] = *on,
            DoorAction::Closer { on } => levels[3] = *on,
            _ => {}
        }
    }
    assert_eq!(levels, [false; 4]);
    assert_eq!(door.need(), DoorNeed::Card);
}
