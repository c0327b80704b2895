use laser_lockdown::rfid::{HIDReader, LineEvent, ReaderStep};

fn pulses(bits: u64) -> Vec<LineEvent> {
    (0..35)
        .rev()
        .map(|i| if bits >> i & 1 == 1 { LineEvent::D1 } else { LineEvent::D0 })
        .collect()
}

fn send(reader: &mut HIDReader, events: &[LineEvent]) -> ReaderStep {
    let mut last = ReaderStep::AwaitCard;
    for e in events {
        last = reader.read_card(*e);
    }
    last
}

#[test]
fn card_is_read() {
    let mut r = HIDReader::new();
    let card = pulses(0x12_3456 << 1 | 1);
    assert_eq!(send(&mut r, &card[..34]), ReaderStep::AwaitBit);
    assert_eq!(r.read_card(card[34]), ReaderStep::Card { id: 0x12_3456 });
}

#[test]
fn only_the_last_21_bits_count() {
    let mut r = HIDReader::new();
    let card = pulses(0x7_ffff_ffff);
    assert_eq!(send(&mut r, &card), ReaderStep::Card { id: 0x1f_ffff });
    let card = pulses(0x7_ffc0_0000);
    assert_eq!(send(&mut r, &card), ReaderStep::Card { id: 0 });
}

#[test]
fn incomplete_card_is_dropped() {
    let mut r = HIDReader::new();
    let card = pulses(0x12_3456 << 1);
    assert_eq!(send(&mut r, &card[..20]), ReaderStep::AwaitBit);
    assert_eq!(r.read_card(LineEvent::Timeout), ReaderStep::AwaitCard);
    assert_eq!(send(&mut r, &card), ReaderStep::Card { id: 0x12_3456 });
}

#[test]
fn card_behind_a_card_is_read() {
    let mut r = HIDReader::new();
    assert_eq!(send(&mut r, &pulses(5 << 1)), ReaderStep::Card { id: 5 });
    assert_eq!(send(&mut r, &pulses(6 << 1)), ReaderStep::Card { id: 6 });
}

#[test]
fn bits_are_awaited_one_by_one() {
    let mut r = HIDReader::new();
    assert_eq!(r.read_card(LineEvent::D0), ReaderStep::AwaitBit);
    assert_eq!(r.read_card(LineEvent::D1), ReaderStep::AwaitBit);
    assert_eq!(r.read_card(LineEvent::Timeout), ReaderStep::AwaitCard);
}
