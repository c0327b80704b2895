//! The door: what happens when a keycard is read.
//!
//! [`Door`] decides. Its caller obtains what [`Door::need`] asks for, hands it to
//! [`Door::step`], and carries out the actions that come back.
use crate::signals::Command;
use vstd::prelude::*;

verus! {

/// For how many microseconds a keycard can be added after "add mode" was enabled.
pub const MAX_ADD_MODE_TIME: u64 = 20_000_000;

/// How many milliseconds the actuator takes.
pub const ACTUATOR_TIME: u64 = 2000;

/// How many milliseconds a flash takes, and the pause behind it.
pub const FLASH_TIME: u64 = 250;

/// How often the door is looked at before it is locked again.
pub const FLASHES: u8 = 20;

/// Whether the next keycard is to be added.
#[derive(Copy, Clone, Debug, PartialEq, Eq, Structural)]
pub struct AddMode {
    pub enabled: bool,
    /// When the mode was enabled, in microseconds.
    pub enabled_at: u64,
}

impl AddMode {
    pub fn new() -> (m: AddMode)
        ensures
            m == (AddMode { enabled: false, enabled_at: 0 }),
    {
        AddMode { enabled: false, enabled_at: 0 }
    }

    /// Enables the mode.
    pub fn enable(&mut self, now: u64)
        ensures
            *final(self) == (AddMode { enabled: true, enabled_at: now }),
            forall|t: u64|
                now <= t ==> #[trigger] final(self).active(t) == (t < now + 20_000_000),
    {
        self.enabled = true;
        self.enabled_at = now;
    }

    /// Whether a keycard that is read now is to be added: the mode is enabled and has not
    /// expired.
    pub open spec fn active(self, now: u64) -> bool {
        self.enabled && now - self.enabled_at < MAX_ADD_MODE_TIME
    }

    /// Disables the mode, and tells whether it was active.
    pub fn take(&mut self, now: u64) -> (r: bool)
        requires
            old(self).enabled ==> old(self).enabled_at <= now,
        ensures
            r == old(self).active(now),
            *final(self) == (AddMode { enabled: false, ..*old(self) }),
            forall|t: u64| !(#[trigger] final(self).active(t)),
    {
        if self.enabled {
            self.enabled = false;
            now - self.enabled_at < MAX_ADD_MODE_TIME
        } else {
            false
        }
    }
}

/// One thing to do.
#[derive(Debug)]
pub enum DoorAction {
    /// Switch the indicator LED.
    Led { on: bool },
    /// Switch the buzzer.
    Buzzer { on: bool },
    /// Switch the line that opens the door.
    Opener { on: bool },
    /// Switch the line that closes the door.
    Closer { on: bool },
    /// Wait for some milliseconds.
    Wait { ms: u64 },
    /// Start a ticker with a period of some milliseconds.
    StartTicker { ms: u64 },
    /// Wait for the ticker.
    Tick,
    /// Send a command to the storage.
    Send { command: Command },
}

/// What happened.
#[derive(Copy, Clone, Debug, PartialEq, Eq, Structural)]
pub enum DoorEvent {
    /// A keycard was read, at a time in microseconds.
    Card { code: u64, now: u64 },
    /// The door sensor was read: it is high where the door is closed.
    Sensor { high: bool },
    /// The keycard's id was hashed.
    Hashed { id: u64 },
    /// The storage told whether the user is known.
    Answer { known: bool },
}

/// What has to be found out next.
#[derive(Copy, Clone, Debug, PartialEq, Eq, Structural)]
pub enum DoorNeed {
    Card,
    Sensor,
    /// The hash of an id.
    Hash { id: u32 },
    Answer,
}

#[derive(Copy, Clone, Debug, PartialEq, Eq, Structural)]
pub enum DoorState {
    /// Waits for a keycard.
    Idle,
    /// A keycard was read; is the door closed?
    Presented { card: u32 },
    /// The keycard's id is being hashed.
    Hashing { card: u32 },
    /// The storage was asked for the user.
    Asking { id: u64 },
    /// The door can be opened; the sensor was read that many times.
    Flashing { ticks: u8 },
    /// The door is to be locked as soon as it is closed.
    Closing,
}

impl DoorState {
    /// What has to be found out in this state.
    pub open spec fn needs(self) -> DoorNeed {
        match self {
            DoorState::Idle => DoorNeed::Card,
            DoorState::Presented { .. } => DoorNeed::Sensor,
            DoorState::Hashing { card } => DoorNeed::Hash { id: card },
            DoorState::Asking { .. } => DoorNeed::Answer,
            DoorState::Flashing { .. } => DoorNeed::Sensor,
            DoorState::Closing => DoorNeed::Sensor,
        }
    }

    /// The sensor is read fewer than 20 times while the light flashes.
    pub open spec fn wf(self) -> bool {
        self matches DoorState::Flashing { ticks } ==> ticks < FLASHES
    }
}

/// Whether an event answers a need.
pub open spec fn answers(event: DoorEvent, need: DoorNeed) -> bool {
    match need {
        DoorNeed::Card => event is Card,
        DoorNeed::Sensor => event is Sensor,
        DoorNeed::Hash { .. } => event is Hashed,
        DoorNeed::Answer => event is Answer,
    }
}

/// The part of a keycard's code that names its user.
pub open spec fn user_part(code: u64) -> u32 {
    (code % 0x10000) as u32
}

/// The light and the buzzer on.
pub open spec fn signal_on() -> Seq<DoorAction> {
    seq![DoorAction::Led { on: true }, DoorAction::Buzzer { on: true }]
}

/// The light and the buzzer off.
pub open spec fn signal_off() -> Seq<DoorAction> {
    seq![DoorAction::Led { on: false }, DoorAction::Buzzer { on: false }]
}

/// Half a second on, half a second off.
pub open spec fn blink() -> Seq<DoorAction> {
    signal_on().push(DoorAction::Wait { ms: 500 }) + signal_off().push(
        DoorAction::Wait { ms: 500 },
    )
}

/// A keycard was added: the light blinks three times.
pub open spec fn added(card: u32) -> Seq<DoorAction> {
    seq![DoorAction::Send { command: Command::AddUser { id: card } }] + blink() + blink() + blink()
}

/// Access was denied: one long pulse.
pub open spec fn denied() -> Seq<DoorAction> {
    signal_on().push(DoorAction::Wait { ms: 1000 }) + signal_off()
}

/// Access was granted: it is logged, and the door is opened.
pub open spec fn granted(id: u64) -> Seq<DoorAction> {
    seq![
        DoorAction::Send { command: Command::LogUser { id } },
        DoorAction::Opener { on: true },
        DoorAction::Wait { ms: ACTUATOR_TIME },
        DoorAction::Opener { on: false },
        DoorAction::StartTicker { ms: FLASH_TIME },
    ]
}

/// The door can be opened: one rapid flash.
pub open spec fn flash() -> Seq<DoorAction> {
    signal_on().push(DoorAction::Tick) + signal_off().push(DoorAction::Tick)
}

/// The door is locked.
pub open spec fn locked() -> Seq<DoorAction> {
    seq![
        DoorAction::Closer { on: true },
        DoorAction::Wait { ms: ACTUATOR_TIME },
        DoorAction::Closer { on: false },
    ]
}

/// What the door does next: its next state and what is to be done.
pub open spec fn door_step(state: DoorState, mode: AddMode, event: DoorEvent) -> (
    DoorState,
    Seq<DoorAction>,
) {
    match (state, event) {
        (DoorState::Idle, DoorEvent::Card { code, now }) => if mode.active(now) {
            (DoorState::Idle, added(user_part(code)))
        } else {
            (DoorState::Presented { card: user_part(code) }, seq![])
        },
        (DoorState::Presented { card }, DoorEvent::Sensor { high }) => if high {
            (DoorState::Hashing { card }, seq![])
        } else {
            (DoorState::Idle, seq![])
        },
        (DoorState::Hashing { card }, DoorEvent::Hashed { id }) => (
            DoorState::Asking { id },
            seq![DoorAction::Send { command: Command::IsUser { id } }],
        ),
        (DoorState::Asking { id }, DoorEvent::Answer { known }) => if known {
            (DoorState::Flashing { ticks: 0 }, granted(id))
        } else {
            (DoorState::Idle, denied())
        },
        (DoorState::Flashing { ticks }, DoorEvent::Sensor { high }) => {
            let seen = if high {
                flash()
            } else {
                seq![]
            };
            if ticks + 1 == FLASHES {
                (DoorState::Closing, seen.push(DoorAction::StartTicker { ms: FLASH_TIME }))
            } else {
                (DoorState::Flashing { ticks: (ticks + 1) as u8 }, seen)
            }
        },
        (DoorState::Closing, DoorEvent::Sensor { high }) => if high {
            (DoorState::Idle, locked())
        } else {
            (DoorState::Closing, seq![DoorAction::Tick])
        },
        _ => (state, seq![]),
    }
}

fn push_signal(actions: &mut Vec<DoorAction>, on: bool)
    ensures
        final(actions)@ == old(actions)@ + if on {
            signal_on()
        } else {
            signal_off()
        },
{
    actions.push(DoorAction::Led { on });
    actions.push(DoorAction::Buzzer { on });
    assert(actions@ =~= old(actions)@ + if on {
        signal_on()
    } else {
        signal_off()
    });
}

/// The test of the light and the buzzer when the device starts: five seconds each.
pub open spec fn self_test() -> Seq<DoorAction> {
    seq![
        DoorAction::Led { on: true },
        DoorAction::Wait { ms: 5000 },
        DoorAction::Led { on: false },
        DoorAction::Buzzer { on: true },
        DoorAction::Wait { ms: 5000 },
        DoorAction::Buzzer { on: false },
    ]
}

/// What decides at the door.
pub struct Door {
    state: DoorState,
}

impl View for Door {
    type V = DoorState;

    closed spec fn view(&self) -> DoorState {
        self.state
    }
}

impl Door {
    /// A door that waits for a keycard, and what is to be done first.
    pub fn new() -> (r: (Door, Vec<DoorAction>))
        ensures
            r.0@ == DoorState::Idle,
            r.1@ == self_test(),
    {
        let mut actions: Vec<DoorAction> = Vec::new();
        actions.push(DoorAction::Led { on: true });
        actions.push(DoorAction::Wait { ms: 5000 });
        actions.push(DoorAction::Led { on: false });
        actions.push(DoorAction::Buzzer { on: true });
        actions.push(DoorAction::Wait { ms: 5000 });
        actions.push(DoorAction::Buzzer { on: false });
        assert(actions@ =~= self_test());
        (Door { state: DoorState::Idle }, actions)
    }

    /// What has to be found out next.
    pub fn need(&self) -> (n: DoorNeed)
        ensures
            n == self@.needs(),
    {
        match self.state {
            DoorState::Idle => DoorNeed::Card,
            DoorState::Presented { .. } => DoorNeed::Sensor,
            DoorState::Hashing { card } => DoorNeed::Hash { id: card },
            DoorState::Asking { .. } => DoorNeed::Answer,
            DoorState::Flashing { .. } => DoorNeed::Sensor,
            DoorState::Closing => DoorNeed::Sensor,
        }
    }

    /// Takes what was found out, and tells what is to be done.
    pub fn step(&mut self, mode: &mut AddMode, event: DoorEvent) -> (actions: Vec<DoorAction>)
        requires
            old(self)@.wf(),
            answers(event, old(self)@.needs()),
            event matches DoorEvent::Card { code, now } ==> old(mode).enabled ==> old(
                mode,
            ).enabled_at <= now,
        ensures
            final(self)@.wf(),
            (final(self)@, actions@) == door_step(old(self)@, *old(mode), event),
            *final(mode) == if event is Card {
                AddMode { enabled: false, ..*old(mode) }
            } else {
                *old(mode)
            },
    {
        let mut actions: Vec<DoorAction> = Vec::new();
        match (self.state, event) {
            (DoorState::Idle, DoorEvent::Card { code, now }) => {
                assert(code & 0xFFFF == code % 0x10000) by (bit_vector);
                let card = (code & 0xFFFF) as u32;
                if mode.take(now) {
                    actions.push(DoorAction::Send { command: Command::AddUser { id: card } });
                    push_blink(&mut actions);
                    push_blink(&mut actions);
                    push_blink(&mut actions);
                    assert(actions@ =~= added(card));
                } else {
                    self.state = DoorState::Presented { card };
                }
            },
            (DoorState::Presented { card }, DoorEvent::Sensor { high }) => {
                if high {
                    self.state = DoorState::Hashing { card };
                } else {
                    self.state = DoorState::Idle;
                }
            },
            (DoorState::Hashing { .. }, DoorEvent::Hashed { id }) => {
                actions.push(DoorAction::Send { command: Command::IsUser { id } });
                self.state = DoorState::Asking { id };
            },
            (DoorState::Asking { id }, DoorEvent::Answer { known }) => {
                if known {
                    actions.push(DoorAction::Send { command: Command::LogUser { id } });
                    actions.push(DoorAction::Opener { on: true });
                    actions.push(DoorAction::Wait { ms: ACTUATOR_TIME });
                    actions.push(DoorAction::Opener { on: false });
                    actions.push(DoorAction::StartTicker { ms: FLASH_TIME });
                    assert(actions@ =~= granted(id));
                    self.state = DoorState::Flashing { ticks: 0 };
                } else {
                    push_signal(&mut actions, true);
                    actions.push(DoorAction::Wait { ms: 1000 });
                    push_signal(&mut actions, false);
                    assert(actions@ =~= denied());
                    self.state = DoorState::Idle;
                }
            },
            (DoorState::Flashing { ticks }, DoorEvent::Sensor { high }) => {
                if high {
                    push_signal(&mut actions, true);
                    actions.push(DoorAction::Tick);
                    push_signal(&mut actions, false);
                    actions.push(DoorAction::Tick);
                    assert(actions@ =~= flash());
                }
                if ticks + 1 == FLASHES {
                    actions.push(DoorAction::StartTicker { ms: FLASH_TIME });
                    self.state = DoorState::Closing;
                } else {
                    self.state = DoorState::Flashing { ticks: ticks + 1 };
                }
            },
            (DoorState::Closing, DoorEvent::Sensor { high }) => {
                if high {
                    actions.push(DoorAction::Closer { on: true });
                    actions.push(DoorAction::Wait { ms: ACTUATOR_TIME });
                    actions.push(DoorAction::Closer { on: false });
                    assert(actions@ =~= locked());
                    self.state = DoorState::Idle;
                } else {
                    actions.push(DoorAction::Tick);
                }
            },
            _ => {},
        }
        actions
    }
}

fn push_blink(actions: &mut Vec<DoorAction>)
    ensures
        final(actions)@ == old(actions)@ + blink(),
{
    push_signal(actions, true);
    actions.push(DoorAction::Wait { ms: 500 });
    push_signal(actions, false);
    actions.push(DoorAction::Wait { ms: 500 });
    assert(actions@ =~= old(actions)@ + blink());
}

/// Whether the line that opens the door is switched on.
pub open spec fn opens(actions: Seq<DoorAction>) -> bool {
    actions.contains(DoorAction::Opener { on: true })
}

/// Whether the line that closes the door is switched on.
pub open spec fn closes(actions: Seq<DoorAction>) -> bool {
    actions.contains(DoorAction::Closer { on: true })
}

/// The door opens exactly when the storage told that the user is known, and this user is the
/// one who is logged.
pub proof fn law_door_opens_for_known_users_only(state: DoorState, mode: AddMode, event: DoorEvent)
    requires
        answers(event, state.needs()),
    ensures
        opens(door_step(state, mode, event).1) == (event == DoorEvent::Answer { known: true }),
        event == (DoorEvent::Answer { known: true }) ==> (state matches DoorState::Asking { id }
            && door_step(state, mode, event).1[0] == (DoorAction::Send {
            command: Command::LogUser { id },
        })),
{
    let actions = door_step(state, mode, event).1;
    match event {
        DoorEvent::Answer { known } if known => {
            assert(actions[1] == DoorAction::Opener { on: true });
        },
        _ => {
            assert forall|i: int| 0 <= i < actions.len() implies actions[i] != (
            DoorAction::Opener { on: true }) by {}
        },
    }
}

/// The door is locked only while it is closed.
pub proof fn law_door_is_locked_only_when_closed(state: DoorState, mode: AddMode, event: DoorEvent)
    requires
        answers(event, state.needs()),
    ensures
        closes(door_step(state, mode, event).1) == (state is Closing && event
            == DoorEvent::Sensor { high: true }),
{
    let actions = door_step(state, mode, event).1;
    if state is Closing && event == (DoorEvent::Sensor { high: true }) {
        assert(actions[0] == DoorAction::Closer { on: true });
    } else {
        assert forall|i: int| 0 <= i < actions.len() implies actions[i] != (DoorAction::Closer {
            on: true,
        }) by {}
    }
}

/// What the door does while the sensor is read again and again.
pub open spec fn watch(state: DoorState, mode: AddMode, readings: Seq<bool>) -> (
    DoorState,
    Seq<DoorAction>,
)
    decreases readings.len(),
{
    if readings.len() == 0 {
        (state, seq![])
    } else {
        let (before, done) = watch(state, mode, readings.drop_last());
        let (after, next) = door_step(
            before,
            mode,
            DoorEvent::Sensor { high: readings.last() },
        );
        (after, done + next)
    }
}

proof fn lemma_flashing(mode: AddMode, readings: Seq<bool>)
    requires
        readings.len() <= FLASHES,
    ensures
        watch(DoorState::Flashing { ticks: 0 }, mode, readings).0 == if readings.len() < FLASHES {
            DoorState::Flashing { ticks: readings.len() as u8 }
        } else {
            DoorState::Closing
        },
    decreases readings.len(),
{
    if readings.len() > 0 {
        lemma_flashing(mode, readings.drop_last());
    }
}

/// Whatever the sensor shows, an opened door is locked again: after twenty readings, as soon
/// as the door is closed, and that is the last that is done before the next keycard.
pub proof fn law_opened_door_is_locked_again(mode: AddMode, readings: Seq<bool>)
    requires
        readings.len() > FLASHES,
        readings.last(),
        forall|i: int| FLASHES <= i < readings.len() - 1 ==> !readings[i],
    ensures
        ({
            let (state, actions) = watch(DoorState::Flashing { ticks: 0 }, mode, readings);
            &&& state == DoorState::Idle
            &&& actions.len() >= 3
            &&& actions.skip(actions.len() - 3) == locked()
        }),
{
    let front = readings.drop_last();
    lemma_waits(mode, front);
    let (before, done) = watch(DoorState::Flashing { ticks: 0 }, mode, front);
    let actions = watch(DoorState::Flashing { ticks: 0 }, mode, readings).1;
    assert(actions =~= done + locked());
    assert(actions.skip(actions.len() - 3) =~= locked());
}

proof fn lemma_waits(mode: AddMode, readings: Seq<bool>)
    requires
        readings.len() >= FLASHES,
        forall|i: int| FLASHES <= i < readings.len() ==> !readings[i],
    ensures
        watch(DoorState::Flashing { ticks: 0 }, mode, readings).0 == DoorState::Closing,
    decreases readings.len(),
{
    if readings.len() == FLASHES {
        lemma_flashing(mode, readings);
    } else {
        lemma_waits(mode, readings.drop_last());
    }
}

/// How many milliseconds a row of actions waits for the ticker.
pub open spec fn ticker_time(actions: Seq<DoorAction>) -> nat
    decreases actions.len(),
{
    if actions.len() == 0 {
        0
    } else if actions.last() is Tick {
        ticker_time(actions.drop_last()) + FLASH_TIME as nat
    } else {
        ticker_time(actions.drop_last())
    }
}

proof fn lemma_ticker_time(a: Seq<DoorAction>, b: Seq<DoorAction>)
    ensures
        ticker_time(a + b) == ticker_time(a) + ticker_time(b),
    decreases b.len(),
{
    if b.len() == 0 {
        assert(a + b =~= a);
    } else {
        assert((a + b).drop_last() =~= a + b.drop_last());
        lemma_ticker_time(a, b.drop_last());
    }
}

proof fn lemma_flash_time(mode: AddMode, readings: Seq<bool>)
    requires
        readings.len() <= FLASHES,
        forall|i: int| 0 <= i < readings.len() ==> readings[i],
    ensures
        ticker_time(watch(DoorState::Flashing { ticks: 0 }, mode, readings).1) == 500
            * readings.len(),
    decreases readings.len(),
{
    if readings.len() > 0 {
        let front = readings.drop_last();
        lemma_flash_time(mode, front);
        lemma_flashing(mode, front);
        let (before, done) = watch(DoorState::Flashing { ticks: 0 }, mode, front);
        let next = door_step(before, mode, DoorEvent::Sensor { high: true }).1;
        lemma_ticker_time(done, next);
        assert(flash().len() == 6);
        assert(ticker_time(flash()) == 500) by {
            reveal_with_fuel(ticker_time, 7);
        }
        if readings.len() == FLASHES {
            assert(next.drop_last() =~= flash());
        }
    }
}

/// While nobody opens the door, the light flashes for ten seconds before the door is locked.
pub proof fn law_unopened_door_is_locked_after_ten_seconds(mode: AddMode, readings: Seq<bool>)
    requires
        readings.len() == FLASHES + 1,
        forall|i: int| 0 <= i < readings.len() ==> readings[i],
    ensures
        ({
            let (state, actions) = watch(DoorState::Flashing { ticks: 0 }, mode, readings);
            &&& state == DoorState::Idle
            &&& ticker_time(actions) == 10_000
        }),
{
    let front = readings.drop_last();
    lemma_flash_time(mode, front);
    lemma_flashing(mode, front);
    let done = watch(DoorState::Flashing { ticks: 0 }, mode, front).1;
    lemma_ticker_time(done, locked());
    assert(ticker_time(locked()) == 0) by {
        reveal_with_fuel(ticker_time, 4);
    }
}

/// The level of an output behind a row of actions, where `level` tells which actions set it.
pub open spec fn level_after(
    actions: Seq<DoorAction>,
    level: spec_fn(DoorAction) -> Option<bool>,
    before: bool,
) -> bool
    decreases actions.len(),
{
    if actions.len() == 0 {
        before
    } else {
        match level(actions.last()) {
            Some(on) => on,
            None => level_after(actions.drop_last(), level, before),
        }
    }
}

pub open spec fn led_level(a: DoorAction) -> Option<bool> {
    match a {
        DoorAction::Led { on } => Some(on),
        _ => None,
    }
}

pub open spec fn buzzer_level(a: DoorAction) -> Option<bool> {
    match a {
        DoorAction::Buzzer { on } => Some(on),
        _ => None,
    }
}

pub open spec fn opener_level(a: DoorAction) -> Option<bool> {
    match a {
        DoorAction::Opener { on } => Some(on),
        _ => None,
    }
}

pub open spec fn closer_level(a: DoorAction) -> Option<bool> {
    match a {
        DoorAction::Closer { on } => Some(on),
        _ => None,
    }
}

/// Every output is off behind a row of actions that started with it off.
pub open spec fn ends_low(actions: Seq<DoorAction>) -> bool {
    &&& !level_after(actions, |a: DoorAction| led_level(a), false)
    &&& !level_after(actions, |a: DoorAction| buzzer_level(a), false)
    &&& !level_after(actions, |a: DoorAction| opener_level(a), false)
    &&& !level_after(actions, |a: DoorAction| closer_level(a), false)
}

proof fn lemma_level_after(
    actions: Seq<DoorAction>,
    level: spec_fn(DoorAction) -> Option<bool>,
    at: int,
)
    requires
        -1 <= at < actions.len(),
        at >= 0 ==> level(actions[at]) == Some(false),
        forall|i: int| at < i < actions.len() ==> #[trigger] level(actions[i]) is None,
    ensures
        !level_after(actions, level, false),
    decreases actions.len(),
{
    if actions.len() > 0 && at < actions.len() - 1 {
        assert(level(actions[actions.len() - 1]) is None);
        let front = actions.drop_last();
        assert forall|i: int| at < i < front.len() implies #[trigger] level(front[i]) is None by {
            assert(level(actions[i]) is None);
        }
        lemma_level_after(front, level, at);
    }
}

/// Behind every step, and behind the test at the start, the light, the buzzer and both lines
/// of the actuator are off.
pub proof fn law_outputs_are_off_between_steps(state: DoorState, mode: AddMode, event: DoorEvent)
    requires
        answers(event, state.needs()),
    ensures
        ends_low(door_step(state, mode, event).1),
        ends_low(self_test()),
{
    let actions = door_step(state, mode, event).1;
    let led = |a: DoorAction| led_level(a);
    let buzzer = |a: DoorAction| buzzer_level(a);
    let opener = |a: DoorAction| opener_level(a);
    let closer = |a: DoorAction| closer_level(a);
    let test = self_test();
    lemma_level_after(test, led, 2);
    lemma_level_after(test, buzzer, 5);
    lemma_level_after(test, opener, -1);
    lemma_level_after(test, closer, -1);
    match (state, event) {
        (DoorState::Idle, DoorEvent::Card { code, now }) if mode.active(now) => {
            lemma_level_after(actions, led, 16);
            lemma_level_after(actions, buzzer, 17);
            lemma_level_after(actions, opener, -1);
            lemma_level_after(actions, closer, -1);
        },
        (DoorState::Asking { .. }, DoorEvent::Answer { known }) if known => {
            lemma_level_after(actions, led, -1);
            lemma_level_after(actions, buzzer, -1);
            lemma_level_after(actions, opener, 3);
            lemma_level_after(actions, closer, -1);
        },
        (DoorState::Asking { .. }, DoorEvent::Answer { .. }) => {
            lemma_level_after(actions, led, 3);
            lemma_level_after(actions, buzzer, 4);
            lemma_level_after(actions, opener, -1);
            lemma_level_after(actions, closer, -1);
        },
        (DoorState::Flashing { .. }, DoorEvent::Sensor { high }) if high => {
            lemma_level_after(actions, led, 3);
            lemma_level_after(actions, buzzer, 4);
            lemma_level_after(actions, opener, -1);
            lemma_level_after(actions, closer, -1);
        },
        (DoorState::Closing, DoorEvent::Sensor { high }) if high => {
            lemma_level_after(actions, led, -1);
            lemma_level_after(actions, buzzer, -1);
            lemma_level_after(actions, opener, -1);
            lemma_level_after(actions, closer, 2);
        },
        _ => {
            lemma_level_after(actions, led, -1);
            lemma_level_after(actions, buzzer, -1);
            lemma_level_after(actions, opener, -1);
            lemma_level_after(actions, closer, -1);
        },
    }
}

/// "Add mode" takes one keycard: with the mode enabled at `at`, a keycard that is read within
/// 20 seconds is added, a later one is not, and the keycard behind it never is.
pub proof fn law_add_mode_takes_one_card(at: u64, code: u64, now: u64, next: u64, later: u64)
    requires
        at <= now <= later,
    ensures
        ({
            let mode = AddMode { enabled: true, enabled_at: at };
            let used = AddMode { enabled: false, ..mode };
            let first = door_step(DoorState::Idle, mode, DoorEvent::Card { code, now }).1;
            let second = door_step(DoorState::Idle, used, DoorEvent::Card { code: next, now: later }).1;
            &&& first == if now - at < 20_000_000 {
                added(user_part(code))
            } else {
                seq![]
            }
            &&& second == Seq::<DoorAction>::empty()
        }),
{
}

/// Two keycards are taken for one user exactly where the low 16 bits of their codes agree, and
/// a code of 16 bits is asked for as it is.
pub proof fn law_cards_are_told_apart(a: u64, b: u64, now: u64, later: u64, mode: AddMode)
    requires
        !mode.active(now),
        !mode.active(later),
    ensures
        ({
            let first = door_step(
                door_step(DoorState::Idle, mode, DoorEvent::Card { code: a, now }).0,
                mode,
                DoorEvent::Sensor { high: true },
            ).0.needs();
            let second = door_step(
                door_step(DoorState::Idle, mode, DoorEvent::Card { code: b, now: later }).0,
                mode,
                DoorEvent::Sensor { high: true },
            ).0.needs();
            &&& door_step(DoorState::Idle, mode, DoorEvent::Card { code: a, now }).0.needs()
                == DoorNeed::Sensor
            &&& first is Hash
            &&& (first == second) == (a % 0x10000 == b % 0x10000)
            &&& a < 0x10000 ==> first == (DoorNeed::Hash { id: a as u32 })
        }),
{
}

/// The keycard that "add mode" sends to the storage is the one that the door asks for when the
/// same keycard is presented later.
pub proof fn law_added_card_is_the_one_asked_for(
    code: u64,
    now: u64,
    on: AddMode,
    later: u64,
    off: AddMode,
)
    requires
        on.active(now),
        !off.active(later),
    ensures
        ({
            let actions = door_step(DoorState::Idle, on, DoorEvent::Card { code, now }).1;
            let presented = door_step(
                DoorState::Idle,
                off,
                DoorEvent::Card { code, now: later },
            ).0;
            let need = door_step(presented, off, DoorEvent::Sensor { high: true }).0.needs();
            &&& actions.len() > 0
            &&& need matches DoorNeed::Hash { id } && actions[0] == (DoorAction::Send {
                command: Command::AddUser { id },
            })
        }),
{
}

/// The user who is logged is the one who was asked for, and that is the one whose id was
/// hashed.
pub proof fn law_logged_user_is_the_one_asked_for(card: u32, id: u64, mode: AddMode)
    ensures
        ({
            let (asking, question) = door_step(
                DoorState::Hashing { card },
                mode,
                DoorEvent::Hashed { id },
            );
            let (flashing, actions) = door_step(asking, mode, DoorEvent::Answer { known: true });
            &&& question == seq![DoorAction::Send { command: Command::IsUser { id } }]
            &&& asking.needs() == DoorNeed::Answer
            &&& actions[0] == (DoorAction::Send { command: Command::LogUser { id } })
            &&& actions[1] == (DoorAction::Opener { on: true })
            &&& flashing.needs() == DoorNeed::Sensor
        }),
{
}

/// While the door can be opened, the light flashes at every reading of a closed door and at no
/// other.
pub proof fn law_light_flashes_while_the_door_is_closed(ticks: u8, high: bool, mode: AddMode)
    requires
        ticks < FLASHES,
    ensures
        ({
            let actions = door_step(
                DoorState::Flashing { ticks },
                mode,
                DoorEvent::Sensor { high },
            ).1;
            &&& actions.contains(DoorAction::Led { on: true }) == high
            &&& actions.contains(DoorAction::Buzzer { on: true }) == high
            &&& actions.contains(DoorAction::Tick) == high
        }),
{
    let actions = door_step(DoorState::Flashing { ticks }, mode, DoorEvent::Sensor { high }).1;
    if high {
        assert(actions[0] == DoorAction::Led { on: true });
        assert(actions[1] == DoorAction::Buzzer { on: true });
        assert(actions[2] == DoorAction::Tick);
    }
}

/// All keycards that are added are answered with one signal, and so are all that are let in and
/// all that are turned away: only the command to the storage names the user.
pub proof fn law_signals_are_the_same_for_everybody(
    a: u64,
    b: u64,
    now: u64,
    later: u64,
    on: AddMode,
    known: bool,
)
    requires
        on.active(now),
        on.active(later),
    ensures
        ({
            let first = door_step(DoorState::Idle, on, DoorEvent::Card { code: a, now });
            let second = door_step(DoorState::Idle, on, DoorEvent::Card { code: b, now: later });
            &&& first.0 == DoorState::Idle && second.0 == DoorState::Idle
            &&& first.1.len() == 19 && first.1.skip(1) == second.1.skip(1)
        }),
        ({
            let first = door_step(DoorState::Asking { id: a }, on, DoorEvent::Answer { known });
            let second = door_step(DoorState::Asking { id: b }, on, DoorEvent::Answer { known });
            &&& first.0 == second.0
            &&& first.1.len() == 5 && first.1.skip(1) == second.1.skip(1)
            &&& !known ==> first.1 == second.1
        }),
{
}

/// A keycard at an open door does nothing, whoever presents it.
pub proof fn law_open_door_asks_nobody(card: u32, mode: AddMode)
    ensures
        door_step(DoorState::Presented { card }, mode, DoorEvent::Sensor { high: false }) == (
            DoorState::Idle,
            Seq::<DoorAction>::empty(),
        ),
{
}

/// Every reading while the light flashes is answered alike, but for the twentieth, behind which
/// the door is to be locked.
pub proof fn law_flashes_are_alike(a: u8, b: u8, high: bool, mode: AddMode)
    requires
        a < 19,
        b < 19,
    ensures
        ({
            let event = DoorEvent::Sensor { high };
            let first = door_step(DoorState::Flashing { ticks: a }, mode, event);
            let second = door_step(DoorState::Flashing { ticks: b }, mode, event);
            let last = door_step(DoorState::Flashing { ticks: 19 }, mode, event);
            &&& first.0 == (DoorState::Flashing { ticks: (a + 1) as u8 })
            &&& first.0.needs() == DoorNeed::Sensor
            &&& last.0.needs() == DoorNeed::Sensor
            &&& first.1 == second.1
            &&& last.0 == DoorState::Closing
            &&& last.1 == first.1.push(DoorAction::StartTicker { ms: 250 })
        }),
{
}

/// "Add mode" makes a difference to a keycard that is presented, and to nothing else.
pub proof fn law_add_mode_concerns_cards_only(
    state: DoorState,
    a: AddMode,
    b: AddMode,
    event: DoorEvent,
)
    requires
        answers(event, state.needs()),
        event matches DoorEvent::Card { now, .. } ==> a.active(now) == b.active(now),
    ensures
        door_step(state, a, event) == door_step(state, b, event),
{
}

} // verus!
