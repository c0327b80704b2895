//! The keycard reader, which sends a card as 35 pulses on two data lines.
use vstd::arithmetic::power2::pow2;
use vstd::prelude::*;

verus! {

/// How many bits a card sends.
pub const CARD_BITS: u8 = 35;

/// How long the reader waits for the next bit of a card, in milliseconds.
pub const BIT_TIMEOUT: u64 = 50;

/// What happened on the data lines.
#[derive(Copy, Clone, Debug, PartialEq, Eq, Structural)]
pub enum LineEvent {
    /// A pulse on data line 0: a zero.
    D0,
    /// A pulse on data line 1: a one.
    D1,
    /// No pulse within the time that was waited for.
    Timeout,
}

/// What to do next.
#[derive(Copy, Clone, Debug, PartialEq, Eq, Structural)]
pub enum ReaderStep {
    /// Wait for the first bit of a card, however long it takes.
    AwaitCard,
    /// Wait for the next bit of a card for `BIT_TIMEOUT` milliseconds.
    AwaitBit,
    /// A card was read; `id` is its id.
    Card { id: u64 },
}

/// The number that a row of bits stands for, the first bit being the highest.
pub open spec fn bits_value(bits: Seq<bool>) -> nat
    decreases bits.len(),
{
    if bits.len() == 0 {
        0
    } else {
        2 * bits_value(bits.drop_last()) + if bits.last() {
            1nat
        } else {
            0
        }
    }
}

/// The id on a card: the 21 bits before the last one, which is a parity bit.
pub open spec fn card_id(bits: Seq<bool>) -> nat {
    bits_value(bits.subrange(13, 34))
}

/// What the reader has received after an event, and what it does next. A card is read when
/// all its bits came; where a bit is late, the bits before it are dropped.
pub open spec fn reader_step(received: Seq<bool>, event: LineEvent) -> (Seq<bool>, ReaderStep) {
    let bits = received.push(event == LineEvent::D1);
    if event == LineEvent::Timeout {
        (Seq::empty(), ReaderStep::AwaitCard)
    } else if bits.len() == CARD_BITS {
        (Seq::empty(), ReaderStep::Card { id: card_id(bits) as u64 })
    } else {
        (bits, ReaderStep::AwaitBit)
    }
}

/// The bits of a card that were received so far.
pub struct HIDReader {
    bits: u64,
    count: u8,
    received: Ghost<Seq<bool>>,
}

impl HIDReader {
    /// The bits that were received of the card that is being read.
    pub closed spec fn received(&self) -> Seq<bool> {
        self.received@
    }

    pub closed spec fn wf(&self) -> bool {
        &&& self.count == self.received@.len()
        &&& self.count < CARD_BITS
        &&& self.bits == bits_value(self.received@)
    }

    /// A reader that waits for a card.
    pub fn new() -> (r: HIDReader)
        ensures
            r.wf(),
            r.received().len() == 0,
    {
        HIDReader { bits: 0, count: 0, received: Ghost(Seq::empty()) }
    }

    /// Takes in what happened on the data lines. A card is read when all its bits came;
    /// where a bit is late, the bits before it are dropped.
    pub fn read_card(&mut self, event: LineEvent) -> (step: ReaderStep)
        requires
            old(self).wf(),
        ensures
            final(self).wf(),
            (final(self).received(), step) == reader_step(old(self).received(), event),
            step matches ReaderStep::Card { id } ==> id == card_id(
                old(self).received().push(event == LineEvent::D1),
            ) && id < 0x20_0000,
    {
        let one = match event {
            LineEvent::Timeout => {
                self.bits = 0;
                self.count = 0;
                self.received = Ghost(Seq::empty());
                return ReaderStep::AwaitCard;
            },
            LineEvent::D0 => false,
            LineEvent::D1 => true,
        };
        let ghost before = self.received@;
        let ghost all = before.push(one);
        let bits = self.bits;
        let count = self.count;
        proof {
            lemma_bits_value_bound(before);
            vstd::arithmetic::power2::lemma2_to64_rest();
            vstd::arithmetic::power2::lemma_pow2_strictly_increases(before.len(), 35);
            assert(all.drop_last() =~= before);
            assert(bits < 0x8_0000_0000);
            assert(bits << 1 == 2 * bits && (bits << 1) | 1 == 2 * bits + 1) by (bit_vector)
                requires
                    bits < 0x8_0000_0000,
            ;
        }
        let bits = if one {
            (bits << 1) | 1
        } else {
            bits << 1
        };
        let count = count + 1;
        assert(bits == bits_value(all));
        if count == CARD_BITS {
            self.bits = 0;
            self.count = 0;
            self.received = Ghost(Seq::empty());
            let card_id = (bits >> 1) & 0x1FFFFF;
            proof {
                lemma_card_id(all, bits);
            }
            return ReaderStep::Card { id: card_id };
        }
        self.bits = bits;
        self.count = count;
        self.received = Ghost(all);
        ReaderStep::AwaitBit
    }
}

proof fn lemma_bits_value_bound(bits: Seq<bool>)
    ensures
        bits_value(bits) < pow2(bits.len()),
    decreases bits.len(),
{
    if bits.len() == 0 {
        vstd::arithmetic::power2::lemma2_to64();
    } else {
        lemma_bits_value_bound(bits.drop_last());
        vstd::arithmetic::power2::lemma_pow2_unfold(bits.len());
    }
}

proof fn lemma_bits_value_append(a: Seq<bool>, b: Seq<bool>)
    ensures
        bits_value(a + b) == bits_value(a) * pow2(b.len()) + bits_value(b),
    decreases b.len(),
{
    if b.len() == 0 {
        vstd::arithmetic::power2::lemma2_to64();
        assert(a + b =~= a);
    } else {
        lemma_bits_value_append(a, b.drop_last());
        assert((a + b).drop_last() =~= a + b.drop_last());
        vstd::arithmetic::power2::lemma_pow2_unfold(b.len());
        let p = pow2((b.len() - 1) as nat) as int;
        let v = bits_value(a) as int;
        assert(2 * (v * p) == v * (2 * p)) by (nonlinear_arith);
    }
}

/// Shifting the parity bit out and masking gives the id.
proof fn lemma_card_id(all: Seq<bool>, bits: u64)
    requires
        all.len() == 35,
        bits == bits_value(all),
    ensures
        (bits >> 1) & 0x1FFFFF == card_id(all),
        card_id(all) < 0x20_0000,
{
    let head = all.subrange(0, 13);
    let mid = all.subrange(13, 34);
    assert(all.drop_last() =~= head + mid);
    lemma_bits_value_append(head, mid);
    lemma_bits_value_bound(mid);
    vstd::arithmetic::power2::lemma2_to64();
    let h = bits_value(head) as int;
    let m = bits_value(mid) as int;
    assert(pow2(21) == 0x20_0000);
    assert(bits_value(all.drop_last()) == h * 0x20_0000 + m);
    assert(bits / 2 == bits_value(all.drop_last()));
    assert((h * 0x20_0000 + m) % 0x20_0000 == m);
    assert((bits >> 1) & 0x1FFFFF == (bits / 2) % 0x20_0000) by (bit_vector);
}

/// What a reader has received after a row of events, and its last step.
pub open spec fn reading(received: Seq<bool>, events: Seq<LineEvent>) -> (Seq<bool>, ReaderStep)
    decreases events.len(),
{
    if events.len() == 0 {
        (received, ReaderStep::AwaitCard)
    } else {
        reader_step(reading(received, events.drop_last()).0, events.last())
    }
}

/// The bits of a row of pulses.
pub open spec fn pulse_bits(events: Seq<LineEvent>) -> Seq<bool> {
    events.map_values(|e: LineEvent| e == LineEvent::D1)
}

/// Whether events are pulses, without a pause.
pub open spec fn all_pulses(events: Seq<LineEvent>) -> bool {
    forall|i: int| 0 <= i < events.len() ==> #[trigger] events[i] != LineEvent::Timeout
}

proof fn lemma_pulses_collect(before: Seq<bool>, pulses: Seq<LineEvent>)
    requires
        pulses.len() < CARD_BITS,
        all_pulses(pulses),
    ensures
        reading(before, seq![LineEvent::Timeout] + pulses).0 == pulse_bits(pulses),
    decreases pulses.len(),
{
    let events = seq![LineEvent::Timeout] + pulses;
    if pulses.len() == 0 {
        assert(events.last() == LineEvent::Timeout);
        assert(pulse_bits(pulses) =~= Seq::<bool>::empty());
    } else {
        let rest = pulses.drop_last();
        assert(events.drop_last() =~= seq![LineEvent::Timeout] + rest);
        assert forall|i: int| 0 <= i < rest.len() implies #[trigger] rest[i] != LineEvent::Timeout by {
            assert(pulses[i] != LineEvent::Timeout);
        }
        lemma_pulses_collect(before, rest);
        assert(pulses[pulses.len() - 1] != LineEvent::Timeout);
        assert(events.last() == pulses.last());
        assert(pulse_bits(pulses) =~= pulse_bits(rest).push(pulses.last() == LineEvent::D1));
    }
}

/// A card that comes after a pause, without a pause in it, is read, whatever came before the
/// pause.
pub proof fn law_card_after_pause_is_read(before: Seq<bool>, pulses: Seq<LineEvent>)
    requires
        pulses.len() == CARD_BITS,
        all_pulses(pulses),
    ensures
        reading(before, seq![LineEvent::Timeout] + pulses) == (
            Seq::<bool>::empty(),
            ReaderStep::Card { id: card_id(pulse_bits(pulses)) as u64 },
        ),
{
    let events = seq![LineEvent::Timeout] + pulses;
    let rest = pulses.drop_last();
    assert forall|i: int| 0 <= i < rest.len() implies #[trigger] rest[i] != LineEvent::Timeout by {
        assert(pulses[i] != LineEvent::Timeout);
    }
    lemma_pulses_collect(before, rest);
    assert(events.drop_last() =~= seq![LineEvent::Timeout] + rest);
    assert(pulses[pulses.len() - 1] != LineEvent::Timeout);
    assert(events.last() == pulses.last());
    assert(pulse_bits(pulses) =~= pulse_bits(rest).push(pulses.last() == LineEvent::D1));
}

/// An incomplete card is never reported: a step reports a card only when 35 bits came
/// without a pause.
pub proof fn law_incomplete_card_is_dropped(received: Seq<bool>, event: LineEvent)
    requires
        received.len() + 1 < CARD_BITS || event == LineEvent::Timeout,
    ensures
        reader_step(received, event).1 !is Card,
{
}

/// Dividing by a power of two brings a bit to the end.
proof fn lemma_bit(bits: Seq<bool>, k: nat)
    requires
        k < bits.len(),
    ensures
        (bits_value(bits) / pow2(k)) % 2 == if bits[bits.len() - 1 - k] {
            1nat
        } else {
            0
        },
    decreases k,
{
    let front = bits.drop_last();
    if k == 0 {
        vstd::arithmetic::power2::lemma2_to64();
        assert(bits_value(bits) / 1 == bits_value(bits));
    } else {
        let j = (k - 1) as nat;
        lemma_bit(front, j);
        vstd::arithmetic::power2::lemma_pow2_unfold(k);
        vstd::arithmetic::power2::lemma_pow2_pos(j);
        assert(bits_value(bits) / 2 == bits_value(front));
        vstd::arithmetic::div_mod::lemma_div_denominator(
            bits_value(bits) as int,
            2,
            pow2(j) as int,
        );
        assert(front[front.len() - 1 - j] == bits[bits.len() - 1 - k]);
    }
}

/// Each of the 21 bits of a card's id is the one that was sent in its place: bit `k` is a one
/// exactly where the pulse so many places before the parity bit came on data line 1.
pub proof fn law_card_shows_the_bits_sent(before: Seq<bool>, pulses: Seq<LineEvent>, k: nat)
    requires
        pulses.len() == 35,
        all_pulses(pulses),
        k < 21,
    ensures
        reading(before, seq![LineEvent::Timeout] + pulses).1 matches ReaderStep::Card { id } && id
            < 0x20_0000 && (((id as nat) / pow2(k)) % 2 == 1) == (pulses[33 - k] == LineEvent::D1),
{
    law_card_after_pause_is_read(before, pulses);
    let mid = pulse_bits(pulses).subrange(13, 34);
    lemma_bits_value_bound(mid);
    vstd::arithmetic::power2::lemma2_to64();
    lemma_bit(mid, k);
    assert(mid[mid.len() - 1 - k] == pulse_bits(pulses)[33 - k]);
}

/// Bits are taken in one behind the other until there are 35 of them, and the reader waits for
/// the next one only for a while; when that has gone by, it waits for a card.
pub proof fn law_reader_waits_for_the_rest(received: Seq<bool>, event: LineEvent)
    ensures
        reader_step(received, LineEvent::Timeout) == (
            Seq::<bool>::empty(),
            ReaderStep::AwaitCard,
        ),
        event != LineEvent::Timeout && received.len() < 34 ==> reader_step(received, event) == (
            received.push(event == LineEvent::D1),
            ReaderStep::AwaitBit,
        ),
        event != LineEvent::Timeout && received.len() == 34 ==> reader_step(received, event).0
            == Seq::<bool>::empty() && reader_step(received, event).1 is Card,
{
}

} // verus!
