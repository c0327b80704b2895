//! Tunes for the buzzer.
use vstd::arithmetic::power2::pow2;
use vstd::prelude::*;

verus! {

/// The pitch of a written note, for an instrument in B flat.
#[derive(Copy, Clone, Debug, PartialEq, Eq, Structural)]
pub enum Note {
    C,
    Cs,
    D,
    Ds,
    E,
    F,
    Fs,
    G,
    Gs,
    A,
    As,
    B,
    Pause,
}

/// The frequencies of the twelve semitones of octave 4 in concert pitch, from C up.
pub const FREQS_O4: [u32; 12] = [262, 277, 294, 311, 330, 349, 370, 392, 415, 440, 466, 494];

impl Note {
    /// How many semitones the note lies above C; twelve for a pause.
    pub open spec fn semitone(self) -> int {
        match self {
            Note::C => 0,
            Note::Cs => 1,
            Note::D => 2,
            Note::Ds => 3,
            Note::E => 4,
            Note::F => 5,
            Note::Fs => 6,
            Note::G => 7,
            Note::Gs => 8,
            Note::A => 9,
            Note::As => 10,
            Note::B => 11,
            Note::Pause => 12,
        }
    }

    /// The octave in which the note sounds, which is two semitones below the written note.
    pub open spec fn concert_octave(self, octave: int) -> int {
        if self.semitone() < 2 {
            octave - 1
        } else {
            octave
        }
    }

    /// The frequency in octave 4 of the note that sounds.
    pub open spec fn concert_base(self) -> int {
        FREQS_O4[(self.semitone() + 10) % 12] as int
    }

    /// The frequency of the note in hertz: doubled, in 32 bits, for each octave above octave
    /// 4, halved for each octave below it, and none for a pause.
    pub open spec fn freq(self, octave: int) -> int {
        let up = self.concert_octave(octave) - 4;
        if self == Note::Pause {
            0
        } else if up >= 0 {
            (self.concert_base() * pow2(up as nat)) % 0x1_0000_0000
        } else {
            self.concert_base() / (pow2((-up) as nat) as int)
        }
    }

    fn index(self) -> (i: usize)
        ensures
            i == self.semitone(),
    {
        match self {
            Note::C => 0,
            Note::Cs => 1,
            Note::D => 2,
            Note::Ds => 3,
            Note::E => 4,
            Note::F => 5,
            Note::Fs => 6,
            Note::G => 7,
            Note::Gs => 8,
            Note::A => 9,
            Note::As => 10,
            Note::B => 11,
            Note::Pause => 12,
        }
    }

    /// The frequency of the written note in hertz. The octave must lie within 31 octaves of
    /// octave 4.
    pub fn to_freq(self, octave: i32) -> (f: u32)
        requires
            self == Note::Pause || -27 <= self.concert_octave(octave as int) <= 35,
        ensures
            f == self.freq(octave as int),
    {
        if let Note::Pause = self {
            return 0;
        }
        let written_index = self.index();
        let concert_index = (written_index + 10) % 12;
        let adj_octave: i32 = if written_index < 2 {
            octave - 1
        } else {
            octave
        };
        let base_freq: u32 = FREQS_O4[concert_index];
        let diff: i32 = adj_octave - 4;
        if diff >= 0 {
            proof {
                lemma_shl(base_freq, diff as u32);
            }
            base_freq << (diff as u32)
        } else {
            let down: u32 = (0 - diff) as u32;
            proof {
                vstd::bits::lemma_u32_shr_is_div(base_freq, down);
            }
            base_freq >> down
        }
    }
}

/// Shifting left is doubling in 32 bits.
proof fn lemma_shl(x: u32, s: u32)
    requires
        s < 32,
    ensures
        (x << s) as int == (x * pow2(s as nat)) % 0x1_0000_0000,
{
    let y = x as u64;
    let t = s as u64;
    assert((x << s) as u64 == (y << t) % 0x1_0000_0000u64) by (bit_vector)
        requires
            y == x as u64,
            t == s as u64,
            s < 32,
    ;
    vstd::arithmetic::power2::lemma_pow2_strictly_increases(s as nat, 32);
    vstd::arithmetic::power2::lemma2_to64();
    assert(x * pow2(s as nat) <= u64::MAX) by (nonlinear_arith)
        requires
            0 <= x <= 0xffff_ffff,
            0 <= pow2(s as nat) <= 0x1_0000_0000,
    ;
    vstd::bits::lemma_u64_shl_is_mul(y, t);
}

/// The lengths of the notes in milliseconds, at 140 quarters in a minute.
pub struct Beat;

impl Beat {
    /// A quarter.
    pub const Q: u32 = 428;
    /// A half.
    pub const H: u32 = Self::Q * 2;
    /// A dotted half.
    pub const DH: u32 = Self::Q * 3;
    /// An eighth.
    pub const E: u32 = Self::Q / 2;
    /// A dotted eighth.
    pub const DE: u32 = Self::E + (Self::E / 2);
    /// A sixteenth.
    pub const S: u32 = Self::Q / 4;
}

/// What is done with the buzzer.
#[derive(Copy, Clone, Debug, PartialEq, Eq, Structural)]
pub enum BuzzerStep {
    /// Set the frequency in hertz.
    Frequency(u32),
    /// Set the duty cycle in percent.
    Duty(u8),
    /// Wait for so many milliseconds.
    Wait(u32),
}

/// How one note of a tune is played: its tone, or silence, for its length, and then 10 ms of
/// silence.
pub open spec fn note_steps(freq: u32, length: u32) -> Seq<BuzzerStep> {
    (if freq == 0 {
        seq![BuzzerStep::Duty(0)]
    } else {
        seq![BuzzerStep::Frequency(freq), BuzzerStep::Duty(50)]
    }) + seq![BuzzerStep::Wait(length), BuzzerStep::Duty(0), BuzzerStep::Wait(10)]
}

/// How a tune is played, note by note.
pub open spec fn tune_steps(tune: Seq<(Note, i32, u32)>) -> Seq<BuzzerStep>
    decreases tune.len(),
{
    if tune.len() == 0 {
        seq![]
    } else {
        tune_steps(tune.drop_last()) + note_steps(
            tune.last().0.freq(tune.last().1 as int) as u32,
            tune.last().2,
        )
    }
}

/// The notes of the fight song, with their octaves and lengths.
pub open spec fn fight_song_notes() -> Seq<(Note, i32, u32)> {
    seq![
        (Note::D, 5i32, Beat::DE),
        (Note::Cs, 5i32, Beat::S),
        (Note::C, 5i32, Beat::E),
        (Note::B, 5i32, Beat::E),
        (Note::A, 5i32, Beat::E),
        (Note::G, 4i32, Beat::E),
        (Note::Fs, 4i32, Beat::E),
        (Note::E, 4i32, Beat::E),
        (Note::D, 4i32, Beat::E),
        (Note::Pause, 4i32, Beat::E),
        (Note::Pause, 4i32, Beat::Q),
        (Note::D, 4i32, Beat::E),
        (Note::Pause, 4i32, Beat::E),
        (Note::Pause, 4i32, Beat::Q),
        (Note::B, 5i32, Beat::H),
        (Note::B, 5i32, Beat::Q),
        (Note::B, 5i32, Beat::Q),
    ]
}

/// The steps that play the fight song.
pub fn play_fight_song() -> (steps: Vec<BuzzerStep>)
    ensures
        steps@ == tune_steps(fight_song_notes()),
{
    let fight_song: Vec<(Note, i32, u32)> = vec![
        (Note::D, 5, Beat::DE),
        (Note::Cs, 5, Beat::S),
        (Note::C, 5, Beat::E),
        (Note::B, 5, Beat::E),
        (Note::A, 5, Beat::E),
        (Note::G, 4, Beat::E),
        (Note::Fs, 4, Beat::E),
        (Note::E, 4, Beat::E),
        (Note::D, 4, Beat::E),
        (Note::Pause, 4, Beat::E),
        (Note::Pause, 4, Beat::Q),
        (Note::D, 4, Beat::E),
        (Note::Pause, 4, Beat::E),
        (Note::Pause, 4, Beat::Q),
        (Note::B, 5, Beat::H),
        (Note::B, 5, Beat::Q),
        (Note::B, 5, Beat::Q),
    ];
    assert(fight_song@ =~= fight_song_notes());
    let mut steps: Vec<BuzzerStep> = Vec::new();
    for i in 0..fight_song.len()
        invariant
            fight_song@ == fight_song_notes(),
            steps@ == tune_steps(fight_song@.take(i as int)),
    {
        let ghost before = steps@;
        let (note_name, octave, duration) = fight_song[i];
        assert(4 <= octave <= 5);
        let freq = note_name.to_freq(octave);
        if freq == 0 {
            steps.push(BuzzerStep::Duty(0));
        } else {
            steps.push(BuzzerStep::Frequency(freq));
            steps.push(BuzzerStep::Duty(50));
        }
        steps.push(BuzzerStep::Wait(duration));
        steps.push(BuzzerStep::Duty(0));
        steps.push(BuzzerStep::Wait(10));
        assert(steps@ =~= before + note_steps(freq, duration));
        assert(fight_song@.take(i + 1).drop_last() =~= fight_song@.take(i as int));
    }
    assert(fight_song@.take(fight_song@.len() as int) =~= fight_song@);
    steps
}

/// In octave 4 a note sounds at the frequency of that octave, and an octave above at twice that.
proof fn lemma_freq(note: Note, octave: int)
    requires
        note != Note::Pause,
    ensures
        262 <= note.concert_base() <= 494,
        note.concert_base() == match note {
            Note::C => 466int,
            Note::Cs => 494,
            Note::D => 262,
            Note::Ds => 277,
            Note::E => 294,
            Note::F => 311,
            Note::Fs => 330,
            Note::G => 349,
            Note::Gs => 370,
            Note::A => 392,
            Note::As => 415,
            _ => 440,
        },
        note.concert_octave(octave) == 4 ==> note.freq(octave) == note.concert_base(),
        note.concert_octave(octave) == 5 ==> note.freq(octave) == 2 * note.concert_base(),
{
    assert(FREQS_O4[0] == 262 && FREQS_O4[1] == 277 && FREQS_O4[2] == 294 && FREQS_O4[3] == 311);
    assert(FREQS_O4[4] == 330 && FREQS_O4[5] == 349 && FREQS_O4[6] == 370 && FREQS_O4[7] == 392);
    assert(FREQS_O4[8] == 415 && FREQS_O4[9] == 440 && FREQS_O4[10] == 466 && FREQS_O4[11] == 494);
    vstd::arithmetic::power2::lemma2_to64();
    let base = note.concert_base();
    assert(base * 1 == base && base * 2 == 2 * base);
    if note.concert_octave(octave) == 4 {
        assert(base * pow2(0) == base) by (nonlinear_arith)
            requires
                pow2(0) == 1,
        ;
    }
    if note.concert_octave(octave) == 5 {
        assert(base * pow2(1) == 2 * base) by (nonlinear_arith)
            requires
                pow2(1) == 2,
        ;
    }
}

/// Every written note sounds a whole tone lower: B of octave 4 as the A of 440 hertz, and C of
/// octave 5 as the B flat above it. A pause does not sound in any octave.
pub proof fn law_written_notes_sound_a_tone_lower(octave: int)
    ensures
        Note::C.freq(5) == 466,
        Note::Cs.freq(5) == 494,
        Note::D.freq(4) == 262,
        Note::Ds.freq(4) == 277,
        Note::E.freq(4) == 294,
        Note::F.freq(4) == 311,
        Note::Fs.freq(4) == 330,
        Note::G.freq(4) == 349,
        Note::Gs.freq(4) == 370,
        Note::A.freq(4) == 392,
        Note::As.freq(4) == 415,
        Note::B.freq(4) == 440,
        Note::Pause.freq(octave) == 0,
{
    lemma_freq(Note::C, 5);
    lemma_freq(Note::Cs, 5);
    lemma_freq(Note::D, 4);
    lemma_freq(Note::Ds, 4);
    lemma_freq(Note::E, 4);
    lemma_freq(Note::F, 4);
    lemma_freq(Note::Fs, 4);
    lemma_freq(Note::G, 4);
    lemma_freq(Note::Gs, 4);
    lemma_freq(Note::A, 4);
    lemma_freq(Note::As, 4);
    lemma_freq(Note::B, 4);
}

/// A note an octave higher has twice the frequency, counted in 32 bits, and one an octave lower
/// has half of it, rounded down. Halving starts at octave 4 of the notes that sound, where C and
/// C sharp are written an octave higher than the others.
pub proof fn law_octaves_double_and_halve(note: Note, octave: int)
    ensures
        ({
            let start = if note == Note::C || note == Note::Cs {
                5int
            } else {
                4
            };
            &&& octave >= start ==> note.freq(octave + 1) == (2 * note.freq(octave))
                % 0x1_0000_0000
            &&& octave <= start ==> note.freq(octave - 1) == note.freq(octave) / 2
        }),
{
    let base = note.concert_base();
    let up = note.concert_octave(octave) - 4;
    if note != Note::Pause {
        lemma_freq(note, octave);
        if up >= 0 {
            let p = pow2(up as nat) as int;
            vstd::arithmetic::power2::lemma_pow2_unfold((up + 1) as nat);
            assert(base * (2 * p) == 2 * (base * p)) by (nonlinear_arith);
            vstd::arithmetic::div_mod::lemma_mul_mod_noop_right(2, base * p, 0x1_0000_0000);
        }
        if up <= 0 {
            let n = (-up) as nat;
            vstd::arithmetic::power2::lemma_pow2_unfold(n + 1);
            vstd::arithmetic::power2::lemma_pow2_pos(n);
            let p = pow2(n) as int;
            vstd::arithmetic::div_mod::lemma_div_denominator(base, p, 2);
            assert(p * 2 == 2 * p);
            if up == 0 {
                vstd::arithmetic::power2::lemma2_to64();
                assert(base / 1 == base);
            }
        }
    }
}

/// A tune goes on note by note: its tone is set and switched on, or left off where it is a pause,
/// for the length of the note, and 10 ms of silence follow.
pub proof fn law_tune_goes_on_note_by_note(
    tune: Seq<(Note, i32, u32)>,
    note: Note,
    octave: i32,
    length: u32,
)
    ensures
        tune_steps(Seq::<(Note, i32, u32)>::empty()) == Seq::<BuzzerStep>::empty(),
        tune_steps(tune.push((note, octave, length))) == tune_steps(tune) + if note.freq(
            octave as int,
        ) as u32 == 0 {
            seq![
                BuzzerStep::Duty(0),
                BuzzerStep::Wait(length),
                BuzzerStep::Duty(0),
                BuzzerStep::Wait(10),
            ]
        } else {
            seq![
                BuzzerStep::Frequency(note.freq(octave as int) as u32),
                BuzzerStep::Duty(50),
                BuzzerStep::Wait(length),
                BuzzerStep::Duty(0),
                BuzzerStep::Wait(10),
            ]
        },
{
    let all = tune.push((note, octave, length));
    assert(all.drop_last() =~= tune);
    assert(all.last() == (note, octave, length));
    let f = note.freq(octave as int) as u32;
    if f == 0 {
        assert(note_steps(f, length) =~= seq![
            BuzzerStep::Duty(0),
            BuzzerStep::Wait(length),
            BuzzerStep::Duty(0),
            BuzzerStep::Wait(10),
        ]);
    } else {
        assert(note_steps(f, length) =~= seq![
            BuzzerStep::Frequency(f),
            BuzzerStep::Duty(50),
            BuzzerStep::Wait(length),
            BuzzerStep::Duty(0),
            BuzzerStep::Wait(10),
        ]);
    }
}

/// The tones of the fight song in hertz, and the lengths of its notes in milliseconds.
pub proof fn law_fight_song_sounds()
    ensures
        ({
            let song = fight_song_notes();
            let tones = seq![
                524int, 494, 466, 880, 784, 349, 330, 294, 262, 0, 0, 262, 0, 0, 880, 880, 880,
            ];
            let lengths = seq![
                321int, 107, 214, 214, 214, 214, 214, 214, 214, 214, 428, 214, 214, 428, 856, 428,
                428,
            ];
            &&& song.len() == 17
            &&& forall|i: int|
                0 <= i < 17 ==> (#[trigger] song[i]).0.freq(song[i].1 as int) == tones[i]
                    && song[i].2 == lengths[i]
        }),
{
    lemma_freq(Note::C, 5);
    lemma_freq(Note::Cs, 5);
    lemma_freq(Note::D, 5);
    lemma_freq(Note::A, 5);
    lemma_freq(Note::B, 5);
    lemma_freq(Note::D, 4);
    lemma_freq(Note::E, 4);
    lemma_freq(Note::Fs, 4);
    lemma_freq(Note::G, 4);
}

} // verus!
