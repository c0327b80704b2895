//! The clock, which an NTP server sets.
use crate::calendar::{date_of, day_number, is_date, law_every_day_has_a_date, lemma_civil};
use crate::text::{digit, from_chars};
use vstd::prelude::*;

verus! {

/// The time server, which leads clients to one near them.
pub const NTP_SERVER: &'static str = "pool.ntp.org";

/// The port on which a time server answers.
pub const NTP_PORT: u16 = 123;

/// How often the clock is set, in microseconds: once in 24 hours.
pub const RESYNC_INTERVAL: u64 = 86_400_000_000;

/// The offset of the local time from UTC in hours.
pub const UTC_OFFSET: i8 = -5;

/// The time that a request to the server carries.
#[derive(Copy, Clone, Debug, PartialEq, Eq, Structural)]
pub struct Timestamp {
    pub base: u64,
}

impl Default for Timestamp {
    fn default() -> (t: Timestamp)
        ensures
            t.base == 0,
    {
        Timestamp { base: 0 }
    }
}

impl Timestamp {
    pub fn timestamp_sec(&self) -> (s: u64)
        ensures
            s == self.base,
    {
        self.base
    }

    pub fn timestamp_subsec_micros(&self) -> (us: u32)
        ensures
            us == 0,
    {
        0
    }
}

/// The address and the port to ask, of the addresses that the server's name has: the first
/// one.
pub fn time_server<T: Copy>(addrs: &[T]) -> (r: Option<(T, u16)>)
    ensures
        r == if addrs@.len() == 0 {
            None::<(T, u16)>
        } else {
            Some((addrs@[0], NTP_PORT))
        },
        r matches Some((_, port)) ==> port == 123,
{
    if addrs.len() == 0 {
        None
    } else {
        Some((addrs[0], NTP_PORT))
    }
}

/// The local time in seconds from 1970 on, in 64 bits, from the UTC time.
pub open spec fn local_seconds(utc: int) -> int {
    (utc + 3600 * UTC_OFFSET) % 0x1_0000_0000_0000_0000
}

/// The year, month, day, hour and minute of a time in seconds from 1970 on. The year is
/// counted in 16 bits.
pub open spec fn datetime(unix: int) -> (int, int, int, int, int) {
    let date = date_of(unix / 86400);
    (date.0 % 0x1_0000, date.1, date.2, (unix % 86400) / 3600, (unix % 3600) / 60)
}

/// The two digits of a number below 100.
pub open spec fn two_digits(n: int) -> Seq<char> {
    seq![digit((n / 10) as nat), digit((n % 10) as nat)]
}

/// A time as `MM/DD/YY hh:mm `.
pub open spec fn stamp(t: (int, int, int, int, int)) -> Seq<char> {
    two_digits(t.1) + seq!['/'] + two_digits(t.2) + seq!['/'] + two_digits(t.0 % 100) + seq![' ']
        + two_digits(t.3) + seq![':'] + two_digits(t.4) + seq![' ']
}

/// The clock: the time in UTC seconds at which it was last set, and the reading of the
/// device's counter of microseconds at that moment.
#[derive(Debug)]
pub struct Clock {
    base_unix: u64,
    synced_at: u64,
}

impl Clock {
    /// The time to which the clock was last set.
    pub closed spec fn base(&self) -> int {
        self.base_unix as int
    }

    /// The counter when the clock was last set.
    pub closed spec fn synced(&self) -> int {
        self.synced_at as int
    }

    /// The UTC time when the counter reads `now`.
    pub open spec fn utc(&self, now: int) -> int {
        self.base() + (now - self.synced()) / 1_000_000
    }

    /// A clock that was not set yet.
    pub fn new(now: u64) -> (c: Clock)
        ensures
            c.base() == 0,
            c.synced() == now,
            c.utc(now as int) == 0,
    {
        Clock { base_unix: 0, synced_at: now }
    }

    /// Sets the clock to the time that the server answered. Without an answer the clock goes
    /// on as it was.
    pub fn sync(&mut self, answer: Result<u64, ()>, now: u64) -> (r: Result<(), ()>)
        ensures
            r is Ok <==> answer is Ok,
            match answer {
                Ok(unix) => final(self).base() == unix && final(self).synced() == now
                    && final(self).utc(now as int) == unix,
                Err(_) => *final(self) == *old(self),
            },
    {
        match answer {
            Ok(unix) => {
                self.base_unix = unix;
                self.synced_at = now;
                Ok(())
            },
            Err(_) => Err(()),
        }
    }

    /// Whether the clock was set more than 24 hours ago.
    pub fn needs_sync(&self, now: u64) -> (r: bool)
        requires
            self.synced() <= now,
        ensures
            r == (now - self.synced() > RESYNC_INTERVAL),
            r == (now > self.synced() + 24 * 3600 * 1_000_000),
    {
        now - self.synced_at > RESYNC_INTERVAL
    }

    /// The local time as `MM/DD/YY hh:mm `.
    pub fn now(&self, now: u64) -> (r: Result<String, ()>)
        requires
            self.synced() <= now,
        ensures
            r matches Ok(s) && s@ == stamp(datetime(local_seconds(self.utc(now as int)))) && s@.len()
                == 15,
    {
        let secs: u64 = (now - self.synced_at) / 1_000_000;
        let utc: u64 = self.base_unix.wrapping_add(secs);
        let unix: u64 = utc.wrapping_sub((0 - 3600 * (UTC_OFFSET as i64)) as u64);
        proof {
            lemma_local_seconds(self.utc(now as int), utc, unix);
        }
        let (year, month, day, hour, min) = Self::unix_to_datetime(unix);
        let mut s: Vec<char> = Vec::new();
        push_two(&mut s, month);
        s.push('/');
        push_two(&mut s, day);
        s.push('/');
        push_two(&mut s, (year % 100) as u8);
        s.push(' ');
        push_two(&mut s, hour);
        s.push(':');
        push_two(&mut s, min);
        s.push(' ');
        assert(s@ =~= stamp(datetime(local_seconds(self.utc(now as int)))));
        Ok(from_chars(s.as_slice()))
    }

    /// The year, month, day, hour and minute of a time in seconds from 1970 on.
    #[verifier::spinoff_prover]
    pub fn unix_to_datetime(unix: u64) -> (t: (u16, u8, u8, u8, u8))
        ensures
            (t.0 as int, t.1 as int, t.2 as int, t.3 as int, t.4 as int) == datetime(unix as int),
            1 <= t.1 <= 12,
            1 <= t.2 <= 31,
            t.3 < 24,
            t.4 < 60,
    {
        let days: u64 = unix / 86400;
        let mut secs: u64 = unix % 86400;
        let hour = (secs / 3600) as u8;
        secs = secs % 3600;
        proof {
            lemma_hours(unix as int);
        }
        let minute = (secs / 60) as u8;
        let z: i64 = days as i64 + 719468;
        let era: i64 = (if z >= 0 {
            z
        } else {
            z - 146096
        }) / 146097;
        let doe: i64 = z - era * 146097;
        let yoe: i64 = (doe - doe / 1460 + doe / 36524 - doe / 146096) / 365;
        let ghost doy_g = doe - (365 * yoe + yoe / 4 - yoe / 100);
        proof {
            lemma_civil(
                days as int,
                era as int,
                doe as int,
                yoe as int,
                doy_g,
                (5 * doy_g + 2) / 153,
            );
        }
        let y: i64 = yoe + era * 400;
        let doy: i64 = doe - (365 * yoe + yoe / 4 - yoe / 100);
        let mp: i64 = (5 * doy + 2) / 153;
        let d: i64 = doy - (153 * mp + 2) / 5 + 1;
        let m: i64 = if mp < 10 {
            mp + 3
        } else {
            mp - 9
        };
        let year: i64 = y + if m <= 2 {
            1
        } else {
            0
        };
        let year_bits: u64 = year as u64;
        assert(year_bits as u16 == year_bits % 0x1_0000) by (bit_vector);
        (year_bits as u16, m as u8, d as u8, hour, minute)
    }
}

/// The clock advances by one second for each million microseconds of the counter.
pub proof fn law_clock_advances(clock: Clock, now: int, seconds: int)
    ensures
        clock.utc(now + 1_000_000 * seconds) == clock.utc(now) + seconds,
{
}

/// A clock that was set shows the time it was set to, until the next second.
pub proof fn law_set_clock_shows_its_time(clock: Clock, now: int)
    requires
        clock.synced() <= now < clock.synced() + 1_000_000,
    ensures
        clock.utc(now) == clock.base(),
{
}

/// A day has whole hours.
proof fn lemma_hours(unix: int)
    ensures
        (unix % 86400) % 3600 == unix % 3600,
{
    vstd::arithmetic::div_mod::lemma_mod_mod(unix, 3600, 24);
}

/// Counting in 64 bits gives the local time.
proof fn lemma_local_seconds(time: int, utc: u64, unix: u64)
    requires
        0 <= time < 2 * 0x1_0000_0000_0000_0000,
        utc == time || utc == time - 0x1_0000_0000_0000_0000,
        unix == utc - 18000 || unix == utc - 18000 + 0x1_0000_0000_0000_0000,
    ensures
        unix == local_seconds(time),
{
}

/// Puts the two digits of a number at the end of a text.
fn push_two(s: &mut Vec<char>, n: u8)
    requires
        n < 100,
    ensures
        final(s)@ == old(s)@ + two_digits(n as int),
{
    s.push((48 + n / 10) as char);
    s.push((48 + n % 10) as char);
    assert(s@ =~= old(s)@ + two_digits(n as int));
}

/// What the clock shows can be read back: it is the day in the calendar and the time of day,
/// five hours behind UTC and counted in 64 bits. The year is counted in 16 bits, and its last
/// two digits are shown.
pub proof fn law_shown_time_is_read_back(utc: int)
    requires
        0 <= utc < 0x2_0000_0000_0000_0000,
    ensures
        ({
            let s = stamp(datetime(local_seconds(utc)));
            let local = if utc < 18000 {
                utc - 18000 + 0x1_0000_0000_0000_0000
            } else if utc < 18000 + 0x1_0000_0000_0000_0000 {
                utc - 18000
            } else {
                utc - 18000 - 0x1_0000_0000_0000_0000
            };
            let month = 10 * (s[0] as int - 48) + (s[1] as int - 48);
            let day = 10 * (s[3] as int - 48) + (s[4] as int - 48);
            let short_year = 10 * (s[6] as int - 48) + (s[7] as int - 48);
            &&& s.len() == 15
            &&& s[2] == '/' && s[5] == '/' && s[8] == ' ' && s[11] == ':' && s[14] == ' '
            &&& exists|year: int| #[trigger]
                is_date(year, month, day) && day_number(year, month, day) == local / 86400
                    && short_year == (year % 0x1_0000) % 100
            &&& 10 * (s[9] as int - 48) + (s[10] as int - 48) == (local % 86400) / 3600
            &&& 10 * (s[12] as int - 48) + (s[13] as int - 48) == (local % 3600) / 60
        }),
{
    let local = local_seconds(utc);
    assert(local == if utc < 18000 {
        utc - 18000 + 0x1_0000_0000_0000_0000
    } else if utc < 18000 + 0x1_0000_0000_0000_0000 {
        utc - 18000
    } else {
        utc - 18000 - 0x1_0000_0000_0000_0000
    });
    let days = local / 86400;
    law_every_day_has_a_date(days);
    let date = date_of(days);
    let t = datetime(local);
    let s = stamp(t);
    let year = (date.0 % 0x1_0000) % 100;
    let hour = (local % 86400) / 3600;
    let minute = (local % 3600) / 60;
    assert(t == (date.0 % 0x1_0000, date.1, date.2, hour, minute));
    lemma_two_digits(date.1);
    lemma_two_digits(date.2);
    lemma_two_digits(year);
    lemma_two_digits(hour);
    lemma_two_digits(minute);
    assert(s[0] == two_digits(date.1)[0] && s[1] == two_digits(date.1)[1]);
    assert(s[3] == two_digits(date.2)[0] && s[4] == two_digits(date.2)[1]);
    assert(s[6] == two_digits(year)[0] && s[7] == two_digits(year)[1]);
    assert(s[9] == two_digits(hour)[0] && s[10] == two_digits(hour)[1]);
    assert(s[12] == two_digits(minute)[0] && s[13] == two_digits(minute)[1]);
    assert(is_date(date.0, date.1, date.2));
}

proof fn lemma_two_digits(n: int)
    requires
        0 <= n < 100,
    ensures
        two_digits(n).len() == 2,
        10 * (two_digits(n)[0] as int - 48) + (two_digits(n)[1] as int - 48) == n,
{
    assert(n == 10 * (n / 10) + n % 10);
}

/// The clock shows the time that it was set to and the whole seconds that have gone by on the
/// counter since.
pub proof fn law_clock_counts_seconds(clock: Clock, seconds: int, micros: int)
    requires
        0 <= micros < 1_000_000,
    ensures
        clock.utc(clock.synced() + 1_000_000 * seconds + micros) == clock.base() + seconds,
{
}

/// The year, month and day of a time are the day in the calendar that so many whole days lie
/// behind the start of 1970, and hour and minute are the time of that day.
pub proof fn law_datetime_is_the_day_and_the_time(unix: int)
    requires
        unix >= 0,
    ensures
        ({
            let (y, month, day, hour, minute) = datetime(unix);
            let seconds = unix % 86400 - 3600 * hour - 60 * minute;
            &&& exists|year: int| #[trigger]
                is_date(year, month, day) && day_number(year, month, day) == unix / 86400 && y
                    == year % 0x1_0000
            &&& 0 <= hour < 24
            &&& 0 <= minute < 60
            &&& 0 <= seconds < 60
        }),
{
    let date = date_of(unix / 86400);
    law_every_day_has_a_date(unix / 86400);
    assert(is_date(date.0, date.1, date.2));
    lemma_hours(unix);
    let s = unix % 86400;
    let r = s % 3600;
    assert(s == 3600 * (s / 3600) + r);
    assert(r == 60 * (r / 60) + r % 60);
    let t = datetime(unix);
    assert(t == (date.0 % 0x1_0000, date.1, date.2, s / 3600, r / 60));
    assert(0 <= s < 86400);
    assert(0 <= t.3 < 24);
    assert(0 <= t.4 < 60);
    assert(0 <= unix % 86400 - 3600 * t.3 - 60 * t.4 < 60);
    assert(is_date(date.0, t.1, t.2) && day_number(date.0, t.1, t.2) == unix / 86400 && t.0
        == date.0 % 0x1_0000);
}

} // verus!
