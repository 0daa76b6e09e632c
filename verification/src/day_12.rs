//! Remembering when strings were saved; reading ULIDs as UUIDs and counting what their
//! timestamps and bits tell.
use vstd::prelude::*;
use vstd::arithmetic::power::pow;
use chrono::Datelike;
use crate::Status;

verus! {

// ---------------------------------------------------------------------------------------------
// Timed strings
/// When each string was saved, in nanoseconds since the Unix epoch.
pub struct TimedStrings {
    entries: Vec<(String, u128)>,
}

/// The saving times as a map, the later entry winning for a string listed twice.
pub open spec fn entries_map(e: Seq<(String, u128)>) -> Map<Seq<char>, u128>
    decreases e.len(),
{
    if e.len() == 0 {
        Map::empty()
    } else {
        entries_map(e.drop_last()).insert(e.last().0@, e.last().1)
    }
}

spec fn distinct_keys(e: Seq<(String, u128)>) -> bool {
    forall|i: int, j: int| 0 <= i < j < e.len() ==> e[i].0@ != e[j].0@
}

/// The largest time a `Duration` holds, in nanoseconds: `u64::MAX` whole seconds and the
/// largest fraction of one.
pub open spec fn max_nanos() -> u128 {
    18_446_744_073_709_551_615_999_999_999
}

spec fn times_bounded(e: Seq<(String, u128)>) -> bool {
    forall|i: int| 0 <= i < e.len() ==> (#[trigger] e[i]).1 <= max_nanos()
}

proof fn lemma_entries_map_index(e: Seq<(String, u128)>, i: int)
    requires
        distinct_keys(e),
        0 <= i < e.len(),
    ensures
        entries_map(e).contains_key(e[i].0@),
        entries_map(e)[e[i].0@] == e[i].1,
    decreases e.len(),
{
    if i < e.len() - 1 {
        let pre = e.drop_last();
        assert(pre[i] == e[i]);
        assert(e[e.len() - 1] == e.last());
        lemma_entries_map_index(pre, i);
    }
}

proof fn lemma_entries_map_absent(e: Seq<(String, u128)>, k: Seq<char>)
    requires
        forall|i: int| 0 <= i < e.len() ==> (#[trigger] e[i]).0@ != k,
    ensures
        !entries_map(e).contains_key(k),
    decreases e.len(),
{
    if e.len() > 0 {
        let pre = e.drop_last();
        assert forall|i: int| 0 <= i < pre.len() implies (#[trigger] pre[i]).0@ != k by {
            assert(pre[i] == e[i]);
        }
        assert(e[e.len() - 1] == e.last());
        lemma_entries_map_absent(pre, k);
    }
}

proof fn lemma_entries_map_update(e: Seq<(String, u128)>, i: int, s: String, t: u128)
    requires
        distinct_keys(e),
        0 <= i < e.len(),
        e[i].0@ == s@,
    ensures
        entries_map(e.update(i, (s, t))) == entries_map(e).insert(s@, t),
    decreases e.len(),
{
    let u = e.update(i, (s, t));
    if i == e.len() - 1 {
        assert(u.drop_last() =~= e.drop_last());
        assert(entries_map(e).insert(s@, t) =~= entries_map(e.drop_last()).insert(s@, t));
    } else {
        let pre = e.drop_last();
        assert(u.drop_last() =~= pre.update(i, (s, t)));
        assert(pre[i] == e[i]);
        lemma_entries_map_update(pre, i, s, t);
        assert(e.last() == e[e.len() - 1]);
        assert(e.last().0@ != s@);
        assert(entries_map(u) =~= entries_map(e).insert(s@, t));
    }
}

impl TimedStrings {
    #[verifier::type_invariant]
    spec fn wf(self) -> bool {
        distinct_keys(self.entries@) && times_bounded(self.entries@)
    }

    /// The saving time of each string saved so far.
    pub closed spec fn times(self) -> Map<Seq<char>, u128> {
        entries_map(self.entries@)
    }

    /// No string saved yet.
    pub fn new() -> (r: TimedStrings)
        ensures
            r.times() == Map::<Seq<char>, u128>::empty(),
    {
        TimedStrings { entries: Vec::new() }
    }

    fn find(&self, s: &str) -> (r: Option<usize>)
        ensures
            match r {
                Some(i) => i < self.entries@.len() && self.entries@[i as int].0@ == s@,
                None => forall|i: int| 0 <= i < self.entries@.len() ==> (#[trigger] self.entries@[i]).0@ != s@,
            },
    {
        let mut i: usize = 0;
        while i < self.entries.len()
            invariant
                i <= self.entries@.len(),
                forall|j: int| 0 <= j < i ==> (#[trigger] self.entries@[j]).0@ != s@,
            decreases self.entries.len() - i,
        {
            if crate::text::str_eq(self.entries[i].0.as_str(), s) {
                return Some(i);
            }
            i = i + 1;
        }
        None
    }

    /// Remembers that `string` was saved at `now`.
    pub fn save(&mut self, string: &str, now: u128)
        requires
            now <= max_nanos(),
        ensures
            final(self).times() == old(self).times().insert(string@, now),
    {
        proof {
            use_type_invariant(&*self);
        }
        let key = String::from_str(string);
        match self.find(string) {
            Some(i) => {
                proof {
                    lemma_entries_map_update(self.entries@, i as int, key, now);
                }
                let mut entries: Vec<(String, u128)> = Vec::new();
                std::mem::swap(&mut entries, &mut self.entries);
                let ghost before = entries@;
                entries[i] = (key, now);
                proof {
                    assert(entries@ == before.update(i as int, (key, now)));
                    assert forall|a: int| 0 <= a < entries@.len() implies (#[trigger] entries@[a]).1
                        <= max_nanos() by {
                        if a != i {
                            assert(entries@[a] == before[a]);
                        }
                    }
                    assert forall|a: int, b: int| 0 <= a < b < entries@.len() implies entries@[a].0@
                        != entries@[b].0@ by {
                        if a != i && b != i {
                            assert(entries@[a] == before[a]);
                            assert(entries@[b] == before[b]);
                        } else if a == i {
                            assert(entries@[b] == before[b]);
                        } else {
                            assert(entries@[a] == before[a]);
                        }
                    }
                }
                self.entries = entries;
            },
            None => {
                proof {
                    let e = self.entries@;
                    let pushed = e.push((key, now));
                    assert(pushed.drop_last() =~= e);
                    assert forall|a: int| 0 <= a < pushed.len() implies (#[trigger] pushed[a]).1
                        <= max_nanos() by {
                        if a < e.len() {
                            assert(pushed[a] == e[a]);
                        }
                    }
                    assert forall|a: int, b: int| 0 <= a < b < pushed.len() implies pushed[a].0@
                        != pushed[b].0@ by {
                        assert(pushed[a] == e[a]);
                        if b < e.len() {
                            assert(pushed[b] == e[b]);
                        }
                    }
                }
                let mut entries: Vec<(String, u128)> = Vec::new();
                std::mem::swap(&mut entries, &mut self.entries);
                entries.push((key, now));
                self.entries = entries;
            },
        }
    }

    /// How many whole seconds have passed from the saving of `string` to `now`: `404` when it
    /// was never saved, `500` when `now` comes before its saving time.
    pub fn load(&self, string: &str, now: u128) -> (r: Result<u64, Status>)
        requires
            now <= max_nanos(),
        ensures
            r == elapsed_secs(self.times(), string@, now),
    {
        proof {
            use_type_invariant(self);
        }
        match self.find(string) {
            None => {
                proof {
                    lemma_entries_map_absent(self.entries@, string@);
                }
                Err(Status { code: 404 })
            },
            Some(i) => {
                proof {
                    lemma_entries_map_index(self.entries@, i as int);
                }
                let saved = self.entries[i].1;
                if now < saved {
                    Err(Status { code: 500 })
                } else {
                    assert((now - saved) / 1_000_000_000 <= u64::MAX) by (nonlinear_arith)
                        requires
                            saved <= now <= max_nanos(),
                            max_nanos() == 18_446_744_073_709_551_615_999_999_999u128,
                    ;
                    Ok(((now - saved) / 1_000_000_000) as u64)
                }
            },
        }
    }
}

/// What loading `s` at `now` answers, given the saving times.
pub open spec fn elapsed_secs(times: Map<Seq<char>, u128>, s: Seq<char>, now: u128) -> Result<
    u64,
    Status,
> {
    if !times.contains_key(s) {
        Err(Status { code: 404 })
    } else if now < times[s] {
        Err(Status { code: 500 })
    } else {
        Ok(((now - times[s]) / 1_000_000_000) as u64)
    }
}

/// Loading a string gives the whole seconds since it was last saved.
pub proof fn law_load_after_save(times: Map<Seq<char>, u128>, s: Seq<char>, t: u128, now: u128)
    requires
        t <= now <= max_nanos(),
    ensures
        elapsed_secs(times.insert(s, t), s, now) == Ok::<u64, Status>(
            ((now - t) / 1_000_000_000) as u64,
        ),
{
    assert((now - t) / 1_000_000_000 <= u64::MAX) by (nonlinear_arith)
        requires
            t <= now <= max_nanos(),
            max_nanos() == 18_446_744_073_709_551_615_999_999_999u128,
    ;
}

/// Saving one string leaves what loading another gives unchanged.
pub proof fn law_save_keeps_others(
    times: Map<Seq<char>, u128>,
    s: Seq<char>,
    t: u128,
    other: Seq<char>,
    now: u128,
)
    requires
        other != s,
    ensures
        elapsed_secs(times.insert(s, t), other, now) == elapsed_secs(times, other, now),
{
}

// ---------------------------------------------------------------------------------------------
// ULIDs
/// The value of a digit of Crockford's Base32 as ULIDs write it, in either case; `I`, `L`,
/// `O` and `U` are no digits.
pub open spec fn crockford_digit(c: char) -> Option<nat> {
    if '0' <= c && c <= '9' {
        Some((c as nat - '0' as nat) as nat)
    } else {
        let u = if 'a' <= c && c <= 'z' {
            (c as nat - 32) as nat
        } else {
            c as nat
        };
        if 'A' as nat <= u && u <= 'H' as nat {
            Some((u - 'A' as nat + 10) as nat)
        } else if u == 'J' as nat || u == 'K' as nat {
            Some((u - 'J' as nat + 18) as nat)
        } else if u == 'M' as nat || u == 'N' as nat {
            Some((u - 'M' as nat + 20) as nat)
        } else if 'P' as nat <= u && u <= 'T' as nat {
            Some((u - 'P' as nat + 22) as nat)
        } else if 'V' as nat <= u && u <= 'Z' as nat {
            Some((u - 'V' as nat + 27) as nat)
        } else {
            None
        }
    }
}

/// The digits read as a number, each new digit five bits below the earlier ones, keeping the
/// low 128 bits.
pub open spec fn base32_value(ds: Seq<char>) -> nat
    decreases ds.len(),
{
    if ds.len() == 0 {
        0
    } else {
        (((base32_value(ds.drop_last()) * 32 + crockford_digit(ds.last())->Some_0) as int) % pow(2, 128)) as nat
    }
}

/// The 128-bit value a ULID in text stands for: 26 digits of Crockford's Base32.
pub open spec fn ulid_value(s: Seq<char>) -> Option<u128> {
    if s.len() == 26 && forall|i: int| 0 <= i < 26 ==> #[trigger] crockford_digit(s[i]) is Some {
        Some(base32_value(s) as u128)
    } else {
        None
    }
}

/// `ulid::Ulid::from_string`: the value of the ULID the text holds, if it is one.
#[verifier::external_body]
fn ulid_from_string(s: &str) -> (r: Option<u128>)
    ensures
        r == ulid_value(s@),
{
    ulid::Ulid::from_string(s).ok().map(|u| u.0)
}

/// The lowercase hexadecimal digit of a value below 16.
pub open spec fn hex_char(d: int) -> char {
    if d < 10 {
        (d + '0' as int) as char
    } else {
        (d - 10 + 'a' as int) as char
    }
}

/// Hexadecimal digit `k` of `v`, counted from the most significant of 32.
pub open spec fn nibble(v: u128, k: int) -> int {
    (v as int / pow(16, (31 - k) as nat)) % 16
}

/// The hyphenated lowercase form of the UUID with value `v`: 32 hexadecimal digits with
/// hyphens after the 8th, 12th, 16th and 20th.
pub open spec fn uuid_text(v: u128) -> Seq<char> {
    Seq::new(
        36,
        |i: int|
            if i == 8 || i == 13 || i == 18 || i == 23 {
                '-'
            } else {
                let k = if i < 8 {
                    i
                } else if i < 13 {
                    i - 1
                } else if i < 18 {
                    i - 2
                } else if i < 23 {
                    i - 3
                } else {
                    i - 4
                };
                hex_char(nibble(v, k))
            },
    )
}

/// `uuid::Uuid::from_bytes` on the big-endian bytes of `value`, then its hyphenated
/// `Display`: the text `uuid_text` describes.
#[verifier::external_body]
fn uuid_hyphenated(value: u128) -> (s: String)
    ensures
        s@ == uuid_text(value),
{
    uuid::Uuid::from_bytes(value.to_be_bytes()).hyphenated().to_string()
}

/// Every text is a ULID; their values.
pub open spec fn all_ulids(data: Seq<String>) -> bool {
    forall|i: int| 0 <= i < data.len() ==> #[trigger] ulid_value(data[i]@) is Some
}

/// Reads every text as a ULID: `None` as soon as one is not.
fn decode_all(data: &Vec<String>) -> (r: Option<Vec<u128>>)
    ensures
        r is Some <==> all_ulids(data@),
        r matches Some(v) ==> v@.len() == data@.len() && forall|i: int|
            0 <= i < v@.len() ==> Some(#[trigger] v@[i]) == ulid_value(data@[i]@),
{
    let mut v: Vec<u128> = Vec::new();
    let mut i: usize = 0;
    while i < data.len()
        invariant
            i <= data@.len(),
            v@.len() == i,
            forall|j: int| 0 <= j < i ==> Some(#[trigger] v@[j]) == ulid_value(data@[j]@),
        decreases data.len() - i,
    {
        match ulid_from_string(data[i].as_str()) {
            Some(u) => v.push(u),
            None => {
                return None;
            },
        }
        i = i + 1;
    }
    assert forall|j: int| 0 <= j < data@.len() implies #[trigger] ulid_value(data@[j]@) is Some by {
        assert(Some(v@[j]) == ulid_value(data@[j]@));
    }
    Some(v)
}

/// Every text read as a ULID and written as a UUID, in reverse order; `400` when one of
/// them is no ULID.
pub fn ulids(data: &Vec<String>) -> (r: Result<Vec<String>, Status>)
    ensures
        !all_ulids(data@) ==> r == Err::<Vec<String>, Status>(Status { code: 400 }),
        all_ulids(data@) ==> (r matches Ok(out) && out@.len() == data@.len() && forall|i: int|
            0 <= i < out@.len() ==> (#[trigger] out@[i])@ == uuid_text(
                ulid_value(data@[data@.len() - 1 - i]@)->Some_0,
            )),
{
    match decode_all(data) {
        None => Err(Status { code: 400 }),
        Some(vals) => {
            let n = vals.len();
            let mut out: Vec<String> = Vec::new();
            let mut i: usize = 0;
            while i < n
                invariant
                    n == vals@.len(),
                    n == data@.len(),
                    i <= n,
                    out@.len() == i,
                    forall|j: int| 0 <= j < n ==> Some(#[trigger] vals@[j]) == ulid_value(data@[j]@),
                    forall|j: int|
                        0 <= j < i ==> (#[trigger] out@[j])@ == uuid_text(
                            ulid_value(data@[n - 1 - j]@)->Some_0,
                        ),
                decreases n - i,
            {
                let u = vals[n - 1 - i];
                assert(Some(vals@[n - 1 - i]) == ulid_value(data@[n - 1 - i]@));
                out.push(uuid_hyphenated(u));
                i = i + 1;
            }
            Ok(out)
        },
    }
}

/// What the ULIDs tell, counted.
#[derive(Debug)]
pub struct UlidReturnData {
    pub christmas_eve: usize,
    pub weekday: usize,
    pub future: usize,
    pub lsb1: usize,
}

/// The `(month, day)` that `chrono::DateTime::<Utc>::from_timestamp(secs, 0)` gives, or
/// `None` where it is out of range.
pub uninterp spec fn utc_month_day_of(secs: i64) -> Option<(u32, u32)>;

/// `chrono::DateTime::<Utc>::from_timestamp(secs, 0)`, then its month and day; the result is
/// named, not described.
#[verifier::external_body]
fn utc_month_day(secs: i64) -> (r: Option<(u32, u32)>)
    ensures
        r == utc_month_day_of(secs),
{
    chrono::DateTime::<chrono::Utc>::from_timestamp(secs, 0).map(|dt| (dt.month(), dt.day()))
}

/// The timestamp of a ULID: its top 48 bits, in milliseconds since the Unix epoch.
pub open spec fn timestamp_ms(u: u128) -> nat {
    (u as nat) / pow(2, 80) as nat
}

/// The ULID's timestamp falls on 24 December, in UTC.
pub open spec fn is_christmas_eve(u: u128) -> bool {
    utc_month_day_of((timestamp_ms(u) / 1000) as i64) == Some((12u32, 24u32))
}

/// The weekday of the ULID's timestamp, 0 for Monday: the Unix epoch began on a Thursday.
pub open spec fn weekday_of(u: u128) -> nat {
    (timestamp_ms(u) % 604800000 / 86400000 + 3) % 7
}

/// The ULID's timestamp lies after `now` (nanoseconds since the Unix epoch).
pub open spec fn is_future(u: u128, now: u128) -> bool {
    timestamp_ms(u) * 1_000_000 > now
}

/// The lowest bit of the ULID is set.
pub open spec fn lsb_set(u: u128) -> bool {
    u % 2 == 1
}

/// How many of the values satisfy `p`.
pub open spec fn count_where(vs: Seq<u128>, p: spec_fn(u128) -> bool) -> nat
    decreases vs.len(),
{
    if vs.len() == 0 {
        0
    } else {
        count_where(vs.drop_last(), p) + if p(vs.last()) {
            1nat
        } else {
            0nat
        }
    }
}

/// The values of the texts, all ULIDs.
pub open spec fn ulid_values(data: Seq<String>) -> Seq<u128> {
    data.map_values(|s: String| ulid_value(s@)->Some_0)
}

fn timestamp_of(u: u128) -> (t: u64)
    ensures
        t == timestamp_ms(u),
{
    proof {
        vstd::arithmetic::power2::lemma2_to64();
        vstd::arithmetic::power2::lemma2_to64_rest();
        lemma_pow2_80();
    }
    let t = u >> 80u32;
    proof {
        lemma_shift_is_div(u);
    }
    t as u64
}

proof fn lemma_pow2_80()
    ensures
        pow(2, 80) == 0x1_0000_0000_0000_0000_0000,
{
    vstd::arithmetic::power2::lemma2_to64();
    vstd::arithmetic::power::lemma_pow_adds(2, 64, 16);
    vstd::arithmetic::power2::lemma_pow2(64);
    vstd::arithmetic::power2::lemma_pow2(16);
    vstd::arithmetic::power2::lemma_pow2(80);
}

proof fn lemma_shift_is_div(u: u128)
    ensures
        (u >> 80u32) as nat == (u as nat) / pow(2, 80) as nat,
        (u >> 80u32) < 0x1_0000_0000_0000,
{
    lemma_pow2_80();
    assert((u >> 80u32) == u / 0x1_0000_0000_0000_0000_0000u128) by (bit_vector);
    assert(u / 0x1_0000_0000_0000_0000_0000u128 < 0x1_0000_0000_0000u128) by (bit_vector);
}

/// The date is 24 December.
pub open spec fn is_eve_date(d: Option<(u32, u32)>) -> bool {
    d == Some((12u32, 24u32))
}

/// How many of the dates are 24 December.
pub open spec fn count_eve_dates(ds: Seq<Option<(u32, u32)>>) -> nat
    decreases ds.len(),
{
    if ds.len() == 0 {
        0
    } else {
        count_eve_dates(ds.drop_last()) + if is_eve_date(ds.last()) {
            1nat
        } else {
            0nat
        }
    }
}

/// Only 24 December counts: adding a date to the list adds one to the count exactly when
/// chrono's `(month, day)` for it is `(12, 24)`; an empty list counts nothing.
pub proof fn law_eve_count_push(ds: Seq<Option<(u32, u32)>>, d: Option<(u32, u32)>)
    ensures
        count_eve_dates(Seq::<Option<(u32, u32)>>::empty()) == 0,
        count_eve_dates(ds.push(d)) == count_eve_dates(ds) + if d == Some((12u32, 24u32)) {
            1nat
        } else {
            0nat
        },
{
    assert(ds.push(d).drop_last() =~= ds);
}

/// A list of dates none of which is 24 December counts no Christmas Eve, whatever else of
/// December it holds; a list of only 24 Decembers counts them all.
pub proof fn law_eve_count_extremes(ds: Seq<Option<(u32, u32)>>)
    ensures
        (forall|j: int| 0 <= j < ds.len() ==> ds[j] != Some((12u32, 24u32))) ==> count_eve_dates(ds)
            == 0,
        (forall|j: int| 0 <= j < ds.len() ==> ds[j] == Some((12u32, 24u32))) ==> count_eve_dates(ds)
            == ds.len(),
    decreases ds.len(),
{
    if ds.len() > 0 {
        let pre = ds.drop_last();
        law_eve_count_extremes(pre);
        law_eve_count_push(pre, ds.last());
        assert(pre.push(ds.last()) =~= ds);
        assert(ds.last() == ds[ds.len() - 1]);
        assert forall|j: int| 0 <= j < pre.len() implies pre[j] == ds[j] by {}
    }
}

/// A ULID counts as Christmas Eve exactly when chrono's UTC `(month, day)` of its timestamp
/// is `(12, 24)`: adding one to the values adds one to the count just then.
pub proof fn law_ulid_eve_push(vs: Seq<u128>, u: u128)
    ensures
        count_where(vs.push(u), |x: u128| is_christmas_eve(x)) == count_where(
            vs,
            |x: u128| is_christmas_eve(x),
        ) + if utc_month_day_of((timestamp_ms(u) / 1000) as i64) == Some((12u32, 24u32)) {
            1nat
        } else {
            0nat
        },
{
    assert(vs.push(u).drop_last() =~= vs);
}

/// Counts, over ULID values and the UTC dates of their timestamps (as `(month, day)`, one
/// for each value), those on 24 December, those on the given weekday, those in the future of
/// `now` (nanoseconds since the Unix epoch) and those with their lowest bit set.
pub fn tally_ulids(vals: &Vec<u128>, dates: &Vec<Option<(u32, u32)>>, weekday: u8, now: u128) -> (d:
    UlidReturnData)
    requires
        vals@.len() == dates@.len(),
    ensures
        d.christmas_eve == count_eve_dates(dates@),
        (forall|j: int| 0 <= j < dates@.len() ==> dates@[j] != Some((12u32, 24u32)))
            ==> d.christmas_eve == 0,
        (forall|j: int| 0 <= j < dates@.len() ==> dates@[j] == Some((12u32, 24u32)))
            ==> d.christmas_eve == dates@.len(),
        d.weekday == count_where(vals@, |u: u128| weekday_of(u) == weekday as nat),
        d.future == count_where(vals@, |u: u128| is_future(u, now)),
        d.lsb1 == count_where(vals@, |u: u128| lsb_set(u)),
{
    let ghost p_day = |u: u128| weekday_of(u) == weekday as nat;
    let ghost p_fut = |u: u128| is_future(u, now);
    let ghost p_lsb = |u: u128| lsb_set(u);
    let mut d = UlidReturnData { christmas_eve: 0, weekday: 0, future: 0, lsb1: 0 };
    let mut i: usize = 0;
    while i < vals.len()
        invariant
            vals@.len() == dates@.len(),
            i <= vals@.len(),
            d.christmas_eve == count_eve_dates(dates@.take(i as int)),
            d.weekday == count_where(vals@.take(i as int), p_day),
            d.future == count_where(vals@.take(i as int), p_fut),
            d.lsb1 == count_where(vals@.take(i as int), p_lsb),
            d.christmas_eve <= i && d.weekday <= i && d.future <= i && d.lsb1 <= i,
            p_day == (|u: u128| weekday_of(u) == weekday as nat),
            p_fut == (|u: u128| is_future(u, now)),
            p_lsb == (|u: u128| lsb_set(u)),
        decreases vals.len() - i,
    {
        let u = vals[i];
        let ghost t = vals@.take(i + 1);
        assert(t.drop_last() =~= vals@.take(i as int));
        assert(t.last() == u);
        let ghost e = dates@.take(i + 1);
        assert(e.drop_last() =~= dates@.take(i as int));
        assert(e.last() == dates@[i as int]);
        let ts = timestamp_of(u);
        let eve = match dates[i] {
            Some((m, day)) => m == 12 && day == 24,
            None => false,
        };
        let wd = ((ts % 604800000 / 86400000 + 3) % 7) as u8;
        let fut = (ts as u128) * 1_000_000 > now;
        let lsb = u & 1 == 1;
        proof {
            assert(u & 1 == u % 2) by (bit_vector);
        }
        if eve {
            d.christmas_eve = d.christmas_eve + 1;
        }
        if wd == weekday {
            d.weekday = d.weekday + 1;
        }
        if fut {
            d.future = d.future + 1;
        }
        if lsb {
            d.lsb1 = d.lsb1 + 1;
        }
        i = i + 1;
    }
    assert(vals@.take(i as int) =~= vals@);
    assert(dates@.take(i as int) =~= dates@);
    proof {
        law_eve_count_extremes(dates@);
    }
    d
}

proof fn lemma_count_eve(vs: Seq<u128>, ds: Seq<Option<(u32, u32)>>)
    requires
        ds.len() == vs.len(),
        forall|j: int|
            0 <= j < ds.len() ==> #[trigger] ds[j] == utc_month_day_of(
                (timestamp_ms(vs[j]) / 1000) as i64,
            ),
    ensures
        count_eve_dates(ds) == count_where(vs, |u: u128| is_christmas_eve(u)),
    decreases vs.len(),
{
    if vs.len() > 0 {
        let n = vs.len() - 1;
        assert(ds[n] == utc_month_day_of((timestamp_ms(vs[n]) / 1000) as i64));
        assert(ds.last() == ds[n]);
        assert(vs.last() == vs[n]);
        assert forall|j: int| 0 <= j < ds.drop_last().len() implies #[trigger] ds.drop_last()[j]
            == utc_month_day_of((timestamp_ms(vs.drop_last()[j]) / 1000) as i64) by {
            assert(ds[j] == utc_month_day_of((timestamp_ms(vs[j]) / 1000) as i64));
        }
        lemma_count_eve(vs.drop_last(), ds.drop_last());
    }
}

/// Counts, over the ULIDs, those on Christmas Eve, those on the given weekday, those in the
/// future of `now` (nanoseconds since the Unix epoch) and those with their lowest bit set;
/// `400` when one of the texts is no ULID.
pub fn ulids_weekday(weekday: u8, data: &Vec<String>, now: u128) -> (r: Result<
    UlidReturnData,
    Status,
>)
    ensures
        !all_ulids(data@) ==> r == Err::<UlidReturnData, Status>(Status { code: 400 }),
        all_ulids(data@) ==> (r matches Ok(d) && {
            let vs = ulid_values(data@);
            &&& d.christmas_eve == count_where(vs, |u: u128| is_christmas_eve(u))
            &&& d.weekday == count_where(vs, |u: u128| weekday_of(u) == weekday as nat)
            &&& d.future == count_where(vs, |u: u128| is_future(u, now))
            &&& d.lsb1 == count_where(vs, |u: u128| lsb_set(u))
        }),
        all_ulids(data@) && (forall|j: int|
            0 <= j < data@.len() ==> utc_month_day_of(
                (timestamp_ms(#[trigger] ulid_values(data@)[j]) / 1000) as i64,
            ) != Some((12u32, 24u32))) ==> (r matches Ok(d) && d.christmas_eve == 0),
{
    let vals = match decode_all(data) {
        None => {
            return Err(Status { code: 400 });
        },
        Some(v) => v,
    };
    let ghost vs = ulid_values(data@);
    assert(vals@ =~= vs);
    let mut dates: Vec<Option<(u32, u32)>> = Vec::new();
    let mut i: usize = 0;
    while i < vals.len()
        invariant
            i <= vals@.len(),
            dates@.len() == i,
            forall|j: int|
                0 <= j < i ==> #[trigger] dates@[j] == utc_month_day_of(
                    (timestamp_ms(vals@[j]) / 1000) as i64,
                ),
        decreases vals.len() - i,
    {
        let ts = timestamp_of(vals[i]);
        dates.push(utc_month_day((ts / 1000) as i64));
        i = i + 1;
    }
    proof {
        lemma_count_eve(vals@, dates@);
        assert forall|j: int| 0 <= j < dates@.len() implies dates@[j] == utc_month_day_of(
            (timestamp_ms(ulid_values(data@)[j]) / 1000) as i64,
        ) by {
            assert(vals@[j] == vs[j]);
        }
    }
    Ok(tally_ulids(&vals, &dates, weekday, now))
}

} // verus!
