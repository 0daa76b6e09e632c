//! Reindeer: their total strength, and the winners of a contest.
use vstd::prelude::*;
use crate::numbers::{decimal, push_decimal};
use crate::text::append;

verus! {

/// A reindeer as the strength endpoint reads it.
#[derive(Debug)]
pub struct StrengthData {
    pub name: String,
    pub strength: usize,
}

/// The sum of the strengths of the first `n` reindeer.
pub open spec fn total_strength(data: Seq<StrengthData>, n: int) -> int
    decreases n,
{
    if n <= 0 {
        0
    } else {
        total_strength(data, n - 1) + data[n - 1].strength
    }
}

proof fn lemma_total_monotone(data: Seq<StrengthData>, m: int, n: int)
    requires
        0 <= m <= n <= data.len(),
    ensures
        total_strength(data, m) <= total_strength(data, n),
    decreases n - m,
{
    if m < n {
        lemma_total_monotone(data, m, n - 1);
    }
}

/// The combined strength of all the reindeer, or `None` where it leaves the range of
/// `usize`.
pub fn strength_checked(data: &Vec<StrengthData>) -> (r: Option<usize>)
    ensures
        total_strength(data@, data@.len() as int) <= usize::MAX ==> (r matches Some(v) && v
            == total_strength(data@, data@.len() as int)),
        total_strength(data@, data@.len() as int) > usize::MAX ==> r is None,
{
    let mut sum: usize = 0;
    let mut i: usize = 0;
    while i < data.len()
        invariant
            i <= data@.len(),
            sum == total_strength(data@, i as int),
        decreases data.len() - i,
    {
        if data[i].strength > usize::MAX - sum {
            proof {
                lemma_total_monotone(data@, i + 1, data@.len() as int);
            }
            return None;
        }
        sum = sum + data[i].strength;
        i = i + 1;
    }
    Some(sum)
}

/// The combined strength of all the reindeer.
pub fn strength(data: &Vec<StrengthData>) -> (r: usize)
    requires
        total_strength(data@, data@.len() as int) <= usize::MAX,
    ensures
        r == total_strength(data@, data@.len() as int),
{
    match strength_checked(data) {
        Some(v) => v,
        None => 0,
    }
}

/// A reindeer as the contest reads it. `speed` stands for the speed by its place in the total
/// order of floating-point numbers: a larger `speed` is a faster reindeer.
#[derive(Debug)]
pub struct ContestData {
    pub name: String,
    pub strength: usize,
    pub speed: i32,
    pub height: usize,
    pub antler_width: usize,
    pub snow_magic_power: usize,
    pub favorite_food: String,
    pub candies_eaten_yesterday: usize,
}

/// The four sentences announcing the winners.
#[derive(Debug)]
pub struct ContestOutput {
    pub fastest: String,
    pub tallest: String,
    pub magician: String,
    pub consumer: String,
}

/// `i` is where `keys` is largest, the last such place when several tie.
pub open spec fn is_last_max(keys: Seq<int>, i: int) -> bool {
    &&& 0 <= i < keys.len()
    &&& forall|j: int| 0 <= j < keys.len() ==> keys[j] <= keys[i]
    &&& forall|j: int| i < j < keys.len() ==> keys[j] < keys[i]
}

pub open spec fn speeds(data: Seq<ContestData>) -> Seq<int> {
    data.map_values(|r: ContestData| r.speed as int)
}

pub open spec fn heights(data: Seq<ContestData>) -> Seq<int> {
    data.map_values(|r: ContestData| r.height as int)
}

pub open spec fn magic_powers(data: Seq<ContestData>) -> Seq<int> {
    data.map_values(|r: ContestData| r.snow_magic_power as int)
}

pub open spec fn candies(data: Seq<ContestData>) -> Seq<int> {
    data.map_values(|r: ContestData| r.candies_eaten_yesterday as int)
}

/// Which key of a reindeer the winner is chosen by.
#[derive(Clone, Copy)]
enum Criterion {
    Speed,
    Height,
    Magic,
    Candies,
}

spec fn criterion_keys(data: Seq<ContestData>, c: Criterion) -> Seq<int> {
    match c {
        Criterion::Speed => speeds(data),
        Criterion::Height => heights(data),
        Criterion::Magic => magic_powers(data),
        Criterion::Candies => candies(data),
    }
}

fn key_of(r: &ContestData, c: Criterion) -> (k: i128)
    ensures
        k == match c {
            Criterion::Speed => r.speed as int,
            Criterion::Height => r.height as int,
            Criterion::Magic => r.snow_magic_power as int,
            Criterion::Candies => r.candies_eaten_yesterday as int,
        },
{
    match c {
        Criterion::Speed => r.speed as i128,
        Criterion::Height => r.height as i128,
        Criterion::Magic => r.snow_magic_power as i128,
        Criterion::Candies => r.candies_eaten_yesterday as i128,
    }
}

/// The index of the winner by `c`: the largest key, the last one on a tie, as `max_by_key`.
fn winner(data: &Vec<ContestData>, c: Criterion) -> (i: usize)
    requires
        data@.len() > 0,
    ensures
        is_last_max(criterion_keys(data@, c), i as int),
{
    let ghost keys = criterion_keys(data@, c);
    let mut best: usize = 0;
    let mut i: usize = 1;
    while i < data.len()
        invariant
            keys == criterion_keys(data@, c),
            keys.len() == data@.len(),
            1 <= i <= data@.len(),
            best < i,
            forall|j: int| 0 <= j < i ==> keys[j] <= keys[best as int],
            forall|j: int| best < j < i ==> keys[j] < keys[best as int],
        decreases data.len() - i,
    {
        if key_of(&data[i], c) >= key_of(&data[best], c) {
            best = i;
        }
        i = i + 1;
    }
    best
}

/// The sentence for the fastest reindeer.
pub open spec fn fastest_text(r: ContestData) -> Seq<char> {
    "Speeding past the finish line with a strength of "@ + decimal(r.strength as nat) + " is "@
        + r.name@
}

/// The sentence for the tallest reindeer.
pub open spec fn tallest_text(r: ContestData) -> Seq<char> {
    r.name@ + " is standing tall with his "@ + decimal(r.antler_width as nat)
        + " cm wide antlers"@
}

/// The sentence for the reindeer with the most snow magic power.
pub open spec fn magician_text(r: ContestData) -> Seq<char> {
    r.name@ + " could blast you away with a snow magic power of "@ + decimal(
        r.snow_magic_power as nat,
    )
}

/// The sentence for the reindeer that ate the most candies.
pub open spec fn consumer_text(r: ContestData) -> Seq<char> {
    r.name@ + " ate lots of candies, but also some "@ + r.favorite_food@
}

/// The winners of the contest: the fastest, the tallest, the strongest in magic and the one
/// that ate the most candies, each the last among equals.
pub fn contest(data: &Vec<ContestData>) -> (out: ContestOutput)
    requires
        data@.len() > 0,
    ensures
        exists|i: int| is_last_max(speeds(data@), i) && out.fastest@ == fastest_text(data@[i]),
        exists|i: int| is_last_max(heights(data@), i) && out.tallest@ == tallest_text(data@[i]),
        exists|i: int|
            is_last_max(magic_powers(data@), i) && out.magician@ == magician_text(data@[i]),
        exists|i: int| is_last_max(candies(data@), i) && out.consumer@ == consumer_text(data@[i]),
{
    let f = winner(data, Criterion::Speed);
    let mut fastest = String::new();
    append(&mut fastest, "Speeding past the finish line with a strength of ");
    push_decimal(&mut fastest, data[f].strength as u128);
    append(&mut fastest, " is ");
    append(&mut fastest, data[f].name.as_str());
    let t = winner(data, Criterion::Height);
    let mut tallest = String::new();
    append(&mut tallest, data[t].name.as_str());
    append(&mut tallest, " is standing tall with his ");
    push_decimal(&mut tallest, data[t].antler_width as u128);
    append(&mut tallest, " cm wide antlers");
    let m = winner(data, Criterion::Magic);
    let mut magician = String::new();
    append(&mut magician, data[m].name.as_str());
    append(&mut magician, " could blast you away with a snow magic power of ");
    push_decimal(&mut magician, data[m].snow_magic_power as u128);
    let c = winner(data, Criterion::Candies);
    let mut consumer = String::new();
    append(&mut consumer, data[c].name.as_str());
    append(&mut consumer, " ate lots of candies, but also some ");
    append(&mut consumer, data[c].favorite_food.as_str());
    proof {
        assert(fastest@ =~= fastest_text(data@[f as int]));
        assert(tallest@ =~= tallest_text(data@[t as int]));
        assert(magician@ =~= magician_text(data@[m as int]));
        assert(consumer@ =~= consumer_text(data@[c as int]));
    }
    ContestOutput { fastest, tallest, magician, consumer }
}

} // verus!
