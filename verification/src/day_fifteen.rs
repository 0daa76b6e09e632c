//! Judging passwords: the simple rules of `nice`, and the long list of rules of `game`.
use vstd::prelude::*;
use crate::Status;
use crate::numbers::{parse_unsigned, parse_usize};
use crate::text::chars_of;

verus! {

// ---------------------------------------------------------------------------------------------
// Outside pieces: regular expressions, `char::is_alphabetic`, SHA-256
#[verifier::external_type_specification]
#[verifier::external_body]
pub struct ExRegex(regex::Regex);

/// A compiled regular expression, with the pattern it was compiled from.
pub struct Pattern {
    source: String,
    re: regex::Regex,
}

impl Pattern {
    /// The pattern this expression was compiled from.
    pub closed spec fn source(&self) -> Seq<char> {
        self.source@
    }
}

/// Whether `regex::Regex::new` accepts the pattern.
pub uninterp spec fn regex_compiles(pattern: Seq<char>) -> bool;

/// What `regex::Regex::is_match` answers for the pattern on the text.
pub uninterp spec fn regex_is_match(pattern: Seq<char>, text: Seq<char>) -> bool;

/// The texts of the matches that `regex::Regex::find_iter` yields for the pattern on the text,
/// in order.
pub uninterp spec fn regex_matches(pattern: Seq<char>, text: Seq<char>) -> Seq<Seq<char>>;

/// Whether `char::is_alphabetic` holds of the character (Unicode's `Alphabetic` property).
pub uninterp spec fn alphabetic(c: char) -> bool;

/// The lowercase hexadecimal SHA-256 digest that `sha256::digest` gives for the text.
pub uninterp spec fn sha256_hex(text: Seq<char>) -> Seq<char>;

/// `regex::Regex::new`: the compiled expression, kept with its pattern, when the pattern is
/// accepted.
#[verifier::external_body]
fn compile(source: &str) -> (r: Option<Pattern>)
    ensures
        r is Some <==> regex_compiles(source@),
        r matches Some(p) ==> p.source() == source@,
{
    match regex::Regex::new(source) {
        Ok(re) => Some(Pattern { source: source.to_string(), re }),
        Err(_) => None,
    }
}

/// `regex::Regex::is_match` on the text.
#[verifier::external_body]
fn is_match(p: &Pattern, text: &str) -> (b: bool)
    ensures
        b == regex_is_match(p.source(), text@),
{
    p.re.is_match(text)
}

/// `regex::Regex::find_iter` on the text, each match as its text.
#[verifier::external_body]
fn find_all(p: &Pattern, text: &str) -> (r: Vec<String>)
    ensures
        r@.len() == regex_matches(p.source(), text@).len(),
        forall|i: int| 0 <= i < r@.len() ==> (#[trigger] r@[i])@ == regex_matches(p.source(), text@)[i],
{
    let mut found = Vec::new();
    for m in p.re.find_iter(text) {
        found.push(m.as_str().to_string());
    }
    found
}

/// `char::is_alphabetic`.
#[verifier::external_body]
fn is_alphabetic(c: char) -> (b: bool)
    ensures
        b == alphabetic(c),
{
    c.is_alphabetic()
}

/// `sha256::digest` of the text.
#[verifier::external_body]
fn sha256_digest(text: &str) -> (s: String)
    ensures
        s@ == sha256_hex(text@),
{
    sha256::digest(text)
}

// ---------------------------------------------------------------------------------------------
// nice
pub open spec fn vowel_pattern() -> Seq<char> {
    "[aiueoAIUEO]"@
}

pub open spec fn forbidden_pattern() -> Seq<char> {
    "ab|cd|pq|xy"@
}

/// Some letter of `s` follows the same letter.
pub open spec fn has_double_letter(s: Seq<char>) -> bool {
    exists|i: int| 1 <= i < s.len() && alphabetic(#[trigger] s[i]) && s[i - 1] == s[i]
}

/// The answer of the simple rules.
#[derive(Debug)]
pub struct NiceOutput {
    pub result: String,
}

/// The simple rules: at least three vowels, a letter twice in a row, none of the forbidden
/// pairs.
pub fn nice_verdict(vowels: usize, doubled: bool, forbidden: bool) -> (b: bool)
    ensures
        b == (vowels >= 3 && doubled && !forbidden),
{
    vowels >= 3 && doubled && !forbidden
}

fn double_letter(cs: &Vec<char>) -> (b: bool)
    ensures
        b == has_double_letter(cs@),
{
    let mut i: usize = 1;
    while i < cs.len()
        invariant
            1 <= i,
            forall|j: int| 1 <= j < i && j < cs@.len() ==> !(alphabetic(#[trigger] cs@[j]) && cs@[j - 1] == cs@[j]),
        decreases cs.len() - i,
    {
        if is_alphabetic(cs[i]) && cs[i - 1] == cs[i] {
            return true;
        }
        i = i + 1;
    }
    false
}

/// The answer of the simple rules for `input`, as (status code, result).
pub open spec fn nice_answer(input: Seq<char>) -> (u16, Seq<char>) {
    if !regex_compiles(vowel_pattern()) || !regex_compiles(forbidden_pattern()) {
        (500, "Failed to create RegEx"@)
    } else if regex_matches(vowel_pattern(), input).len() >= 3 && has_double_letter(input)
        && !regex_is_match(forbidden_pattern(), input) {
        (200, "nice"@)
    } else {
        (400, "naughty"@)
    }
}

/// Judges `input` by the simple rules: `"nice"`, or `"naughty"` with `400`; `500` when the
/// expressions do not compile.
pub fn nice(input: &str) -> (r: Result<NiceOutput, (Status, NiceOutput)>)
    ensures
        match r {
            Ok(o) => nice_answer(input@) == (200u16, o.result@),
            Err((s, o)) => nice_answer(input@) == (s.code, o.result@) && s.code != 200,
        },
{
    let re1 = match compile("[aiueoAIUEO]") {
        Some(p) => p,
        None => {
            return Err((Status { code: 500 }, NiceOutput { result: String::from_str("Failed to create RegEx") }));
        },
    };
    let re2 = match compile("ab|cd|pq|xy") {
        Some(p) => p,
        None => {
            return Err((Status { code: 500 }, NiceOutput { result: String::from_str("Failed to create RegEx") }));
        },
    };
    let vowels = find_all(&re1, input).len();
    let cs = chars_of(input);
    let doubled = double_letter(&cs);
    let forbidden = is_match(&re2, input);
    if nice_verdict(vowels, doubled, forbidden) {
        Ok(NiceOutput { result: String::from_str("nice") })
    } else {
        Err((Status { code: 400 }, NiceOutput { result: String::from_str("naughty") }))
    }
}

// ---------------------------------------------------------------------------------------------
// game
pub open spec fn lower_pattern() -> Seq<char> {
    "[a-z]"@
}

pub open spec fn upper_pattern() -> Seq<char> {
    "[A-Z]"@
}

pub open spec fn digit_pattern() -> Seq<char> {
    "\\d"@
}

pub open spec fn number_pattern() -> Seq<char> {
    "\\d+"@
}

pub open spec fn joy_pattern() -> Seq<char> {
    "j.+?o.+?y"@
}

pub open spec fn range_pattern() -> Seq<char> {
    "[\\u2980-\\u2BFF]"@
}

/// All six expressions of the game compile.
pub open spec fn game_patterns_compile() -> bool {
    &&& regex_compiles(lower_pattern())
    &&& regex_compiles(upper_pattern())
    &&& regex_compiles(digit_pattern())
    &&& regex_compiles(number_pattern())
    &&& regex_compiles(joy_pattern())
    &&& regex_compiles(range_pattern())
}

/// Some letter of `s` stands between two equal letters, different from it.
pub open spec fn has_sandwich(s: Seq<char>) -> bool {
    exists|i: int|
        2 <= i < s.len() && alphabetic(#[trigger] s[i]) && s[i - 2] == s[i] && alphabetic(s[i - 1])
            && s[i - 1] != s[i]
}

/// The character is in one of the emoji blocks the game accepts.
pub open spec fn is_emoji(c: char) -> bool {
    ||| ('\u{1F600}' <= c && c <= '\u{1F64F}')
    ||| ('\u{1F300}' <= c && c <= '\u{1F5FF}')
    ||| ('\u{1F680}' <= c && c <= '\u{1F6FF}')
    ||| ('\u{2600}' <= c && c <= '\u{26FF}')
    ||| ('\u{2700}' <= c && c <= '\u{27BF}')
    ||| ('\u{FE00}' <= c && c <= '\u{FE0F}')
    ||| ('\u{1F900}' <= c && c <= '\u{1F9FF}')
    ||| ('\u{1F1E6}' <= c && c <= '\u{1F1FF}')
}

pub open spec fn has_emoji(s: Seq<char>) -> bool {
    exists|i: int| 0 <= i < s.len() && is_emoji(#[trigger] s[i])
}

/// The sum of the numbers the digit runs write, added from the first: `None` where a run
/// cannot be read as a `usize` or the sum leaves the range of `usize`.
pub open spec fn sum_runs(runs: Seq<Seq<char>>) -> Option<nat>
    decreases runs.len(),
{
    if runs.len() == 0 {
        Some(0)
    } else {
        match sum_runs(runs.drop_last()) {
            None => None,
            Some(a) => match parse_unsigned(runs.last(), usize::MAX as int) {
                Err(_) => None,
                Ok(v) => if a + v > usize::MAX {
                    None
                } else {
                    Some((a + v) as nat)
                },
            },
        }
    }
}

/// What the game rules find in a password, as `game_verdict` reads them.
#[derive(Debug)]
pub struct GameFacts {
    pub length: usize,
    pub has_lower: bool,
    pub has_upper: bool,
    pub has_digit: bool,
    pub digits: usize,
    pub number_sum: usize,
    pub joyful: bool,
    pub sandwich: bool,
    pub in_range: bool,
    pub emoji: bool,
    pub hash_ends_with_a: bool,
}

/// The answer of the game rules.
#[derive(Debug)]
pub struct ReasonableNiceOutput {
    pub result: String,
    pub reason: String,
}

/// The answer of the game rules as (status code, result, reason), for the facts found: the
/// first rule broken decides.
pub open spec fn game_rules(f: GameFacts) -> (u16, Seq<char>, Seq<char>) {
    if f.length < 8 {
        (400, "naughty"@, "8 chars"@)
    } else if !(f.has_lower && f.has_upper && f.has_digit) {
        (400, "naughty"@, "more types of chars"@)
    } else if f.digits < 5 {
        (400, "naughty"@, "55555"@)
    } else if f.number_sum != 2023 {
        (400, "naughty"@, "math is hard"@)
    } else if !f.joyful {
        (406, "naughty"@, "not joyful enough"@)
    } else if !f.sandwich {
        (451, "naughty"@, "illegal: no sandwich"@)
    } else if !f.in_range {
        (416, "naughty"@, "outranged"@)
    } else if !f.emoji {
        (426, "naughty"@, "\u{1F633}"@)
    } else if !f.hash_ends_with_a {
        (418, "naughty"@, "not a coffee brewer"@)
    } else {
        (200, "nice"@, "that's a nice password"@)
    }
}

pub open spec fn output_of(r: Result<ReasonableNiceOutput, (Status, ReasonableNiceOutput)>) -> (
    u16,
    Seq<char>,
    Seq<char>,
) {
    match r {
        Ok(o) => (200, o.result@, o.reason@),
        Err((s, o)) => (s.code, o.result@, o.reason@),
    }
}

impl ReasonableNiceOutput {
    /// A refusal: the status, and the result `"naughty"` with the reason.
    pub fn create_error(status: Status, reason: &str) -> (r: (Status, ReasonableNiceOutput))
        ensures
            r.0 == status,
            r.1.result@ == "naughty"@,
            r.1.reason@ == reason@,
    {
        (status, ReasonableNiceOutput { result: String::from_str("naughty"), reason: String::from_str(reason) })
    }
}

fn naughty(code: u16, reason: &str) -> (r: Result<ReasonableNiceOutput, (Status, ReasonableNiceOutput)>)
    ensures
        output_of(r) == (code, "naughty"@, reason@),
        r is Err,
{
    Err(ReasonableNiceOutput::create_error(Status { code }, reason))
}

/// Judges the facts by the game rules, the first rule broken deciding.
pub fn game_verdict(f: &GameFacts) -> (r: Result<ReasonableNiceOutput, (Status, ReasonableNiceOutput)>)
    ensures
        output_of(r) == game_rules(*f),
        r is Ok <==> game_rules(*f).0 == 200,
{
    if f.length < 8 {
        naughty(400, "8 chars")
    } else if !(f.has_lower && f.has_upper && f.has_digit) {
        naughty(400, "more types of chars")
    } else if f.digits < 5 {
        naughty(400, "55555")
    } else if f.number_sum != 2023 {
        naughty(400, "math is hard")
    } else if !f.joyful {
        naughty(406, "not joyful enough")
    } else if !f.sandwich {
        naughty(451, "illegal: no sandwich")
    } else if !f.in_range {
        naughty(416, "outranged")
    } else if !f.emoji {
        naughty(426, "\u{1F633}")
    } else if !f.hash_ends_with_a {
        naughty(418, "not a coffee brewer")
    } else {
        Ok(ReasonableNiceOutput { result: String::from_str("nice"), reason: String::from_str("that's a nice password") })
    }
}

/// The facts the game finds in `input`, given the sum of its numbers.
pub open spec fn game_facts(input: Seq<char>, sum: nat) -> GameFacts {
    let sha = sha256_hex(input);
    GameFacts {
        length: input.len() as usize,
        has_lower: regex_is_match(lower_pattern(), input),
        has_upper: regex_is_match(upper_pattern(), input),
        has_digit: regex_is_match(digit_pattern(), input),
        digits: regex_matches(digit_pattern(), input).len() as usize,
        number_sum: sum as usize,
        joyful: regex_is_match(joy_pattern(), input),
        sandwich: has_sandwich(input),
        in_range: regex_is_match(range_pattern(), input),
        emoji: has_emoji(input),
        hash_ends_with_a: sha.len() > 0 && sha[sha.len() - 1] == 'a',
    }
}

/// The answer of the game for `input`: `None` where the numbers in it have to be added (the
/// rules before that all hold) and cannot be.
pub open spec fn game_answer(input: Seq<char>) -> Option<(u16, Seq<char>, Seq<char>)> {
    if !game_patterns_compile() {
        Some((500, "error"@, "Failed to parse RegEx."@))
    } else {
        let early = game_rules(game_facts(input, 2023));
        if input.len() < 8 || !(regex_is_match(lower_pattern(), input) && regex_is_match(
            upper_pattern(),
            input,
        ) && regex_is_match(digit_pattern(), input)) || regex_matches(digit_pattern(), input).len()
            < 5 {
            Some(early)
        } else {
            match sum_runs(regex_matches(number_pattern(), input)) {
                None => None,
                Some(s) => if s > usize::MAX {
                    None
                } else {
                    Some(game_rules(game_facts(input, s)))
                },
            }
        }
    }
}

/// The length rule counts characters: whenever the expressions compile, a password of fewer
/// than eight characters, whatever its UTF-8 length, is refused with `400`, `"naughty"`,
/// `"8 chars"`; one of eight or more (that fits in memory) is never refused for its length.
pub proof fn law_length_counts_characters(input: Seq<char>)
    requires
        game_patterns_compile(),
    ensures
        input.len() < 8 ==> game_answer(input) == Some((400u16, "naughty"@, "8 chars"@)),
        8 <= input.len() <= usize::MAX ==> !(game_answer(input) matches Some(a) && a.2
            == "8 chars"@),
{
    reveal_strlit("8 chars");
    reveal_strlit("more types of chars");
    reveal_strlit("55555");
    reveal_strlit("math is hard");
    reveal_strlit("not joyful enough");
    reveal_strlit("illegal: no sandwich");
    reveal_strlit("outranged");
    reveal_strlit("\u{1F633}");
    reveal_strlit("not a coffee brewer");
    reveal_strlit("that's a nice password");
    if 8 <= input.len() <= usize::MAX {
        assert("8 chars"@.len() == 7);
        assert("more types of chars"@ != "8 chars"@) by {
            assert("more types of chars"@.len() != 7);
        }
        assert("55555"@ != "8 chars"@) by {
            assert("55555"@.len() != 7);
        }
        assert("math is hard"@ != "8 chars"@) by {
            assert("math is hard"@.len() != 7);
        }
        assert("not joyful enough"@ != "8 chars"@) by {
            assert("not joyful enough"@.len() != 7);
        }
        assert("illegal: no sandwich"@ != "8 chars"@) by {
            assert("illegal: no sandwich"@.len() != 7);
        }
        assert("outranged"@ != "8 chars"@) by {
            assert("outranged"@.len() != 7);
        }
        assert("\u{1F633}"@ != "8 chars"@) by {
            assert("\u{1F633}"@.len() != 7);
        }
        assert("not a coffee brewer"@ != "8 chars"@) by {
            assert("not a coffee brewer"@.len() != 7);
        }
        assert("that's a nice password"@ != "8 chars"@) by {
            assert("that's a nice password"@.len() != 7);
        }
    }
}

fn sandwich(cs: &Vec<char>) -> (b: bool)
    ensures
        b == has_sandwich(cs@),
{
    let mut i: usize = 2;
    while i < cs.len()
        invariant
            2 <= i,
            forall|j: int|
                2 <= j < i && j < cs@.len() ==> !(alphabetic(#[trigger] cs@[j]) && cs@[j - 2] == cs@[j]
                    && alphabetic(cs@[j - 1]) && cs@[j - 1] != cs@[j]),
        decreases cs.len() - i,
    {
        if is_alphabetic(cs[i]) && cs[i - 2] == cs[i] && is_alphabetic(cs[i - 1]) && cs[i - 1] != cs[i] {
            return true;
        }
        i = i + 1;
    }
    false
}

fn emoji(cs: &Vec<char>) -> (b: bool)
    ensures
        b == has_emoji(cs@),
{
    let mut i: usize = 0;
    while i < cs.len()
        invariant
            i <= cs@.len(),
            forall|j: int| 0 <= j < i ==> !is_emoji(#[trigger] cs@[j]),
        decreases cs.len() - i,
    {
        let c = cs[i];
        if ('\u{1F600}' <= c && c <= '\u{1F64F}') || ('\u{1F300}' <= c && c <= '\u{1F5FF}') || (
        '\u{1F680}' <= c && c <= '\u{1F6FF}') || ('\u{2600}' <= c && c <= '\u{26FF}') || ('\u{2700}'
            <= c && c <= '\u{27BF}') || ('\u{FE00}' <= c && c <= '\u{FE0F}') || ('\u{1F900}' <= c && c
            <= '\u{1F9FF}') || ('\u{1F1E6}' <= c && c <= '\u{1F1FF}') {
            return true;
        }
        i = i + 1;
    }
    false
}

/// Adds up the numbers the runs of digits write, as `sum_runs` states: `None` where one of
/// them is no `usize` or the sum leaves its range.
pub fn add_runs(runs: &Vec<String>) -> (r: Option<usize>)
    ensures
        match sum_runs(runs@.map_values(|s: String| s@)) {
            Some(s) => r == Some(s as usize) && s <= usize::MAX,
            None => r is None,
        },
{
    let ghost rs = runs@.map_values(|s: String| s@);
    let mut sum: usize = 0;
    let mut i: usize = 0;
    while i < runs.len()
        invariant
            rs == runs@.map_values(|s: String| s@),
            i <= runs@.len(),
            sum_runs(rs.take(i as int)) == Some(sum as nat),
        decreases runs.len() - i,
    {
        let ghost t = rs.take(i + 1);
        assert(t.drop_last() =~= rs.take(i as int));
        assert(t.last() == runs@[i as int]@);
        match parse_usize(runs[i].as_str()) {
            Err(_) => {
                proof {
                    lemma_sum_runs_stop(rs, i + 1);
                }
                return None;
            },
            Ok(v) => {
                if v > usize::MAX - sum {
                    proof {
                        lemma_sum_runs_stop(rs, i + 1);
                    }
                    return None;
                }
                sum = sum + v;
            },
        }
        i = i + 1;
    }
    assert(rs.take(i as int) =~= rs);
    Some(sum)
}

proof fn lemma_sum_runs_stop(rs: Seq<Seq<char>>, n: int)
    requires
        1 <= n <= rs.len(),
        sum_runs(rs.take(n)) is None,
    ensures
        sum_runs(rs) is None,
    decreases rs.len() - n,
{
    if n < rs.len() {
        let t = rs.take(n + 1);
        assert(t.drop_last() =~= rs.take(n));
        lemma_sum_runs_stop(rs, n + 1);
    } else {
        assert(rs.take(n) =~= rs);
    }
}

/// Judges `input` by the game rules; `None` where the numbers in it have to be added and
/// cannot be (a digit run that does not read as a `usize`, or a sum too large).
pub fn game(input: &str) -> (r: Option<Result<ReasonableNiceOutput, (Status, ReasonableNiceOutput)>>)
    ensures
        match game_answer(input@) {
            None => r is None,
            Some(a) => r matches Some(x) && output_of(x) == a && (x is Ok <==> a.0 == 200),
        },
        game_patterns_compile() && input@.len() < 8 ==> (r matches Some(Err((s, o))) && s.code
            == 400 && o.result@ == "naughty"@ && o.reason@ == "8 chars"@),
{
    proof {
        if game_patterns_compile() {
            law_length_counts_characters(input@);
        }
    }
    let regex_error = Some(Err((Status { code: 500 }, ReasonableNiceOutput {
        result: String::from_str("error"),
        reason: String::from_str("Failed to parse RegEx."),
    })));
    let re1 = match compile("[a-z]") { Some(p) => p, None => { return regex_error; } };
    let re2 = match compile("[A-Z]") { Some(p) => p, None => { return regex_error; } };
    let re3 = match compile("\\d") { Some(p) => p, None => { return regex_error; } };
    let re4 = match compile("\\d+") { Some(p) => p, None => { return regex_error; } };
    let re5 = match compile("j.+?o.+?y") { Some(p) => p, None => { return regex_error; } };
    let re6 = match compile("[\\u2980-\\u2BFF]") { Some(p) => p, None => { return regex_error; } };
    let cs = chars_of(input);
    let length = cs.len();
    let has_lower = is_match(&re1, input);
    let has_upper = is_match(&re2, input);
    let has_digit = is_match(&re3, input);
    let digits = find_all(&re3, input).len();
    let early = length < 8 || !(has_lower && has_upper && has_digit) || digits < 5;
    proof {
        assert(game_patterns_compile());
        assert(re3.source() == digit_pattern());
        assert(re4.source() == number_pattern());
    }
    let number_sum = if early {
        2023
    } else {
        let runs = find_all(&re4, input);
        proof {
            assert(runs@.map_values(|s: String| s@) =~= regex_matches(number_pattern(), input@));
        }
        match add_runs(&runs) {
            Some(s) => s,
            None => {
                return None;
            },
        }
    };
    let joyful = is_match(&re5, input);
    let sandwich_found = sandwich(&cs);
    let in_range = is_match(&re6, input);
    let emoji_found = emoji(&cs);
    let sha = chars_of(sha256_digest(input).as_str());
    let hash_ends_with_a = sha.len() > 0 && sha[sha.len() - 1] == 'a';
    let f = GameFacts {
        length,
        has_lower,
        has_upper,
        has_digit,
        digits,
        number_sum,
        joyful,
        sandwich: sandwich_found,
        in_range,
        emoji: emoji_found,
        hash_ends_with_a,
    };
    proof {
        let g = game_facts(input@, number_sum as nat);
        assert(f.length == g.length);
        assert(f.has_lower == g.has_lower);
        assert(f.has_upper == g.has_upper);
        assert(f.has_digit == g.has_digit);
        assert(f.digits == g.digits);
        assert(f.number_sum == g.number_sum);
        assert(f.joyful == g.joyful);
        assert(f.sandwich == g.sandwich);
        assert(f.in_range == g.in_range);
        assert(f.emoji == g.emoji);
        assert(f.hash_ends_with_a == g.hash_ends_with_a);
        assert(f == g);
    }
    Some(game_verdict(&f))
}

} // verus!
