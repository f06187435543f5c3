use std::ops::RangeInclusive;
use vstd::prelude::*;

verus! {

/// The first year with data.
pub const FIRST_YEAR: u16 = 2016;

/// The last year with data.
pub const LAST_YEAR: u16 = 2024;

pub open spec fn is_valid_year(year: int) -> bool {
    FIRST_YEAR <= year <= LAST_YEAR
}

/// How many rounds a year has: rounds run from 1 to this number.
pub open spec fn round_count(year: int) -> int {
    if year == 2016 {
        6
    } else if 2017 <= year <= 2019 {
        7
    } else if 2020 <= year <= 2023 {
        6
    } else if year == 2024 {
        5
    } else {
        0
    }
}

pub open spec fn is_valid_round(year: int, round: int) -> bool {
    is_valid_year(year) && 1 <= round <= round_count(year)
}

pub open spec fn digit_char(d: nat) -> char {
    if d == 0 {
        '0'
    } else if d == 1 {
        '1'
    } else if d == 2 {
        '2'
    } else if d == 3 {
        '3'
    } else if d == 4 {
        '4'
    } else if d == 5 {
        '5'
    } else if d == 6 {
        '6'
    } else if d == 7 {
        '7'
    } else if d == 8 {
        '8'
    } else {
        '9'
    }
}

/// The decimal digits of `n`, without leading zeros.
pub open spec fn decimal(n: nat) -> Seq<char>
    decreases n,
{
    if n < 10 {
        seq![digit_char(n)]
    } else {
        decimal(n / 10).push(digit_char(n % 10))
    }
}

/// Where the data of a year and round is stored: `db/<year>/data-<year>-<round>.db`.
pub open spec fn db_path(year: nat, round: nat) -> Seq<char> {
    "db/"@ + decimal(year) + "/data-"@ + decimal(year) + "-"@ + decimal(round) + ".db"@
}

fn digit_str(d: u32) -> (r: &'static str)
    requires
        d < 10,
    ensures
        r@ == seq![digit_char(d as nat)],
{
    proof {
        reveal_strlit("0");
        reveal_strlit("1");
        reveal_strlit("2");
        reveal_strlit("3");
        reveal_strlit("4");
        reveal_strlit("5");
        reveal_strlit("6");
        reveal_strlit("7");
        reveal_strlit("8");
        reveal_strlit("9");
    }
    let r = match d {
        0 => "0",
        1 => "1",
        2 => "2",
        3 => "3",
        4 => "4",
        5 => "5",
        6 => "6",
        7 => "7",
        8 => "8",
        _ => "9",
    };
    assert(r@ =~= seq![digit_char(d as nat)]);
    r
}

fn append_decimal(s: &mut String, n: u32)
    ensures
        final(s)@ == old(s)@ + decimal(n as nat),
    decreases n,
{
    if n >= 10 {
        append_decimal(s, n / 10);
    }
    s.append(digit_str(n % 10));
    proof {
        if n >= 10 {
            assert(old(s)@ + decimal((n / 10) as nat) + seq![digit_char((n % 10) as nat)] =~= old(
                s,
            )@ + decimal(n as nat));
        } else {
            assert(old(s)@ + seq![digit_char((n % 10) as nat)] =~= old(s)@ + decimal(n as nat));
        }
    }
}

fn db_path_of(year: u16, round: u8) -> (r: String)
    ensures
        r@ == db_path(year as nat, round as nat),
{
    let mut s = String::new();
    s.append("db/");
    append_decimal(&mut s, year as u32);
    s.append("/data-");
    append_decimal(&mut s, year as u32);
    s.append("-");
    append_decimal(&mut s, round as u32);
    s.append(".db");
    assert(s@ =~= db_path(year as nat, round as nat));
    s
}

/// The number of the last round of a year.
fn last_round(year: u16) -> (r: u8)
    requires
        is_valid_year(year as int),
    ensures
        r == round_count(year as int),
{
    match year {
        2016 => 6,
        2017 => 7,
        2018 => 7,
        2019 => 7,
        2020 => 6,
        2021 => 6,
        2022 => 6,
        2023 => 6,
        _ => 5,
    }
}

/// The rounds of a year.
pub fn valid_rounds(year: u16) -> (r: RangeInclusive<u8>)
    requires
        is_valid_year(year as int),
    ensures
        r@.start == 1,
        r@.end == round_count(year as int),
        !r@.exhausted,
{
    RangeInclusive::new(1, last_round(year))
}

/// A choice of dataset: a year and a round, each possibly not chosen yet.
#[derive(Clone, Copy, Debug, PartialEq, Eq, Structural)]
pub struct Options {
    pub year: Option<u16>,
    pub round: Option<u8>,
}

impl Options {
    pub open spec fn spec_is_complete(self) -> bool {
        self.year.is_some() && self.round.is_some()
    }

    /// Both year and round are chosen, and the round exists in that year.
    pub open spec fn spec_is_valid(self) -> bool {
        &&& self.spec_is_complete()
        &&& is_valid_round(self.year.unwrap() as int, self.round.unwrap() as int)
    }

    /// The years with data.
    pub fn get_valid_years() -> (r: RangeInclusive<u16>)
        ensures
            r@.start == FIRST_YEAR,
            r@.end == LAST_YEAR,
            !r@.exhausted,
    {
        RangeInclusive::new(FIRST_YEAR, LAST_YEAR)
    }

    /// The rounds of a year, or an empty range while no year is chosen.
    pub fn get_valid_rounds(year: Option<u16>) -> (r: RangeInclusive<u8>)
        requires
            year.is_some() ==> is_valid_year(year.unwrap() as int),
        ensures
            year.is_some() ==> r@.start == 1 && r@.end == round_count(year.unwrap() as int),
            year.is_none() ==> r@.start == 4 && r@.end == 3,
            !r@.exhausted,
    {
        match year {
            Some(y) => valid_rounds(y),
            None => RangeInclusive::new(4, 3),
        }
    }

    pub fn is_complete(&self) -> (r: bool)
        ensures
            r == self.spec_is_complete(),
    {
        self.year.is_some() && self.round.is_some()
    }

    /// Whether this choice names a dataset that exists.
    pub fn is_valid(&self) -> (r: bool)
        ensures
            r == self.spec_is_valid(),
    {
        match (self.year, self.round) {
            (Some(year), Some(round)) => FIRST_YEAR <= year && year <= LAST_YEAR && 1 <= round
                && round <= last_round(year),
            _ => false,
        }
    }

    /// The path of the chosen dataset.
    pub fn into_db_path(&self) -> (r: String)
        requires
            self.spec_is_complete(),
        ensures
            r@ == db_path(self.year.unwrap() as nat, self.round.unwrap() as nat),
    {
        db_path_of(self.year.unwrap(), self.round.unwrap())
    }
}

impl Default for Options {
    /// Nothing chosen.
    fn default() -> (r: Options)
        ensures
            r.year.is_none(),
            r.round.is_none(),
    {
        Options { year: None, round: None }
    }
}

/// A builder for a choice of dataset, which refuses a year or round that
/// has no data.
#[derive(Clone, Copy, Debug, PartialEq, Eq, Structural)]
pub struct DatasetOptions {
    pub year: Option<u16>,
    pub round: Option<u8>,
}

impl DatasetOptions {
    pub fn with_year(self, year: u16) -> (r: Self)
        requires
            is_valid_year(year as int),
        ensures
            r.year == Some(year),
            r.round == self.round,
    {
        DatasetOptions { year: Some(year), round: self.round }
    }

    pub fn with_round(self, round: u8) -> (r: Self)
        requires
            self.year.is_some(),
            is_valid_round(self.year.unwrap() as int, round as int),
        ensures
            r.year == self.year,
            r.round == Some(round),
    {
        DatasetOptions { year: self.year, round: Some(round) }
    }

    /// The path of the chosen dataset.
    pub fn get_db_path(&self) -> (r: String)
        requires
            self.year.is_some(),
            self.round.is_some(),
        ensures
            r@ == db_path(self.year.unwrap() as nat, self.round.unwrap() as nat),
    {
        db_path_of(self.year.unwrap(), self.round.unwrap())
    }
}

impl Default for DatasetOptions {
    /// Nothing chosen.
    fn default() -> (r: DatasetOptions)
        ensures
            r.year.is_none(),
            r.round.is_none(),
    {
        DatasetOptions { year: None, round: None }
    }
}

} // verus!
