//! The static records of the monster catalogue, and the tables of names
//! that are read from JSON text.

use std::collections::HashMap;
use vstd::prelude::*;
use vstd::string::StrSliceExecFns;

verus! {

/// When a monster can be met in one area: for each season, the flags of that season.
#[derive(Clone, Debug, PartialEq)]
pub struct AreaCondition {
    pub conditions: HashMap<usize, Vec<bool>>,
}

/// One slot of a recipe: a concrete monster, or any monster of a family.
#[derive(Clone, Copy, Debug, PartialEq, Eq, Structural)]
pub struct Parent {
    pub monster: Option<usize>,
    pub family: Option<usize>,
}

/// The record of one monster.
#[derive(Clone, Debug, PartialEq)]
pub struct Monster {
    pub name: String,
    pub rank: usize,
    pub family: usize,
    pub parents: Vec<Vec<Parent>>,
    pub habitats: HashMap<usize, AreaCondition>,
}

/// A text in the two languages of the interface.
#[derive(Clone, Debug, PartialEq)]
pub struct LangText {
    pub ja: String,
    pub en: String,
}

impl Parent {
    /// Exactly one of the two fields is set.
    pub open spec fn well_formed(self) -> bool {
        self.monster.is_some() != self.family.is_some()
    }
}

/// Why a text is no table of names.
#[derive(Clone, Copy, Debug, PartialEq, Eq, Structural)]
pub enum DataError {
    /// The text is no JSON object.
    NotAnObject,
    /// The key of the entry with this index is no number.
    BadKey(usize),
    /// The value of the entry with this index is no string.
    BadValue(usize),
}

/// The error of `serde_json`, carried from the parser to where it is mapped
/// to a `DataError`; nothing is said of what it holds.
#[verifier::external_type_specification]
#[verifier::external_body]
pub struct ExJsonError(serde_json::Error);

/// The entries of the JSON object that a text holds, in the order in which
/// the parser hands them out: each key, and the value where it is a string.
/// None where the text is no JSON object.
pub uninterp spec fn json_object_entries(text: Seq<char>) -> Option<
    Seq<(Seq<char>, Option<Seq<char>>)>,
>;

/// The entries of a vector, each text by its characters.
pub open spec fn entries_view(entries: Seq<(String, Option<String>)>) -> Seq<
    (Seq<char>, Option<Seq<char>>),
> {
    Seq::new(
        entries.len(),
        |i: int|
            (
                entries[i].0@,
                match entries[i].1 {
                    Some(value) => Some(value@),
                    None => None,
                },
            ),
    )
}

/// Calls `serde_json::from_str` for a `serde_json::Map<String, Value>`. The
/// contract claims that the call succeeds exactly on the texts that hold a
/// JSON object, and that the entries handed out are a function of the text
/// alone; what they are is left to the parser.
#[verifier::external_body]
fn read_json_object(text: &str) -> (r: Result<Vec<(String, Option<String>)>, serde_json::Error>)
    ensures
        match r {
            Ok(entries) => json_object_entries(text@) == Some(entries_view(entries@)),
            Err(_) => json_object_entries(text@).is_none(),
        },
{
    let object = serde_json::from_str::<serde_json::Map<String, serde_json::Value>>(text)?;
    Ok(
        object.into_iter().map(
            |(key, value)|
                match value {
                    serde_json::Value::String(s) => (key, Some(s)),
                    serde_json::Value::Null => (key, None),
                    serde_json::Value::Bool(_) => (key, None),
                    serde_json::Value::Number(_) => (key, None),
                    serde_json::Value::Array(_) => (key, None),
                    serde_json::Value::Object(_) => (key, None),
                },
        ).collect(),
    )
}

/// The number that a sequence of decimal digits writes.
pub open spec fn digits_value(digits: Seq<char>) -> nat
    decreases digits.len(),
{
    if digits.len() == 0 {
        0
    } else {
        (digits_value(digits.drop_last()) * 10 + (digits.last() as int - '0' as int)) as nat
    }
}

/// Every character is one of the digits `0` to `9`.
pub open spec fn is_digits(digits: Seq<char>) -> bool {
    forall|i: int| 0 <= i < digits.len() ==> '0' <= (#[trigger] digits[i]) && digits[i] <= '9'
}

/// The number that one or more decimal digits write, where a `usize` holds
/// it. None of any other text.
pub open spec fn number_of_digits(digits: Seq<char>) -> Option<usize> {
    if digits.len() > 0 && is_digits(digits) && digits_value(digits) <= usize::MAX {
        Some(digits_value(digits) as usize)
    } else {
        None
    }
}

/// The number that a text writes: an optional `+`, then one or more of the
/// digits `0` to `9`, with a value that a `usize` holds. None of any other text.
pub open spec fn usize_of_text(text: Seq<char>) -> Option<usize> {
    if text.len() > 0 && text[0] == '+' {
        number_of_digits(text.drop_first())
    } else {
        number_of_digits(text)
    }
}

/// The value of a decimal digit; none of any other character.
pub fn digit_of(c: char) -> (digit: Option<usize>)
    ensures
        match digit {
            Some(value) => '0' <= c && c <= '9' && value == c as int - '0' as int,
            None => !('0' <= c && c <= '9'),
        },
{
    match c {
        '0' => Some(0),
        '1' => Some(1),
        '2' => Some(2),
        '3' => Some(3),
        '4' => Some(4),
        '5' => Some(5),
        '6' => Some(6),
        '7' => Some(7),
        '8' => Some(8),
        '9' => Some(9),
        _ => None,
    }
}

/// Among decimal digits, a longer beginning writes no smaller number.
proof fn lemma_digits_value_grows(digits: Seq<char>, k: int)
    requires
        0 <= k <= digits.len(),
        is_digits(digits),
    ensures
        digits_value(digits.take(k)) <= digits_value(digits),
    decreases digits.len() - k,
{
    if k < digits.len() {
        lemma_digits_value_grows(digits, k + 1);
        assert(digits.take(k + 1).drop_last() =~= digits.take(k));
        assert(digits.take(k + 1).last() == digits[k]);
    } else {
        assert(digits.take(k) =~= digits);
    }
}

/// Reads a number as `str::parse` does for a `usize`: an optional `+`, then
/// decimal digits only, at least one, with a value that a `usize` holds.
pub fn parse_usize(text: &str) -> (r: Option<usize>)
    ensures
        r == usize_of_text(text@),
{
    let n = text.unicode_len();
    let start: usize = if n > 0 && text.get_char(0) == '+' {
        1
    } else {
        0
    };
    let ghost digits = if start == 1 {
        text@.drop_first()
    } else {
        text@
    };
    if start == n {
        return None;
    }
    let mut i: usize = start;
    let mut value: usize = 0;
    while i < n
        invariant
            n == text@.len(),
            start <= i <= n,
            start <= 1,
            digits.len() == n - start,
            forall|k: int| 0 <= k < digits.len() ==> digits[k] == text@[k + start],
            usize_of_text(text@) == number_of_digits(digits),
            is_digits(digits.take(i - start)),
            value == digits_value(digits.take(i - start)),
        decreases n - i,
    {
        let c = text.get_char(i);
        proof {
            assert(digits[i - start] == c);
            assert(digits.take(i - start + 1).drop_last() =~= digits.take(i - start));
            assert(digits.take(i - start + 1).last() == c);
            if is_digits(digits) {
                lemma_digits_value_grows(digits, i - start + 1);
            }
        }
        let digit = match digit_of(c) {
            Some(digit) => digit,
            None => { return None; },
        };
        proof {
            assert forall|k: int| 0 <= k < i - start + 1 implies '0' <= (#[trigger] digits.take(
                i - start + 1,
            )[k]) && digits.take(i - start + 1)[k] <= '9' by {
                if k < i - start {
                    assert(digits.take(i - start)[k] == digits[k]);
                }
            }
        }
        let tens = match value.checked_mul(10) {
            Some(tens) => tens,
            None => { return None; },
        };
        value = match tens.checked_add(digit) {
            Some(sum) => sum,
            None => { return None; },
        };
        i = i + 1;
    }
    proof {
        assert(digits.take(n - start) =~= digits);
    }
    Some(value)
}

/// The table that a sequence of entries gives: each key read as a number, a
/// later entry replacing an earlier one under the same number. The first
/// entry whose key is no number, or else whose value is no string, is the fault.
pub open spec fn table_of_entries(entries: Seq<(Seq<char>, Option<Seq<char>>)>) -> Result<
    Map<usize, Seq<char>>,
    DataError,
>
    decreases entries.len(),
{
    if entries.len() == 0 {
        Ok(Map::empty())
    } else {
        match table_of_entries(entries.drop_last()) {
            Err(e) => Err(e),
            Ok(table) => {
                let index = (entries.len() - 1) as usize;
                match (usize_of_text(entries.last().0), entries.last().1) {
                    (None, _) => Err(DataError::BadKey(index)),
                    (Some(_), None) => Err(DataError::BadValue(index)),
                    (Some(key), Some(value)) => Ok(table.insert(key, value)),
                }
            },
        }
    }
}

/// The table that a JSON text gives.
pub open spec fn table_of_text(text: Seq<char>) -> Result<Map<usize, Seq<char>>, DataError> {
    match json_object_entries(text) {
        None => Err(DataError::NotAnObject),
        Some(entries) => table_of_entries(entries),
    }
}

/// A table, each name by its characters.
pub open spec fn table_view(table: Map<usize, String>) -> Map<usize, Seq<char>> {
    Map::new(|key: usize| table.contains_key(key), |key: usize| table[key]@)
}

/// A table or a fault, each name by its characters.
pub open spec fn table_result_view(r: Result<HashMap<usize, String>, DataError>) -> Result<
    Map<usize, Seq<char>>,
    DataError,
> {
    match r {
        Ok(table) => Ok(table_view(table@)),
        Err(e) => Err(e),
    }
}

/// Collects the entries of a JSON object into a table from numbers to names.
pub fn collect_usize_string_entries(entries: &Vec<(String, Option<String>)>) -> (r: Result<
    HashMap<usize, String>,
    DataError,
>)
    ensures
        table_result_view(r) == table_of_entries(entries_view(entries@)),
{
    let ghost all = entries_view(entries@);
    let mut data: HashMap<usize, String> = HashMap::new();
    let mut i: usize = 0;
    proof {
        assert(table_view(data@) =~= Map::<usize, Seq<char>>::empty());
        assert(all.take(0) =~= Seq::empty());
    }
    while i < entries.len()
        invariant
            all == entries_view(entries@),
            i <= entries@.len(),
            table_of_entries(all.take(i as int)) == Ok::<_, DataError>(table_view(data@)),
        decreases entries.len() - i,
    {
        proof {
            assert(all.take(i + 1).drop_last() =~= all.take(i as int));
            assert(all.take(i + 1).last() == all[i as int]);
            lemma_fault_stays(all, i + 1);
        }
        let num_key = match parse_usize(entries[i].0.as_str()) {
            Some(key) => key,
            None => { return Err(DataError::BadKey(i)); },
        };
        let value = match &entries[i].1 {
            Some(value) => value.clone(),
            None => { return Err(DataError::BadValue(i)); },
        };
        let ghost before = table_view(data@);
        data.insert(num_key, value);
        proof {
            assert(table_view(data@) =~= before.insert(num_key, value@));
        }
        i = i + 1;
    }
    proof {
        assert(all.take(i as int) =~= all);
    }
    Ok(data)
}

/// A fault among the first `n` entries is the fault of all of them.
proof fn lemma_fault_stays(entries: Seq<(Seq<char>, Option<Seq<char>>)>, n: int)
    requires
        0 <= n <= entries.len(),
    ensures
        table_of_entries(entries.take(n)).is_err() ==> table_of_entries(entries)
            == table_of_entries(entries.take(n)),
    decreases entries.len() - n,
{
    if n < entries.len() {
        lemma_fault_stays(entries, n + 1);
        assert(entries.take(n + 1).drop_last() =~= entries.take(n));
    } else {
        assert(entries.take(n) =~= entries);
    }
}

/// Reads a JSON object whose keys are numbers and whose values are strings.
pub fn parse_usize_string_json(json_str: &str) -> (r: Result<HashMap<usize, String>, DataError>)
    ensures
        table_result_view(r) == table_of_text(json_str@),
{
    match read_json_object(json_str) {
        Ok(entries) => collect_usize_string_entries(&entries),
        Err(_) => Err(DataError::NotAnObject),
    }
}

/// The names of the areas, from the JSON text of the area table.
pub fn get_area_data(json_str: &str) -> (r: Result<HashMap<usize, String>, DataError>)
    ensures
        table_result_view(r) == table_of_text(json_str@),
{
    parse_usize_string_json(json_str)
}

/// The names of the families, from the JSON text of the family table.
pub fn get_family_data(json_str: &str) -> (r: Result<HashMap<usize, String>, DataError>)
    ensures
        table_result_view(r) == table_of_text(json_str@),
{
    parse_usize_string_json(json_str)
}

/// The names of the ranks, from the JSON text of the rank table.
pub fn get_rank_data(json_str: &str) -> (r: Result<HashMap<usize, String>, DataError>)
    ensures
        table_result_view(r) == table_of_text(json_str@),
{
    parse_usize_string_json(json_str)
}

/// The names of the seasons, from the JSON text of the season table.
pub fn get_season_data(json_str: &str) -> (r: Result<HashMap<usize, String>, DataError>)
    ensures
        table_result_view(r) == table_of_text(json_str@),
{
    parse_usize_string_json(json_str)
}

/// The entries of a vector of records, each key by its characters.
pub open spec fn records_view(entries: Seq<(String, Monster)>) -> Seq<(Seq<char>, Monster)> {
    Seq::new(entries.len(), |i: int| (entries[i].0@, entries[i].1))
}

/// The catalogue that a sequence of records with their keys gives: each key
/// read as a number, a later record replacing an earlier one under the same
/// number. The first record whose key is no number is the fault.
pub open spec fn catalog_of_entries(entries: Seq<(Seq<char>, Monster)>) -> Result<
    Map<usize, Monster>,
    DataError,
>
    decreases entries.len(),
{
    if entries.len() == 0 {
        Ok(Map::empty())
    } else {
        match catalog_of_entries(entries.drop_last()) {
            Err(e) => Err(e),
            Ok(catalog) => match usize_of_text(entries.last().0) {
                None => Err(DataError::BadKey((entries.len() - 1) as usize)),
                Some(key) => Ok(catalog.insert(key, entries.last().1)),
            },
        }
    }
}

/// A catalogue or a fault, the catalogue as a map.
pub open spec fn catalog_result_view(r: Result<HashMap<usize, Monster>, DataError>) -> Result<
    Map<usize, Monster>,
    DataError,
> {
    match r {
        Ok(catalog) => Ok(catalog@),
        Err(e) => Err(e),
    }
}

/// A fault among the first `n` records is the fault of all of them.
proof fn lemma_catalog_fault_stays(entries: Seq<(Seq<char>, Monster)>, n: int)
    requires
        0 <= n <= entries.len(),
    ensures
        catalog_of_entries(entries.take(n)).is_err() ==> catalog_of_entries(entries)
            == catalog_of_entries(entries.take(n)),
    decreases entries.len() - n,
{
    if n < entries.len() {
        lemma_catalog_fault_stays(entries, n + 1);
        assert(entries.take(n + 1).drop_last() =~= entries.take(n));
    } else {
        assert(entries.take(n) =~= entries);
    }
}

/// The catalogue of monsters, from the records of the monster table with
/// their keys as the table writes them.
pub fn get_monster_data(entries: Vec<(String, Monster)>) -> (r: Result<
    HashMap<usize, Monster>,
    DataError,
>)
    ensures
        catalog_result_view(r) == catalog_of_entries(records_view(entries@)),
{
    let ghost all = records_view(entries@);
    let mut rest = entries;
    let mut data: HashMap<usize, Monster> = HashMap::new();
    let mut done: usize = 0;
    let total = rest.len();
    proof {
        assert(all.take(0) =~= Seq::empty());
    }
    while rest.len() > 0
        invariant
            all == records_view(entries@),
            all.len() == total,
            done + rest@.len() == all.len(),
            records_view(rest@) == all.skip(done as int),
            catalog_of_entries(all.take(done as int)) == Ok::<_, DataError>(data@),
        decreases rest@.len(),
    {
        let ghost before = records_view(rest@);
        let ghost held = rest@;
        let (key, monster) = rest.remove(0);
        proof {
            assert(before[0] == all[done as int]);
            assert(before[0] == (held[0].0@, held[0].1));
            assert forall|i: int| 0 <= i < rest@.len() implies (#[trigger] records_view(
                rest@,
            )[i]) == all.skip(done + 1)[i] by {
                assert(rest@[i] == held[i + 1]);
                assert(before[i + 1] == all[done + i + 1]);
            }
            assert(records_view(rest@) =~= all.skip(done + 1));
            assert(all.take(done + 1).drop_last() =~= all.take(done as int));
            assert(all.take(done + 1).last() == all[done as int]);
            lemma_catalog_fault_stays(all, done + 1);
        }
        let num_key = match parse_usize(key.as_str()) {
            Some(num_key) => num_key,
            None => { return Err(DataError::BadKey(done)); },
        };
        data.insert(num_key, monster);
        done = done + 1;
    }
    proof {
        assert(all.take(done as int) =~= all);
    }
    Ok(data)
}

} // verus!
