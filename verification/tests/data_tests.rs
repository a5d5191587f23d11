use monster_recipe::data::{
    collect_usize_string_entries, digit_of, get_area_data, get_family_data, get_monster_data,
    get_rank_data, get_season_data, parse_usize, parse_usize_string_json, DataError, Monster,
    Parent,
};
use std::collections::HashMap;

fn table(pairs: &[(usize, &str)]) -> HashMap<usize, String> {
    pairs.iter().map(|(k, v)| (*k, v.to_string())).collect()
}

#[test]
fn parse_reads_numbers_and_names() {
    let text = "{\"0\": \"plain\", \"12\": \"cave\", \"3\": \"sea\"}";
    assert_eq!(
        parse_usize_string_json(text),
        Ok(table(&[(0, "plain"), (12, "cave"), (3, "sea")]))
    );
    assert_eq!(parse_usize_string_json("{}"), Ok(HashMap::new()));
}

#[test]
fn parse_accepts_plus_sign_and_leading_zeros() {
    assert_eq!(parse_usize_string_json("{\"+7\": \"a\"}"), Ok(table(&[(7, "a")])));
    assert_eq!(parse_usize_string_json("{\"007\": \"a\"}"), Ok(table(&[(7, "a")])));
}

#[test]
fn parse_rejects_what_is_no_object() {
    assert_eq!(parse_usize_string_json("[1, 2]"), Err(DataError::NotAnObject));
    assert_eq!(parse_usize_string_json("null"), Err(DataError::NotAnObject));
    assert_eq!(parse_usize_string_json("{\"1\": \"a\""), Err(DataError::NotAnObject));
    assert_eq!(parse_usize_string_json(""), Err(DataError::NotAnObject));
}

#[test]
fn parse_rejects_bad_key() {
    assert_eq!(parse_usize_string_json("{\"x\": \"a\"}"), Err(DataError::BadKey(0)));
    assert_eq!(parse_usize_string_json("{\"-1\": \"a\"}"), Err(DataError::BadKey(0)));
    assert_eq!(parse_usize_string_json("{\"\": \"a\"}"), Err(DataError::BadKey(0)));
    assert_eq!(parse_usize_string_json("{\"+\": \"a\"}"), Err(DataError::BadKey(0)));
    assert_eq!(parse_usize_string_json("{\" 1\": \"a\"}"), Err(DataError::BadKey(0)));
    assert_eq!(
        parse_usize_string_json("{\"99999999999999999999999999999\": \"a\"}"),
        Err(DataError::BadKey(0))
    );
}

#[test]
fn parse_rejects_bad_value() {
    assert_eq!(parse_usize_string_json("{\"1\": 5}"), Err(DataError::BadValue(0)));
    assert_eq!(parse_usize_string_json("{\"1\": null}"), Err(DataError::BadValue(0)));
}

#[test]
fn collect_reports_first_fault_and_lets_later_entries_win() {
    let entries = vec![
        ("1".to_string(), Some("a".to_string())),
        ("+1".to_string(), Some("b".to_string())),
        ("2".to_string(), Some("c".to_string())),
    ];
    assert_eq!(collect_usize_string_entries(&entries), Ok(table(&[(1, "b"), (2, "c")])));

    let faulty = vec![
        ("1".to_string(), Some("a".to_string())),
        ("2".to_string(), None),
        ("x".to_string(), Some("c".to_string())),
    ];
    assert_eq!(collect_usize_string_entries(&faulty), Err(DataError::BadValue(1)));

    let both = vec![("1".to_string(), Some("a".to_string())), ("y".to_string(), None)];
    assert_eq!(collect_usize_string_entries(&both), Err(DataError::BadKey(1)));
    assert_eq!(collect_usize_string_entries(&vec![]), Ok(HashMap::new()));
}

#[test]
fn tables_are_read_alike() {
    let text = "{\"1\": \"one\", \"2\": \"two\"}";
    let expected = table(&[(1, "one"), (2, "two")]);
    assert_eq!(get_area_data(text), Ok(expected.clone()));
    assert_eq!(get_family_data(text), Ok(expected.clone()));
    assert_eq!(get_rank_data(text), Ok(expected.clone()));
    assert_eq!(get_season_data(text), Ok(expected));
    assert_eq!(get_area_data("7"), Err(DataError::NotAnObject));
}

fn record(name: &str, rank: usize) -> Monster {
    Monster {
        name: name.to_string(),
        rank,
        family: 1,
        parents: vec![vec![Parent { monster: Some(2), family: None }]],
        habitats: HashMap::new(),
    }
}

#[test]
fn monster_data_is_keyed_by_number() {
    let entries = vec![
        ("10".to_string(), record("slime", 1)),
        ("2".to_string(), record("dracky", 2)),
        ("+10".to_string(), record("golem", 5)),
    ];
    let catalog = get_monster_data(entries).unwrap();
    assert_eq!(catalog.len(), 2);
    assert_eq!(catalog[&2], record("dracky", 2));
    assert_eq!(catalog[&10], record("golem", 5));
    assert_eq!(get_monster_data(vec![]), Ok(HashMap::new()));
}

#[test]
fn monster_data_rejects_first_bad_key() {
    let entries = vec![
        ("1".to_string(), record("slime", 1)),
        ("two".to_string(), record("dracky", 2)),
        ("".to_string(), record("golem", 5)),
    ];
    assert_eq!(get_monster_data(entries), Err(DataError::BadKey(1)));
}

#[test]
fn digit_of_knows_the_ten_digits() {
    assert_eq!(digit_of('0'), Some(0));
    assert_eq!(digit_of('7'), Some(7));
    assert_eq!(digit_of('9'), Some(9));
    assert_eq!(digit_of('/'), None);
    assert_eq!(digit_of(':'), None);
    assert_eq!(digit_of('a'), None);
    assert_eq!(digit_of('+'), None);
}

#[test]
fn parse_usize_reads_decimal_numbers() {
    assert_eq!(parse_usize("0"), Some(0));
    assert_eq!(parse_usize("42"), Some(42));
    assert_eq!(parse_usize("+42"), Some(42));
    assert_eq!(parse_usize("0042"), Some(42));
    assert_eq!(parse_usize("1234567890"), Some(1234567890));
    assert_eq!(parse_usize(&usize::MAX.to_string()), Some(usize::MAX));
}

#[test]
fn parse_usize_rejects_everything_else() {
    assert_eq!(parse_usize(""), None);
    assert_eq!(parse_usize("+"), None);
    assert_eq!(parse_usize("-1"), None);
    assert_eq!(parse_usize("++1"), None);
    assert_eq!(parse_usize("1+"), None);
    assert_eq!(parse_usize(" 1"), None);
    assert_eq!(parse_usize("1 "), None);
    assert_eq!(parse_usize("1_000"), None);
    assert_eq!(parse_usize("12a"), None);
    assert_eq!(parse_usize("0x10"), None);
    let mut beyond = usize::MAX.to_string();
    beyond.push('0');
    assert_eq!(parse_usize(&beyond), None);
    let last = usize::MAX.to_string();
    let mut next: Vec<char> = last.chars().collect();
    let end = next.len() - 1;
    next[end] = '6';
    assert_eq!(parse_usize(&next.into_iter().collect::<String>()), None);
}

#[test]
fn parse_usize_agrees_with_the_standard_library() {
    for text in ["0", "7", "+7", "007", "", "+", "-0", "٣", "18446744073709551615", "18446744073709551616", "9 ", "1e3"] {
        assert_eq!(parse_usize(text), text.parse::<usize>().ok());
    }
}
