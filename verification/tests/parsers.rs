use hayday_planner::domain::GoodId;
use hayday_planner::parsers::{count, good_id, need, needs, source_id, time, ParseError, TimeUnit};

use nom::branch::alt;
use nom::bytes::complete::{tag, take_while, take_while1};
use nom::character::complete::multispace0;
use nom::error::{Error, ErrorKind};
use nom::multi::{many0, separated_list1};
use nom::sequence::{delimited, preceded, terminated};
use nom::{IResult, Parser};

// The recipe grammar written with nom's combinators, to compare the library against.

fn nom_ws(input: &str) -> IResult<&str, &str> {
    take_while(|c: char| c.is_whitespace())(input)
}

fn nom_count(input: &str) -> IResult<&str, u64> {
    delimited(tag("("), nom::character::complete::u64, tag(")")).parse(input)
}

fn nom_name(input: &str) -> IResult<&str, String> {
    let (input, name) = take_while1(|c: char| c != '(').parse(input)?;
    Ok((input, name.trim_matches(|c: char| c.is_whitespace()).to_string()))
}

fn nom_need(input: &str) -> IResult<&str, (String, u64)> {
    let (input, _) = nom_ws(input)?;
    let (input, name) = nom_name(input)?;
    let (input, _) = nom_ws(input)?;
    let (input, quantity) = nom_count(input)?;
    Ok((input, (name, quantity)))
}

fn nom_needs(input: &str) -> IResult<&str, Vec<(String, u64)>> {
    let (input, _) = multispace0(input)?;
    many0(nom_need).parse(input)
}

fn nom_unit<'a, F>(input: &'a str, kind: F) -> IResult<&'a str, u64>
where
    F: Parser<&'a str, Output = &'a str, Error = Error<&'a str>>,
{
    terminated(nom::character::complete::u64, preceded(multispace0, kind)).parse(input)
}

fn nom_seconds(input: &str) -> IResult<&str, TimeUnit> {
    let (r, t) = nom_unit(input, alt((tag("seconds"), tag("s"))))?;
    Ok((r, TimeUnit::Seconds(t)))
}

fn nom_minutes(input: &str) -> IResult<&str, TimeUnit> {
    let (r, t) = nom_unit(input, alt((tag("minutes"), tag("min"))))?;
    Ok((r, TimeUnit::Minutes(t)))
}

fn nom_hours(input: &str) -> IResult<&str, TimeUnit> {
    let (r, t) = nom_unit(input, alt((tag("hours"), tag("h"))))?;
    Ok((r, TimeUnit::Hours(t)))
}

fn nom_days(input: &str) -> IResult<&str, TimeUnit> {
    let (r, t) = nom_unit(input, alt((tag("days"), tag("d"))))?;
    Ok((r, TimeUnit::Days(t)))
}

fn nom_time(input: &str) -> IResult<&str, Vec<TimeUnit>> {
    separated_list1(multispace0, alt((nom_seconds, nom_minutes, nom_hours, nom_days))).parse(input)
}

fn kind_of(e: nom::Err<Error<&str>>) -> ParseError {
    match e {
        nom::Err::Error(e) | nom::Err::Failure(e) => match e.code {
            ErrorKind::Tag => ParseError::Tag,
            ErrorKind::Digit => ParseError::Digit,
            ErrorKind::TakeWhile1 => ParseError::TakeWhile1,
            ErrorKind::SeparatedList => ParseError::SeparatedList,
            ErrorKind::Many0 => ParseError::Many0,
            other => panic!("unexpected error kind {:?}", other),
        },
        nom::Err::Incomplete(_) => panic!("complete parsers never ask for more input"),
    }
}

const SAMPLES: &[&str] = &[
    "",
    " ",
    "(",
    ")",
    "()",
    "(0)",
    "(7)",
    "(12) rest",
    "(18446744073709551615)",
    "(18446744073709551616)",
    "(+3)",
    "( 3)",
    "(3 )",
    "(3",
    "12)",
    "Wheat",
    "Wheat (3)",
    "  Wheat  (3)",
    "Wheat(3)Corn(2)",
    "Wheat (3) Sugarcane (1)",
    "\u{a0}Brown sugar\u{2003}(2)\u{3000}Milk (1)",
    "Bread (1) ",
    " \t\nWheat (2)\r\nCorn (1) tail",
    "Wheat (x)",
    "Wheat ()",
    "Wheat (3) Corn",
    "(2) Wheat",
    "   ",
    "Cream (1) Butter (99999999999999999999)",
    "5 min",
    "5min",
    "5 minutes",
    "1 h 30 min",
    "1h30min",
    "2 d 3 h",
    "2 days 3 hours",
    "45 s",
    "45 seconds",
    "10 sec",
    "3 hours, 2 min",
    "1 h  ",
    "1 h 2",
    "h",
    "12",
    "18446744073709551616 s",
    "7 d 7 d",
    "1 m",
    "30 min extra",
];

#[test]
fn count_agrees_with_nom() {
    for s in SAMPLES {
        let ours = count(s);
        let theirs = nom_count(s).map_err(kind_of);
        assert_eq!(ours, theirs, "input {:?}", s);
    }
}

#[test]
fn good_id_agrees_with_nom() {
    for s in SAMPLES {
        let ours = good_id(s).map(|(r, g)| (r, g.0));
        let theirs = nom_name(s).map_err(kind_of);
        assert_eq!(ours, theirs, "input {:?}", s);
    }
}

#[test]
fn source_id_agrees_with_nom() {
    for s in SAMPLES {
        let ours = source_id(s).map(|(r, g)| (r, g.0));
        let theirs = nom_name(s).map_err(kind_of);
        assert_eq!(ours, theirs, "input {:?}", s);
    }
}

#[test]
fn need_agrees_with_nom() {
    for s in SAMPLES {
        let ours = need(s).map(|(r, (g, n))| (r, (g.0, n)));
        let theirs = nom_need(s).map_err(kind_of);
        assert_eq!(ours, theirs, "input {:?}", s);
    }
}

#[test]
fn needs_agrees_with_nom() {
    for s in SAMPLES {
        let ours = needs(s).map(|(r, v)| (r, v.into_iter().map(|(g, n)| (g.0, n)).collect::<Vec<_>>()));
        let theirs = nom_needs(s).map_err(kind_of);
        assert_eq!(ours, theirs, "input {:?}", s);
    }
}

#[test]
fn time_agrees_with_nom() {
    for s in SAMPLES {
        let ours = time(s);
        let theirs = nom_time(s).map_err(kind_of);
        assert_eq!(ours, theirs, "input {:?}", s);
    }
}

#[test]
fn needs_never_fails() {
    for s in SAMPLES {
        assert!(needs(s).is_ok(), "input {:?}", s);
    }
}

#[test]
fn count_reads_back_a_written_number() {
    for n in [0u64, 1, 9, 10, 42, 1000, u64::MAX] {
        let text = format!("({}) and more", n);
        assert_eq!(count(&text), Ok((" and more", n)));
    }
}

#[test]
fn count_reads_a_bracketed_number() {
    assert_eq!(count("(12) rest"), Ok((" rest", 12)));
}

#[test]
fn count_rejects_missing_bracket() {
    assert_eq!(count("12)"), Err(ParseError::Tag));
    assert_eq!(count("(12"), Err(ParseError::Tag));
}

#[test]
fn count_rejects_overflow_and_missing_digits() {
    assert_eq!(count("(18446744073709551616)"), Err(ParseError::Digit));
    assert_eq!(count("()"), Err(ParseError::Digit));
}

#[test]
fn good_id_trims_the_name() {
    let (rest, id) = good_id("  Wheat  (3)").unwrap();
    assert_eq!(rest, "(3)");
    assert_eq!(id.0, "Wheat");
}

#[test]
fn good_id_rejects_a_bracket_first() {
    assert_eq!(good_id("(3)"), Err(ParseError::TakeWhile1));
    assert_eq!(good_id(""), Err(ParseError::TakeWhile1));
}

#[test]
fn source_id_without_bracket_takes_everything() {
    let (rest, id) = source_id("Bakery").unwrap();
    assert_eq!(rest, "");
    assert_eq!(id.0, "Bakery");
}

#[test]
fn need_reads_name_and_amount() {
    let (rest, (g, n)) = need(" Corn (2)Wheat (1)").unwrap();
    assert_eq!(rest, "Wheat (1)");
    assert_eq!(g, GoodId("Corn".to_string()));
    assert_eq!(n, 2);
}

#[test]
fn needs_reads_a_list() {
    let (rest, v) = needs("Wheat (3) Sugarcane (1)").unwrap();
    assert_eq!(rest, "");
    assert_eq!(v.len(), 2);
    assert_eq!(v[0].0 .0, "Wheat");
    assert_eq!(v[0].1, 3);
    assert_eq!(v[1].0 .0, "Sugarcane");
    assert_eq!(v[1].1, 1);
}

#[test]
fn needs_stops_at_text_that_is_no_ingredient() {
    let (rest, v) = needs("Wheat (3) Corn").unwrap();
    assert_eq!(rest, " Corn");
    assert_eq!(v.len(), 1);
}

#[test]
fn time_reads_units() {
    let (rest, v) = time("1 h 30 min").unwrap();
    assert_eq!(rest, "");
    assert_eq!(v, vec![TimeUnit::Hours(1), TimeUnit::Minutes(30)]);
}

#[test]
fn time_prefers_the_long_unit_names() {
    let (rest, v) = time("2 days 3 hours 4 minutes 5 seconds").unwrap();
    assert_eq!(rest, "");
    assert_eq!(
        v,
        vec![TimeUnit::Days(2), TimeUnit::Hours(3), TimeUnit::Minutes(4), TimeUnit::Seconds(5)]
    );
}

#[test]
fn time_rejects_text_without_a_unit() {
    assert_eq!(time("h"), Err(ParseError::Digit));
    assert_eq!(time("12"), Err(ParseError::Tag));
}
