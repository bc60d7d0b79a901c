use vstd::prelude::*;

use crate::domain::{GoodId, SourceId};
use crate::text::{
    chars_of, digits_value, is_digit, is_multispace, is_multispace_char, lemma_digits_value_prefix,
    lemma_prefix_len_at_least, lemma_prefix_len_bound, lemma_prefix_len_char, prefix_len, scan_ws,
    trim_bounds, trim_ws, ws_pred, decimal, lemma_decimal, is_ws, lemma_suffix_len_char,
};

verus! {

/// Why a piece of recipe text was rejected.
#[derive(Debug, Clone, Copy, PartialEq, Eq, Structural)]
pub enum ParseError {
    /// An expected literal (a bracket or a time unit) was not found.
    Tag,
    /// No decimal number was found where one was expected, or it does not fit in a `u64`.
    Digit,
    /// A name was expected but the text was empty or began with `(`.
    TakeWhile1,
    /// A list element and its separator consumed nothing.
    SeparatedList,
    /// A repeated element consumed nothing.
    Many0,
}

/// One term of a production time such as "3 h" or "20 min".
#[derive(Debug, Clone, Copy, PartialEq, Eq, Structural)]
pub enum TimeUnit {
    Seconds(u64),
    Minutes(u64),
    Hours(u64),
    Days(u64),
}

// ---------------------------------------------------------------------------
// The grammar, as functions from the input to the remaining input and a value.
// ---------------------------------------------------------------------------

pub open spec fn digit_pred() -> spec_fn(char) -> bool {
    |c: char| is_digit(c)
}

pub open spec fn ms_pred() -> spec_fn(char) -> bool {
    |c: char| is_multispace(c)
}

pub open spec fn name_pred() -> spec_fn(char) -> bool {
    |c: char| c != '('
}

pub open spec fn starts_with(s: Seq<char>, t: Seq<char>) -> bool {
    t.len() <= s.len() && s.take(t.len() as int) == t
}

/// An unsigned decimal number: one or more ASCII digits whose value fits in a `u64`.
pub open spec fn spec_u64(s: Seq<char>) -> Result<(Seq<char>, u64), ParseError> {
    let n = prefix_len(s, digit_pred());
    if n == 0 || digits_value(s.take(n as int)) > u64::MAX {
        Err(ParseError::Digit)
    } else {
        Ok((s.skip(n as int), digits_value(s.take(n as int)) as u64))
    }
}

/// A quantity in brackets: `(` number `)`.
pub open spec fn spec_count(s: Seq<char>) -> Result<(Seq<char>, u64), ParseError> {
    if s.len() > 0 && s[0] == '(' {
        match spec_u64(s.drop_first()) {
            Err(e) => Err(e),
            Ok((r, v)) => if r.len() > 0 && r[0] == ')' {
                Ok((r.drop_first(), v))
            } else {
                Err(ParseError::Tag)
            },
        }
    } else {
        Err(ParseError::Tag)
    }
}

/// A name: the non-empty run of characters before the next `(`, with surrounding
/// whitespace trimmed off the value.
pub open spec fn spec_name(s: Seq<char>) -> Result<(Seq<char>, Seq<char>), ParseError> {
    let n = prefix_len(s, name_pred());
    if n == 0 {
        Err(ParseError::TakeWhile1)
    } else {
        Ok((s.skip(n as int), trim_ws(s.take(n as int))))
    }
}

pub open spec fn skip_ws(s: Seq<char>) -> Seq<char> {
    s.skip(prefix_len(s, ws_pred()) as int)
}

pub open spec fn skip_ms(s: Seq<char>) -> Seq<char> {
    s.skip(prefix_len(s, ms_pred()) as int)
}

/// One ingredient: optional whitespace, a name, optional whitespace, a bracketed quantity.
pub open spec fn spec_need(s: Seq<char>) -> Result<(Seq<char>, (Seq<char>, u64)), ParseError> {
    match spec_name(skip_ws(s)) {
        Err(e) => Err(e),
        Ok((s2, g)) => match spec_count(skip_ws(s2)) {
            Err(e) => Err(e),
            Ok((s4, q)) => Ok((s4, (g, q))),
        },
    }
}

/// Zero or more ingredients, stopping at the first text that is not one.
pub open spec fn spec_many_need(s: Seq<char>) -> Result<
    (Seq<char>, Seq<(Seq<char>, u64)>),
    ParseError,
>
    decreases s.len(),
{
    match spec_need(s) {
        Err(_) => Ok((s, Seq::empty())),
        Ok((r, v)) => if r.len() >= s.len() {
            Err(ParseError::Many0)
        } else {
            match spec_many_need(r) {
                Err(e) => Err(e),
                Ok((r2, vs)) => Ok((r2, seq![v] + vs)),
            }
        },
    }
}

/// An ingredient list: leading spaces, then zero or more ingredients.
pub open spec fn spec_needs(s: Seq<char>) -> Result<(Seq<char>, Seq<(Seq<char>, u64)>), ParseError> {
    spec_many_need(skip_ms(s))
}

pub open spec fn kw_seconds() -> Seq<char> {
    seq!['s', 'e', 'c', 'o', 'n', 'd', 's']
}

pub open spec fn kw_minutes() -> Seq<char> {
    seq!['m', 'i', 'n', 'u', 't', 'e', 's']
}

pub open spec fn kw_min() -> Seq<char> {
    seq!['m', 'i', 'n']
}

pub open spec fn kw_hours() -> Seq<char> {
    seq!['h', 'o', 'u', 'r', 's']
}

pub open spec fn kw_days() -> Seq<char> {
    seq!['d', 'a', 'y', 's']
}

/// A number, optional spaces, then the long or the short spelling of a unit.
pub open spec fn spec_amount_of(s: Seq<char>, long: Seq<char>, short: Seq<char>) -> Result<
    (Seq<char>, u64),
    ParseError,
> {
    match spec_u64(s) {
        Err(e) => Err(e),
        Ok((s1, v)) => {
            let s2 = skip_ms(s1);
            if starts_with(s2, long) {
                Ok((s2.skip(long.len() as int), v))
            } else if starts_with(s2, short) {
                Ok((s2.skip(short.len() as int), v))
            } else {
                Err(ParseError::Tag)
            }
        },
    }
}

/// One time term; the units are tried in the order seconds, minutes, hours, days.
pub open spec fn spec_time_unit(s: Seq<char>) -> Result<(Seq<char>, TimeUnit), ParseError> {
    match spec_amount_of(s, kw_seconds(), seq!['s']) {
        Ok((r, v)) => Ok((r, TimeUnit::Seconds(v))),
        Err(_) => match spec_amount_of(s, kw_minutes(), kw_min()) {
            Ok((r, v)) => Ok((r, TimeUnit::Minutes(v))),
            Err(_) => match spec_amount_of(s, kw_hours(), seq!['h']) {
                Ok((r, v)) => Ok((r, TimeUnit::Hours(v))),
                Err(_) => match spec_amount_of(s, kw_days(), seq!['d']) {
                    Ok((r, v)) => Ok((r, TimeUnit::Days(v))),
                    Err(e) => Err(e),
                },
            },
        },
    }
}

/// Further time terms after the first, each preceded by optional spaces.
pub open spec fn spec_time_more(s: Seq<char>, acc: Seq<TimeUnit>) -> Result<
    (Seq<char>, Seq<TimeUnit>),
    ParseError,
>
    decreases s.len(),
{
    match spec_time_unit(skip_ms(s)) {
        Err(_) => Ok((s, acc)),
        Ok((s2, v)) => if s2.len() >= s.len() {
            Err(ParseError::SeparatedList)
        } else {
            spec_time_more(s2, acc.push(v))
        },
    }
}

/// A production time: one or more time terms separated by optional spaces.
pub open spec fn spec_time(s: Seq<char>) -> Result<(Seq<char>, Seq<TimeUnit>), ParseError> {
    match spec_time_unit(s) {
        Err(e) => Err(e),
        Ok((r, v)) => spec_time_more(r, seq![v]),
    }
}

} // verus!

verus! {

// ---------------------------------------------------------------------------
// Executable parsers over a character buffer, each proved against the grammar.
// ---------------------------------------------------------------------------

fn scan_ms(s: &Vec<char>, from: usize) -> (r: usize)
    requires
        from <= s@.len(),
    ensures
        from <= r <= s@.len(),
        r - from == prefix_len(s@.skip(from as int), ms_pred()),
        skip_ms(s@.skip(from as int)) == s@.skip(r as int),
{
    let mut i = from;
    while i < s.len() && is_multispace_char(s[i])
        invariant
            from <= i <= s@.len(),
            forall|j: int| from <= j < i ==> is_multispace(#[trigger] s@[j]),
        decreases s@.len() - i,
    {
        i = i + 1;
    }
    proof {
        let t = s@.skip(from as int);
        assert forall|j: int| 0 <= j < i - from implies #[trigger] ms_pred()(t[j]) by {
            assert(t[j] == s@[from + j]);
        }
        lemma_prefix_len_char(t, ms_pred(), i - from);
        assert(t.skip(i - from) =~= s@.skip(i as int));
    }
    i
}

fn scan_name(s: &Vec<char>, from: usize) -> (r: usize)
    requires
        from <= s@.len(),
    ensures
        from <= r <= s@.len(),
        r - from == prefix_len(s@.skip(from as int), name_pred()),
{
    let mut i = from;
    while i < s.len() && s[i] != '('
        invariant
            from <= i <= s@.len(),
            forall|j: int| from <= j < i ==> #[trigger] s@[j] != '(',
        decreases s@.len() - i,
    {
        i = i + 1;
    }
    proof {
        let t = s@.skip(from as int);
        assert forall|j: int| 0 <= j < i - from implies #[trigger] name_pred()(t[j]) by {
            assert(t[j] == s@[from + j]);
        }
        lemma_prefix_len_char(t, name_pred(), i - from);
    }
    i
}

fn skip_whitespace(s: &Vec<char>, from: usize) -> (r: usize)
    requires
        from <= s@.len(),
    ensures
        from <= r <= s@.len(),
        skip_ws(s@.skip(from as int)) == s@.skip(r as int),
{
    let r = scan_ws(s, from, s.len());
    proof {
        let t = s@.skip(from as int);
        assert(s@.subrange(from as int, s@.len() as int) =~= t);
        assert(t.skip(r - from) =~= s@.skip(r as int));
    }
    r
}

fn u64_at(s: &Vec<char>, pos: usize) -> (r: Result<(usize, u64), ParseError>)
    requires
        pos <= s@.len(),
    ensures
        match r {
            Ok((p, v)) => pos <= p <= s@.len() && spec_u64(s@.skip(pos as int)) == Ok::<
                (Seq<char>, u64),
                ParseError,
            >((s@.skip(p as int), v)),
            Err(e) => spec_u64(s@.skip(pos as int)) == Err::<(Seq<char>, u64), ParseError>(e),
        },
{
    let ghost t = s@.skip(pos as int);
    let mut i = pos;
    let mut value: u64 = 0;
    while i < s.len() && '0' <= s[i] && s[i] <= '9'
        invariant
            pos <= i <= s@.len(),
            t == s@.skip(pos as int),
            forall|j: int| pos <= j < i ==> is_digit(#[trigger] s@[j]),
            value == digits_value(s@.subrange(pos as int, i as int)),
        decreases s@.len() - i,
    {
        let d = (s[i] as u32 - '0' as u32) as u64;
        let nv: u128 = value as u128 * 10 + d as u128;
        proof {
            assert(s@.subrange(pos as int, i + 1).drop_last() =~= s@.subrange(pos as int, i as int));
        }
        if nv > 0xffff_ffff_ffff_ffffu128 {
            proof {
                let k = i + 1 - pos;
                assert forall|j: int| 0 <= j < k implies #[trigger] digit_pred()(t[j]) by {
                    assert(t[j] == s@[pos + j]);
                }
                lemma_prefix_len_at_least(t, digit_pred(), k);
                lemma_prefix_len_bound(t, digit_pred());
                let n = prefix_len(t, digit_pred());
                assert(t.take(n as int).take(k) =~= s@.subrange(pos as int, i + 1));
                lemma_digits_value_prefix(t.take(n as int), k, n as int);
                assert(t.take(n as int).take(n as int) =~= t.take(n as int));
            }
            return Err(ParseError::Digit);
        }
        value = nv as u64;
        i = i + 1;
    }
    proof {
        assert forall|j: int| 0 <= j < i - pos implies #[trigger] digit_pred()(t[j]) by {
            assert(t[j] == s@[pos + j]);
        }
        if i < s@.len() {
            assert(t[i - pos] == s@[i as int]);
        }
        lemma_prefix_len_char(t, digit_pred(), i - pos);
        assert(t.take(i - pos) =~= s@.subrange(pos as int, i as int));
        assert(t.skip(i - pos) =~= s@.skip(i as int));
    }
    if i == pos {
        return Err(ParseError::Digit);
    }
    Ok((i, value))
}

fn count_at(s: &Vec<char>, pos: usize) -> (r: Result<(usize, u64), ParseError>)
    requires
        pos <= s@.len(),
    ensures
        match r {
            Ok((p, v)) => pos <= p <= s@.len() && spec_count(s@.skip(pos as int)) == Ok::<
                (Seq<char>, u64),
                ParseError,
            >((s@.skip(p as int), v)),
            Err(e) => spec_count(s@.skip(pos as int)) == Err::<(Seq<char>, u64), ParseError>(e),
        },
{
    let ghost t = s@.skip(pos as int);
    if pos < s.len() && s[pos] == '(' {
        assert(t[0] == s@[pos as int]);
        assert(t.drop_first() =~= s@.skip(pos + 1));
        match u64_at(s, pos + 1) {
            Err(e) => Err(e),
            Ok((p, v)) => {
                if p < s.len() && s[p] == ')' {
                    assert(s@.skip(p as int)[0] == s@[p as int]);
                    assert(s@.skip(p as int).drop_first() =~= s@.skip(p + 1));
                    Ok((p + 1, v))
                } else {
                    proof {
                        if p < s@.len() {
                            assert(s@.skip(p as int)[0] == s@[p as int]);
                        }
                    }
                    Err(ParseError::Tag)
                }
            },
        }
    } else {
        proof {
            if pos < s@.len() {
                assert(t[0] == s@[pos as int]);
            }
        }
        Err(ParseError::Tag)
    }
}

/// A name starting at `pos`: its end and its trimmed text.
fn name_at(input: &str, s: &Vec<char>, pos: usize) -> (r: Result<(usize, String), ParseError>)
    requires
        pos <= s@.len(),
        s@ == input@,
    ensures
        match r {
            Ok((p, v)) => pos <= p <= s@.len() && spec_name(s@.skip(pos as int)) == Ok::<
                (Seq<char>, Seq<char>),
                ParseError,
            >((s@.skip(p as int), v@)),
            Err(e) => spec_name(s@.skip(pos as int)) == Err::<(Seq<char>, Seq<char>), ParseError>(
                e,
            ),
        },
{
    let end = scan_name(s, pos);
    if end == pos {
        return Err(ParseError::TakeWhile1);
    }
    let (a, b) = trim_bounds(s, pos, end);
    let text = input.substring_char(a, b).to_owned();
    proof {
        let t = s@.skip(pos as int);
        assert(t.take(end - pos) =~= s@.subrange(pos as int, end as int));
        assert(t.skip(end - pos) =~= s@.skip(end as int));
    }
    Ok((end, text))
}

fn need_at(input: &str, s: &Vec<char>, pos: usize) -> (r: Result<(usize, (GoodId, u64)), ParseError>)
    requires
        pos <= s@.len(),
        s@ == input@,
    ensures
        match r {
            Ok((p, v)) => pos <= p <= s@.len() && spec_need(s@.skip(pos as int)) == Ok::<
                (Seq<char>, (Seq<char>, u64)),
                ParseError,
            >((s@.skip(p as int), (v.0@, v.1))),
            Err(e) => spec_need(s@.skip(pos as int)) == Err::<
                (Seq<char>, (Seq<char>, u64)),
                ParseError,
            >(e),
        },
{
    let p1 = skip_whitespace(s, pos);
    match name_at(input, s, p1) {
        Err(e) => Err(e),
        Ok((p2, name)) => {
            let p3 = skip_whitespace(s, p2);
            match count_at(s, p3) {
                Err(e) => Err(e),
                Ok((p4, q)) => Ok((p4, (GoodId(name), q))),
            }
        },
    }
}

pub open spec fn needs_view(v: Seq<(GoodId, u64)>) -> Seq<(Seq<char>, u64)> {
    v.map_values(|x: (GoodId, u64)| (x.0@, x.1))
}

fn many_need_at(input: &str, s: &Vec<char>, pos: usize) -> (r: Result<
    (usize, Vec<(GoodId, u64)>),
    ParseError,
>)
    requires
        pos <= s@.len(),
        s@ == input@,
    ensures
        match r {
            Ok((p, v)) => pos <= p <= s@.len() && spec_many_need(s@.skip(pos as int)) == Ok::<
                (Seq<char>, Seq<(Seq<char>, u64)>),
                ParseError,
            >((s@.skip(p as int), needs_view(v@))),
            Err(e) => spec_many_need(s@.skip(pos as int)) == Err::<
                (Seq<char>, Seq<(Seq<char>, u64)>),
                ParseError,
            >(e),
        },
{
    let mut cur = pos;
    let mut acc: Vec<(GoodId, u64)> = Vec::new();
    loop
        invariant
            pos <= cur <= s@.len(),
            s@ == input@,
            spec_many_need(s@.skip(pos as int)) == match spec_many_need(s@.skip(cur as int)) {
                Ok((r, vs)) => Ok((r, needs_view(acc@) + vs)),
                Err(e) => Err(e),
            },
        decreases s@.len() - cur,
    {
        match need_at(input, s, cur) {
            Err(_) => {
                assert(needs_view(acc@) + Seq::<(Seq<char>, u64)>::empty() =~= needs_view(acc@));
                return Ok((cur, acc));
            },
            Ok((p, v)) => {
                if p <= cur {
                    return Err(ParseError::Many0);
                }
                let ghost old_acc = acc@;
                acc.push(v);
                proof {
                    assert(needs_view(acc@) =~= needs_view(old_acc).push((v.0@, v.1)));
                    match spec_many_need(s@.skip(p as int)) {
                        Ok((r2, vs)) => {
                            assert(needs_view(old_acc) + (seq![(v.0@, v.1)] + vs) =~= needs_view(
                                acc@,
                            ) + vs);
                        },
                        Err(_) => {},
                    }
                }
                cur = p;
            },
        }
    }
}

fn kw(c: &[char]) -> (r: Vec<char>)
    ensures
        r@ == c@,
{
    let mut r: Vec<char> = Vec::new();
    let mut i: usize = 0;
    while i < c.len()
        invariant
            i <= c@.len(),
            r@ == c@.take(i as int),
        decreases c@.len() - i,
    {
        r.push(c[i]);
        i = i + 1;
        assert(r@ =~= c@.take(i as int));
    }
    assert(c@.take(c@.len() as int) =~= c@);
    r
}

fn starts_with_at(s: &Vec<char>, pos: usize, t: &Vec<char>) -> (r: bool)
    requires
        pos <= s@.len(),
    ensures
        r == starts_with(s@.skip(pos as int), t@),
{
    if t.len() > s.len() - pos {
        return false;
    }
    let mut i: usize = 0;
    while i < t.len()
        invariant
            i <= t@.len(),
            pos + t@.len() <= s.len(),
            forall|j: int| 0 <= j < i ==> s@[pos + j] == t@[j],
        decreases t@.len() - i,
    {
        if s[pos + i] != t[i] {
            assert(s@.skip(pos as int).take(t@.len() as int)[i as int] == s@[pos + i]);
            return false;
        }
        i = i + 1;
    }
    assert(s@.skip(pos as int).take(t@.len() as int) =~= t@);
    true
}

fn amount_at(s: &Vec<char>, pos: usize, long: &Vec<char>, short: &Vec<char>) -> (r: Result<
    (usize, u64),
    ParseError,
>)
    requires
        pos <= s@.len(),
    ensures
        match r {
            Ok((p, v)) => pos <= p <= s@.len() && spec_amount_of(s@.skip(pos as int), long@, short@)
                == Ok::<(Seq<char>, u64), ParseError>((s@.skip(p as int), v)),
            Err(e) => spec_amount_of(s@.skip(pos as int), long@, short@) == Err::<
                (Seq<char>, u64),
                ParseError,
            >(e),
        },
{
    match u64_at(s, pos) {
        Err(e) => Err(e),
        Ok((p1, v)) => {
            let p2 = scan_ms(s, p1);
            let n = s.len();
            if starts_with_at(s, p2, long) {
                assert(s@.skip(p2 as int).len() == n - p2);
                assert(s@.skip(p2 as int).skip(long@.len() as int) =~= s@.skip(p2 + long@.len()));
                Ok((p2 + long.len(), v))
            } else if starts_with_at(s, p2, short) {
                assert(s@.skip(p2 as int).len() == n - p2);
                assert(s@.skip(p2 as int).skip(short@.len() as int) =~= s@.skip(p2 + short@.len()));
                Ok((p2 + short.len(), v))
            } else {
                Err(ParseError::Tag)
            }
        },
    }
}

fn time_unit_at(s: &Vec<char>, pos: usize) -> (r: Result<(usize, TimeUnit), ParseError>)
    requires
        pos <= s@.len(),
    ensures
        match r {
            Ok((p, v)) => pos <= p <= s@.len() && spec_time_unit(s@.skip(pos as int)) == Ok::<
                (Seq<char>, TimeUnit),
                ParseError,
            >((s@.skip(p as int), v)),
            Err(e) => spec_time_unit(s@.skip(pos as int)) == Err::<(Seq<char>, TimeUnit), ParseError>(
                e,
            ),
        },
{
    let seconds = kw(&['s', 'e', 'c', 'o', 'n', 'd', 's']);
    let s_short = kw(&['s']);
    assert(seconds@ =~= kw_seconds());
    assert(s_short@ =~= seq!['s']);
    if let Ok((p, v)) = amount_at(s, pos, &seconds, &s_short) {
        return Ok((p, TimeUnit::Seconds(v)));
    }
    let minutes = kw(&['m', 'i', 'n', 'u', 't', 'e', 's']);
    let min = kw(&['m', 'i', 'n']);
    assert(minutes@ =~= kw_minutes());
    assert(min@ =~= kw_min());
    if let Ok((p, v)) = amount_at(s, pos, &minutes, &min) {
        return Ok((p, TimeUnit::Minutes(v)));
    }
    let hours = kw(&['h', 'o', 'u', 'r', 's']);
    let h = kw(&['h']);
    assert(hours@ =~= kw_hours());
    assert(h@ =~= seq!['h']);
    if let Ok((p, v)) = amount_at(s, pos, &hours, &h) {
        return Ok((p, TimeUnit::Hours(v)));
    }
    let days = kw(&['d', 'a', 'y', 's']);
    let d = kw(&['d']);
    assert(days@ =~= kw_days());
    assert(d@ =~= seq!['d']);
    match amount_at(s, pos, &days, &d) {
        Ok((p, v)) => Ok((p, TimeUnit::Days(v))),
        Err(e) => Err(e),
    }
}

fn time_at(s: &Vec<char>, pos: usize) -> (r: Result<(usize, Vec<TimeUnit>), ParseError>)
    requires
        pos <= s@.len(),
    ensures
        match r {
            Ok((p, v)) => pos <= p <= s@.len() && spec_time(s@.skip(pos as int)) == Ok::<
                (Seq<char>, Seq<TimeUnit>),
                ParseError,
            >((s@.skip(p as int), v@)),
            Err(e) => spec_time(s@.skip(pos as int)) == Err::<(Seq<char>, Seq<TimeUnit>), ParseError>(
                e,
            ),
        },
{
    let (mut cur, first) = match time_unit_at(s, pos) {
        Err(e) => return Err(e),
        Ok(x) => x,
    };
    let mut acc: Vec<TimeUnit> = Vec::new();
    acc.push(first);
    assert(acc@ =~= seq![first]);
    loop
        invariant
            pos <= cur <= s@.len(),
            spec_time(s@.skip(pos as int)) == spec_time_more(s@.skip(cur as int), acc@),
        decreases s@.len() - cur,
    {
        let p1 = scan_ms(s, cur);
        match time_unit_at(s, p1) {
            Err(_) => return Ok((cur, acc)),
            Ok((p2, v)) => {
                if p2 <= cur {
                    return Err(ParseError::SeparatedList);
                }
                acc.push(v);
                cur = p2;
            },
        }
    }
}

// ---------------------------------------------------------------------------
// The public parsers. Each returns the unconsumed rest of its input.
// ---------------------------------------------------------------------------

/// Parses a bracketed quantity such as `(3)`.
pub fn count<'a>(input: &'a str) -> (r: Result<(&'a str, u64), ParseError>)
    ensures
        match r {
            Ok((rest, v)) => spec_count(input@) == Ok::<(Seq<char>, u64), ParseError>((rest@, v)),
            Err(e) => spec_count(input@) == Err::<(Seq<char>, u64), ParseError>(e),
        },
{
    let s = chars_of(input);
    assert(s@.skip(0) =~= s@);
    match count_at(&s, 0) {
        Ok((p, v)) => Ok((input.substring_char(p, s.len()), v)),
        Err(e) => Err(e),
    }
}

/// Parses the name of a good: everything up to the next `(`, trimmed of whitespace.
pub fn good_id<'a>(input: &'a str) -> (r: Result<(&'a str, GoodId), ParseError>)
    ensures
        match r {
            Ok((rest, v)) => spec_name(input@) == Ok::<(Seq<char>, Seq<char>), ParseError>(
                (rest@, v@),
            ),
            Err(e) => spec_name(input@) == Err::<(Seq<char>, Seq<char>), ParseError>(e),
        },
{
    let s = chars_of(input);
    assert(s@.skip(0) =~= s@);
    match name_at(input, &s, 0) {
        Ok((p, v)) => Ok((input.substring_char(p, s.len()), GoodId(v))),
        Err(e) => Err(e),
    }
}

/// Parses the name of a source: everything up to the next `(`, trimmed of whitespace.
pub fn source_id<'a>(input: &'a str) -> (r: Result<(&'a str, SourceId), ParseError>)
    ensures
        match r {
            Ok((rest, v)) => spec_name(input@) == Ok::<(Seq<char>, Seq<char>), ParseError>(
                (rest@, v@),
            ),
            Err(e) => spec_name(input@) == Err::<(Seq<char>, Seq<char>), ParseError>(e),
        },
{
    let s = chars_of(input);
    assert(s@.skip(0) =~= s@);
    match name_at(input, &s, 0) {
        Ok((p, v)) => Ok((input.substring_char(p, s.len()), SourceId(v))),
        Err(e) => Err(e),
    }
}

/// Parses one ingredient such as `Wheat (3)`.
pub fn need<'a>(input: &'a str) -> (r: Result<(&'a str, (GoodId, u64)), ParseError>)
    ensures
        match r {
            Ok((rest, v)) => spec_need(input@) == Ok::<(Seq<char>, (Seq<char>, u64)), ParseError>(
                (rest@, (v.0@, v.1)),
            ),
            Err(e) => spec_need(input@) == Err::<(Seq<char>, (Seq<char>, u64)), ParseError>(e),
        },
{
    let s = chars_of(input);
    assert(s@.skip(0) =~= s@);
    match need_at(input, &s, 0) {
        Ok((p, v)) => Ok((input.substring_char(p, s.len()), v)),
        Err(e) => Err(e),
    }
}

/// Parses a list of ingredients such as `Wheat (3) Egg (1)`.
pub fn needs<'a>(input: &'a str) -> (r: Result<(&'a str, Vec<(GoodId, u64)>), ParseError>)
    ensures
        match r {
            Ok((rest, v)) => spec_needs(input@) == Ok::<
                (Seq<char>, Seq<(Seq<char>, u64)>),
                ParseError,
            >((rest@, needs_view(v@))),
            Err(e) => spec_needs(input@) == Err::<(Seq<char>, Seq<(Seq<char>, u64)>), ParseError>(
                e,
            ),
        },
{
    let s = chars_of(input);
    assert(s@.skip(0) =~= s@);
    let p = scan_ms(&s, 0);
    match many_need_at(input, &s, p) {
        Ok((q, v)) => Ok((input.substring_char(q, s.len()), v)),
        Err(e) => Err(e),
    }
}

/// Parses a production time such as `1 h 30 min`.
pub fn time<'a>(input: &'a str) -> (r: Result<(&'a str, Vec<TimeUnit>), ParseError>)
    ensures
        match r {
            Ok((rest, v)) => spec_time(input@) == Ok::<(Seq<char>, Seq<TimeUnit>), ParseError>(
                (rest@, v@),
            ),
            Err(e) => spec_time(input@) == Err::<(Seq<char>, Seq<TimeUnit>), ParseError>(e),
        },
{
    let s = chars_of(input);
    assert(s@.skip(0) =~= s@);
    match time_at(&s, 0) {
        Ok((p, v)) => Ok((input.substring_char(p, s.len()), v)),
        Err(e) => Err(e),
    }
}


// ---------------------------------------------------------------------------
// Laws of the grammar
// ---------------------------------------------------------------------------

proof fn lemma_need_consumes(s: Seq<char>)
    ensures
        match spec_need(s) {
            Ok((r, _)) => r.len() < s.len(),
            Err(_) => true,
        },
{
    let s1 = skip_ws(s);
    lemma_prefix_len_bound(s, ws_pred());
    match spec_name(s1) {
        Err(_) => {},
        Ok((s2, _)) => {
            lemma_prefix_len_bound(s1, name_pred());
            let s3 = skip_ws(s2);
            lemma_prefix_len_bound(s2, ws_pred());
            match spec_count(s3) {
                Err(_) => {},
                Ok((s4, _)) => {
                    let t = s3.drop_first();
                    lemma_prefix_len_bound(t, digit_pred());
                },
            }
        },
    }
}

proof fn lemma_many_need_ok(s: Seq<char>)
    ensures
        spec_many_need(s) is Ok,
    decreases s.len(),
{
    lemma_need_consumes(s);
    match spec_need(s) {
        Err(_) => {},
        Ok((r, _)) => {
            lemma_many_need_ok(r);
        },
    }
}

/// An ingredient list always reads: it stops at the first text that is not an
/// ingredient, so `needs` never fails.
pub proof fn law_needs_never_fails(s: Seq<char>)
    ensures
        spec_needs(s) is Ok,
{
    lemma_many_need_ok(skip_ms(s));
}

/// A quantity written in brackets reads back: `(n)` followed by any text is `n`, and the
/// text after the closing bracket is what remains.
pub proof fn law_count_reads_decimal(n: u64, rest: Seq<char>)
    ensures
        spec_count(seq!['('] + decimal(n as nat) + seq![')'] + rest) == Ok::<(Seq<char>, u64), ParseError>((rest, n)),
{
    let d = decimal(n as nat);
    lemma_decimal(n as nat);
    let s = seq!['('] + d + seq![')'] + rest;
    let t = s.drop_first();
    assert(t =~= d + seq![')'] + rest);
    assert forall|i: int| 0 <= i < d.len() implies #[trigger] digit_pred()(t[i]) by {
        assert(t[i] == d[i]);
    }
    assert(t[d.len() as int] == ')');
    lemma_prefix_len_char(t, digit_pred(), d.len() as int);
    assert(t.take(d.len() as int) =~= d);
    assert(t.skip(d.len() as int) =~= seq![')'] + rest);
    assert((seq![')'] + rest).drop_first() =~= rest);
}

/// A name that reads back as itself: non-empty, without `(`, and neither beginning nor
/// ending with whitespace (it may hold spaces inside, as "Brown sugar" does).
pub open spec fn plain_name(g: Seq<char>) -> bool {
    &&& g.len() > 0
    &&& forall|i: int| 0 <= i < g.len() ==> #[trigger] g[i] != '('
    &&& !is_ws(g[0])
    &&& !is_ws(g.last())
}

/// How an ingredient is written: its name, a space, and its quantity in brackets.
pub open spec fn ingredient_text(g: Seq<char>, q: u64) -> Seq<char> {
    g + seq![' ', '('] + decimal(q as nat) + seq![')']
}

/// How a list of ingredients is written: one after the other, separated by a space.
pub open spec fn ingredients_text(items: Seq<(Seq<char>, u64)>) -> Seq<char>
    decreases items.len(),
{
    if items.len() == 0 {
        Seq::empty()
    } else if items.len() == 1 {
        ingredient_text(items[0].0, items[0].1)
    } else {
        ingredient_text(items[0].0, items[0].1) + seq![' '] + ingredients_text(items.drop_first())
    }
}

proof fn lemma_space_is_ws()
    ensures
        is_ws(' '),
        !is_ws('('),
        forall|c: char| is_multispace(c) ==> is_ws(c),
{
    assert(' ' as u32 == 0x20);
    assert('(' as u32 == 0x28);
    assert('\t' as u32 == 0x9);
    assert('\n' as u32 == 0xA);
    assert('\r' as u32 == 0xD);
}

/// One written ingredient reads as that ingredient, and the text after it remains.
proof fn lemma_need_reads_ingredient(g: Seq<char>, q: u64, rest: Seq<char>)
    requires
        plain_name(g),
    ensures
        spec_need(ingredient_text(g, q) + rest) == Ok::<(Seq<char>, (Seq<char>, u64)), ParseError>(
            (rest, (g, q)),
        ),
{
    lemma_space_is_ws();
    let d = decimal(q as nat);
    let s = ingredient_text(g, q) + rest;
    let n = g.len() as int;
    assert(s[0] == g[0]);
    lemma_prefix_len_char(s, ws_pred(), 0);
    assert(s.skip(0) =~= s);
    assert(skip_ws(s) == s);
    assert forall|i: int| 0 <= i < n + 1 implies #[trigger] name_pred()(s[i]) by {
        if i < n {
            assert(s[i] == g[i]);
        } else {
            assert(s[i] == ' ');
        }
    }
    assert(s[n + 1] == '(');
    lemma_prefix_len_char(s, name_pred(), n + 1);
    let t = s.take(n + 1);
    assert(t =~= g.push(' '));
    let s2 = s.skip(n + 1);
    assert(s2 =~= seq!['('] + d + seq![')'] + rest);
    assert(t[0] == g[0]);
    lemma_prefix_len_char(t, ws_pred(), 0);
    assert forall|i: int| t.len() - 1 <= i < t.len() implies #[trigger] ws_pred()(t[i]) by {
        assert(t[i] == ' ');
    }
    assert(t[t.len() - 2] == g.last());
    lemma_suffix_len_char(t, ws_pred(), 1);
    assert(trim_ws(t) =~= g);
    assert(spec_name(s) == Ok::<(Seq<char>, Seq<char>), ParseError>((s2, g)));
    assert(s2[0] == '(');
    lemma_prefix_len_char(s2, ws_pred(), 0);
    assert(s2.skip(0) =~= s2);
    law_count_reads_decimal(q, rest);
}

/// A space before an ingredient list changes nothing of what it reads.
proof fn lemma_many_need_after_space(l: Seq<char>)
    requires
        spec_need(l) is Ok,
    ensures
        spec_many_need(seq![' '] + l) == spec_many_need(l),
{
    lemma_space_is_ws();
    let sl = seq![' '] + l;
    assert(sl[0] == ' ');
    assert(sl.drop_first() =~= l);
    assert(prefix_len(sl, ws_pred()) == 1 + prefix_len(l, ws_pred()));
    lemma_prefix_len_bound(l, ws_pred());
    assert(sl.skip(1 + prefix_len(l, ws_pred()) as int) =~= l.skip(prefix_len(l, ws_pred()) as int));
    assert(skip_ws(sl) == skip_ws(l));
    assert(spec_need(sl) == spec_need(l));
    lemma_need_consumes(l);
}

proof fn lemma_many_need_reads_list(items: Seq<(Seq<char>, u64)>)
    requires
        items.len() > 0,
        forall|i: int| 0 <= i < items.len() ==> plain_name(#[trigger] items[i].0),
    ensures
        spec_many_need(ingredients_text(items)) == Ok::<
            (Seq<char>, Seq<(Seq<char>, u64)>),
            ParseError,
        >((Seq::empty(), items)),
    decreases items.len(),
{
    let g = items[0].0;
    let q = items[0].1;
    assert(plain_name(items[0].0));
    let text = ingredients_text(items);
    if items.len() == 1 {
        assert(text =~= ingredient_text(g, q) + Seq::<char>::empty());
        lemma_need_reads_ingredient(g, q, Seq::empty());
        let e = Seq::<char>::empty();
        assert(prefix_len(e, ws_pred()) == 0);
        assert(e.skip(0) =~= e);
        assert(prefix_len(e, name_pred()) == 0);
        assert(spec_need(e) is Err);
        assert(spec_many_need(e) == Ok::<(Seq<char>, Seq<(Seq<char>, u64)>), ParseError>((e, Seq::empty())));
        assert(seq![(g, q)] + Seq::<(Seq<char>, u64)>::empty() =~= items);
    } else {
        let rest = items.drop_first();
        assert forall|i: int| 0 <= i < rest.len() implies plain_name(#[trigger] rest[i].0) by {
            assert(rest[i] == items[i + 1]);
        }
        lemma_many_need_reads_list(rest);
        let l = ingredients_text(rest);
        let r = seq![' '] + l;
        assert(text =~= ingredient_text(g, q) + r);
        lemma_need_reads_ingredient(g, q, r);
        assert(plain_name(rest[0].0));
        if rest.len() == 1 {
            assert(l =~= ingredient_text(rest[0].0, rest[0].1) + Seq::<char>::empty());
            lemma_need_reads_ingredient(rest[0].0, rest[0].1, Seq::empty());
        } else {
            assert(l =~= ingredient_text(rest[0].0, rest[0].1) + (seq![' '] + ingredients_text(rest.drop_first())));
            lemma_need_reads_ingredient(rest[0].0, rest[0].1, seq![' '] + ingredients_text(rest.drop_first()));
        }
        lemma_many_need_after_space(l);
        assert(ingredient_text(g, q).len() > 0);
        assert(seq![(g, q)] + rest =~= items);
    }
}

/// `needs` reads ingredients until the text is no longer one: a list of one or more
/// ingredients written `name (quantity)` and separated by spaces reads as all of them,
/// in order, with nothing left over.
pub proof fn law_needs_reads_every_ingredient(items: Seq<(Seq<char>, u64)>)
    requires
        items.len() > 0,
        forall|i: int| 0 <= i < items.len() ==> plain_name(#[trigger] items[i].0),
    ensures
        spec_needs(ingredients_text(items)) == Ok::<
            (Seq<char>, Seq<(Seq<char>, u64)>),
            ParseError,
        >((Seq::empty(), items)),
{
    lemma_space_is_ws();
    let text = ingredients_text(items);
    assert(plain_name(items[0].0));
    assert(text[0] == items[0].0[0]) by {
        if items.len() == 1 {
            assert(text == ingredient_text(items[0].0, items[0].1));
        } else {
            assert(text == ingredient_text(items[0].0, items[0].1) + seq![' '] + ingredients_text(items.drop_first()));
        }
    }
    lemma_prefix_len_char(text, ms_pred(), 0);
    assert(text.skip(0) =~= text);
    lemma_many_need_reads_list(items);
}

} // verus!
