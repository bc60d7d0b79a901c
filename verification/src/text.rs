use vstd::prelude::*;

verus! {

/// Unicode `White_Space` code points: the characters that `char::is_whitespace` accepts.
pub open spec fn is_ws(c: char) -> bool {
    let u = c as u32;
    ||| 0x9 <= u <= 0xD
    ||| u == 0x20
    ||| u == 0x85
    ||| u == 0xA0
    ||| u == 0x1680
    ||| 0x2000 <= u <= 0x200A
    ||| u == 0x2028
    ||| u == 0x2029
    ||| u == 0x202F
    ||| u == 0x205F
    ||| u == 0x3000
}

/// The four characters that count as "multispace" in the recipe grammar: space, tab, CR, LF.
pub open spec fn is_multispace(c: char) -> bool {
    c == ' ' || c == '\t' || c == '\r' || c == '\n'
}

pub open spec fn is_digit(c: char) -> bool {
    '0' <= c <= '9'
}

pub open spec fn digit_value(c: char) -> nat {
    (c as u32 - '0' as u32) as nat
}

/// Length of the longest prefix of `s` whose characters all satisfy `p`.
pub open spec fn prefix_len(s: Seq<char>, p: spec_fn(char) -> bool) -> nat
    decreases s.len(),
{
    if s.len() > 0 && p(s[0]) {
        1 + prefix_len(s.drop_first(), p)
    } else {
        0
    }
}

/// Length of the longest suffix of `s` whose characters all satisfy `p`.
pub open spec fn suffix_len(s: Seq<char>, p: spec_fn(char) -> bool) -> nat
    decreases s.len(),
{
    if s.len() > 0 && p(s.last()) {
        1 + suffix_len(s.drop_last(), p)
    } else {
        0
    }
}

pub open spec fn ws_pred() -> spec_fn(char) -> bool {
    |c: char| is_ws(c)
}

/// `s` with leading and trailing Unicode whitespace removed.
pub open spec fn trim_ws(s: Seq<char>) -> Seq<char> {
    let a = prefix_len(s, ws_pred());
    if a == s.len() {
        Seq::empty()
    } else {
        s.subrange(a as int, s.len() - suffix_len(s, ws_pred()))
    }
}

/// Numeric value of a string of decimal digits.
pub open spec fn digits_value(d: Seq<char>) -> nat
    decreases d.len(),
{
    if d.len() == 0 {
        0
    } else {
        digits_value(d.drop_last()) * 10 + digit_value(d.last())
    }
}

/// Decimal representation of `n`, without leading zeros ("0" for zero).
pub open spec fn decimal(n: nat) -> Seq<char>
    decreases n,
{
    if n < 10 {
        seq![digit_char(n)]
    } else {
        decimal(n / 10).push(digit_char(n % 10))
    }
}

pub open spec fn digit_char(d: nat) -> char {
    if d == 0 { '0' }
    else if d == 1 { '1' }
    else if d == 2 { '2' }
    else if d == 3 { '3' }
    else if d == 4 { '4' }
    else if d == 5 { '5' }
    else if d == 6 { '6' }
    else if d == 7 { '7' }
    else if d == 8 { '8' }
    else { '9' }
}

/// Whether `c` is a Unicode whitespace character (the `White_Space` property).
pub fn is_whitespace(c: char) -> (r: bool)
    ensures
        r == is_ws(c),
{
    let u = c as u32;
    (0x9 <= u && u <= 0xD) || u == 0x20 || u == 0x85 || u == 0xA0 || u == 0x1680 || (0x2000 <= u
        && u <= 0x200A) || u == 0x2028 || u == 0x2029 || u == 0x202F || u == 0x205F || u == 0x3000
}

pub fn is_multispace_char(c: char) -> (r: bool)
    ensures
        r == is_multispace(c),
{
    c == ' ' || c == '\t' || c == '\r' || c == '\n'
}

/// Characters of `s`, in order.
pub fn chars_of(s: &str) -> (r: Vec<char>)
    ensures
        r@ == s@,
{
    let n = s.unicode_len();
    let mut r: Vec<char> = Vec::new();
    let mut i: usize = 0;
    while i < n
        invariant
            n == s@.len(),
            i <= n,
            r@ == s@.take(i as int),
        decreases n - i,
    {
        r.push(s.get_char(i));
        i = i + 1;
        assert(r@ =~= s@.take(i as int));
    }
    assert(r@ =~= s@);
    r
}

pub proof fn lemma_prefix_len_bound(s: Seq<char>, p: spec_fn(char) -> bool)
    ensures
        prefix_len(s, p) <= s.len(),
        forall|i: int| 0 <= i < prefix_len(s, p) ==> #[trigger] p(s[i]),
        prefix_len(s, p) < s.len() ==> !p(s[prefix_len(s, p) as int]),
    decreases s.len(),
{
    if s.len() > 0 && p(s[0]) {
        lemma_prefix_len_bound(s.drop_first(), p);
        assert forall|i: int| 0 <= i < prefix_len(s, p) implies #[trigger] p(s[i]) by {
            if i > 0 {
                assert(s[i] == s.drop_first()[i - 1]);
            }
        }
    }
}

/// `prefix_len` is determined by the position of the first character that fails `p`.
pub proof fn lemma_prefix_len_char(s: Seq<char>, p: spec_fn(char) -> bool, k: int)
    requires
        0 <= k <= s.len(),
        forall|i: int| 0 <= i < k ==> #[trigger] p(s[i]),
        k < s.len() ==> !p(s[k]),
    ensures
        prefix_len(s, p) == k,
    decreases s.len(),
{
    if s.len() > 0 && p(s[0]) {
        assert forall|i: int| 0 <= i < k - 1 implies #[trigger] p(s.drop_first()[i]) by {
            assert(s.drop_first()[i] == s[i + 1]);
        }
        lemma_prefix_len_char(s.drop_first(), p, k - 1);
    }
}

pub proof fn lemma_suffix_len_char(s: Seq<char>, p: spec_fn(char) -> bool, k: int)
    requires
        0 <= k <= s.len(),
        forall|i: int| s.len() - k <= i < s.len() ==> #[trigger] p(s[i]),
        k < s.len() ==> !p(s[s.len() - k - 1]),
    ensures
        suffix_len(s, p) == k,
    decreases s.len(),
{
    if s.len() > 0 && p(s.last()) {
        assert forall|i: int| s.drop_last().len() - (k - 1) <= i < s.drop_last().len() implies #[trigger] p(s.drop_last()[i]) by {
            assert(s.drop_last()[i] == s[i]);
        }
        lemma_suffix_len_char(s.drop_last(), p, k - 1);
    }
}

pub proof fn lemma_prefix_len_at_least(s: Seq<char>, p: spec_fn(char) -> bool, k: int)
    requires
        0 <= k <= s.len(),
        forall|i: int| 0 <= i < k ==> #[trigger] p(s[i]),
    ensures
        prefix_len(s, p) >= k,
    decreases s.len(),
{
    if k > 0 {
        assert(p(s[0]));
        assert forall|i: int| 0 <= i < k - 1 implies #[trigger] p(s.drop_first()[i]) by {
            assert(s.drop_first()[i] == s[i + 1]);
        }
        lemma_prefix_len_at_least(s.drop_first(), p, k - 1);
    }
}

/// A longer run of digits has at least the value of any of its prefixes.
pub proof fn lemma_digits_value_prefix(d: Seq<char>, j: int, k: int)
    requires
        0 <= j <= k <= d.len(),
    ensures
        digits_value(d.take(j)) <= digits_value(d.take(k)),
    decreases k - j,
{
    if j < k {
        lemma_digits_value_prefix(d, j, k - 1);
        assert(d.take(k).drop_last() =~= d.take(k - 1));
    }
}

pub proof fn lemma_digit_char(d: nat)
    requires
        d < 10,
    ensures
        is_digit(digit_char(d)),
        digit_value(digit_char(d)) == d,
{
}

/// `decimal(n)` is a non-empty run of digits whose value is `n`.
pub proof fn lemma_decimal(n: nat)
    ensures
        decimal(n).len() >= 1,
        forall|i: int| 0 <= i < decimal(n).len() ==> is_digit(#[trigger] decimal(n)[i]),
        digits_value(decimal(n)) == n,
    decreases n,
{
    lemma_digit_char(n % 10);
    if n < 10 {
        assert(decimal(n).drop_last() =~= Seq::<char>::empty());
        assert(digits_value(decimal(n)) == digits_value(Seq::<char>::empty()) * 10 + digit_value(digit_char(n)));
    } else {
        lemma_decimal(n / 10);
        let d = decimal(n / 10);
        assert(decimal(n).drop_last() =~= d);
        assert(decimal(n).last() == digit_char(n % 10));
        assert(digits_value(decimal(n)) == digits_value(d) * 10 + digit_value(digit_char(n % 10)));
        assert(n == (n / 10) * 10 + n % 10);
        assert forall|i: int| 0 <= i < decimal(n).len() implies is_digit(#[trigger] decimal(n)[i]) by {
            if i < d.len() {
                assert(decimal(n)[i] == d[i]);
            }
        }
    }
}

/// Different numbers are written differently.
pub proof fn lemma_decimal_injective(a: nat, b: nat)
    requires
        decimal(a) == decimal(b),
    ensures
        a == b,
{
    lemma_decimal(a);
    lemma_decimal(b);
}

/// Number of leading characters of `s[from..to]` that satisfy the whitespace predicate.
pub fn scan_ws(s: &Vec<char>, from: usize, to: usize) -> (r: usize)
    requires
        from <= to <= s@.len(),
    ensures
        from <= r <= to,
        r - from == prefix_len(s@.subrange(from as int, to as int), ws_pred()),
{
    let mut i = from;
    while i < to && is_whitespace(s[i])
        invariant
            from <= i <= to <= s@.len(),
            forall|j: int| from <= j < i ==> is_ws(#[trigger] s@[j]),
        decreases to - i,
    {
        i = i + 1;
    }
    let ghost t = s@.subrange(from as int, to as int);
    proof {
        assert forall|j: int| 0 <= j < i - from implies #[trigger] ws_pred()(t[j]) by {
            assert(t[j] == s@[from + j]);
        }
        lemma_prefix_len_char(t, ws_pred(), i - from);
    }
    i
}

/// Trim bounds: the whitespace-trimmed part of `s[from..to]` is `s[a..b]`.
pub fn trim_bounds(s: &Vec<char>, from: usize, to: usize) -> (r: (usize, usize))
    requires
        from <= to <= s@.len(),
    ensures
        from <= r.0 <= r.1 <= to,
        s@.subrange(r.0 as int, r.1 as int) == trim_ws(s@.subrange(from as int, to as int)),
{
    let ghost t = s@.subrange(from as int, to as int);
    let a = scan_ws(s, from, to);
    if a == to {
        assert(s@.subrange(a as int, a as int) =~= Seq::<char>::empty());
        return (a, a);
    }
    let mut b = to;
    while b > a && is_whitespace(s[b - 1])
        invariant
            from <= a < to <= s@.len(),
            a <= b <= to,
            forall|j: int| b <= j < to ==> is_ws(#[trigger] s@[j]),
            a - from == prefix_len(t, ws_pred()),
            t == s@.subrange(from as int, to as int),
        decreases b - a,
    {
        b = b - 1;
    }
    proof {
        lemma_prefix_len_bound(t, ws_pred());
        assert(!is_ws(s@[a as int])) by {
            assert(t[a - from] == s@[a as int]);
        }
        assert(b > a);
        let k = to - b;
        assert forall|j: int| t.len() - k <= j < t.len() implies #[trigger] ws_pred()(t[j]) by {
            assert(t[j] == s@[from + j]);
        }
        assert(!ws_pred()(t[t.len() - k - 1])) by {
            assert(t[t.len() - k - 1] == s@[b - 1]);
        }
        lemma_suffix_len_char(t, ws_pred(), k as int);
        assert(s@.subrange(a as int, b as int) =~= t.subrange(a - from, t.len() - k));
    }
    (a, b)
}

/// The decimal digit `d` as text.
fn digit_string(d: u64) -> (r: String)
    requires
        d < 10,
    ensures
        r@ == seq![digit_char(d as nat)],
{
    if d == 0 {
        proof { reveal_strlit("0"); }
        "0".to_owned()
    } else if d == 1 {
        proof { reveal_strlit("1"); }
        "1".to_owned()
    } else if d == 2 {
        proof { reveal_strlit("2"); }
        "2".to_owned()
    } else if d == 3 {
        proof { reveal_strlit("3"); }
        "3".to_owned()
    } else if d == 4 {
        proof { reveal_strlit("4"); }
        "4".to_owned()
    } else if d == 5 {
        proof { reveal_strlit("5"); }
        "5".to_owned()
    } else if d == 6 {
        proof { reveal_strlit("6"); }
        "6".to_owned()
    } else if d == 7 {
        proof { reveal_strlit("7"); }
        "7".to_owned()
    } else if d == 8 {
        proof { reveal_strlit("8"); }
        "8".to_owned()
    } else {
        proof { reveal_strlit("9"); }
        "9".to_owned()
    }
}

/// `n` written in decimal, as `format!("{}", n)` writes it.
pub fn decimal_string(n: u64) -> (r: String)
    ensures
        r@ == decimal(n as nat),
    decreases n,
{
    if n < 10 {
        digit_string(n)
    } else {
        let mut s = decimal_string(n / 10);
        let d = digit_string(n % 10);
        s.append(d.as_str());
        s
    }
}

} // verus!
