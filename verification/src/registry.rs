use vstd::prelude::*;

use crate::domain::{
    good_named, process_named, source_named, good_ids_of, process_ids_of, source_ids_of, Duration, Good, GoodId, GoodView, Process,
    ProcessId, ProcessView, Registry, RegistryView, Source, SourceId, SourceView, goods_view,
    processes_view, sources_view,
};
use crate::parsers::{needs, source_id, spec_name, spec_needs, spec_time, time, TimeUnit};
use crate::text::{chars_of, decimal, digits_value, is_digit, lemma_decimal};

verus! {

/// One row of the goods list, as text.
#[derive(Debug)]
pub struct RawGood {
    pub title: String,
    pub level: String,
    pub price: String,
    pub time: String,
    pub experience: String,
    pub needs: String,
    pub source: String,
}

pub struct RawGoodView {
    pub title: Seq<char>,
    pub level: Seq<char>,
    pub price: Seq<char>,
    pub time: Seq<char>,
    pub experience: Seq<char>,
    pub needs: Seq<char>,
    pub source: Seq<char>,
}

impl View for RawGood {
    type V = RawGoodView;

    open spec fn view(&self) -> RawGoodView {
        RawGoodView {
            title: self.title@,
            level: self.level@,
            price: self.price@,
            time: self.time@,
            experience: self.experience@,
            needs: self.needs@,
            source: self.source@,
        }
    }
}

impl Clone for RawGood {
    fn clone(&self) -> (r: Self)
        ensures
            r@ == self@,
    {
        RawGood {
            title: self.title.clone(),
            level: self.level.clone(),
            price: self.price.clone(),
            time: self.time.clone(),
            experience: self.experience.clone(),
            needs: self.needs.clone(),
            source: self.source.clone(),
        }
    }
}

// ---------------------------------------------------------------------------
// Numbers and times
// ---------------------------------------------------------------------------

pub open spec fn all_digits(d: Seq<char>) -> bool {
    forall|i: int| 0 <= i < d.len() ==> is_digit(#[trigger] d[i])
}

/// What `str::parse::<u64>` accepts: an optional `+`, then one or more ASCII digits
/// whose value fits in a `u64`.
pub open spec fn std_parse_u64(s: Seq<char>) -> Option<u64> {
    let d = if s.len() > 0 && s[0] == '+' {
        s.drop_first()
    } else {
        s
    };
    if d.len() == 0 || !all_digits(d) || digits_value(d) > u64::MAX {
        None
    } else {
        Some(digits_value(d) as u64)
    }
}

/// Reads a decimal number the way `str::parse::<u64>` does.
pub fn parse_u64(s: &str) -> (r: Option<u64>)
    ensures
        r == std_parse_u64(s@),
{
    let c = chars_of(s);
    let start: usize = if c.len() > 0 && c[0] == '+' {
        1
    } else {
        0
    };
    let ghost d = if s@.len() > 0 && s@[0] == '+' {
        s@.drop_first()
    } else {
        s@
    };
    assert(d =~= c@.skip(start as int));
    if start == c.len() {
        return None;
    }
    let mut value: u64 = 0;
    let mut i = start;
    #[verifier::loop_isolation(false)]
    while i < c.len()
        invariant
            start <= i <= c@.len(),
            d =~= c@.skip(start as int),
            forall|j: int| start <= j < i ==> is_digit(#[trigger] c@[j]),
            value == digits_value(c@.subrange(start as int, i as int)),
        decreases c@.len() - i,
    {
        let ch = c[i];
        if !('0' <= ch && ch <= '9') {
            assert(d[i - start] == c@[i as int]);
            assert(!is_digit(d[i - start]));
            assert(!all_digits(d));
            return None;
        }
        let nv: u128 = value as u128 * 10 + (ch as u32 - '0' as u32) as u128;
        assert(c@.subrange(start as int, i + 1).drop_last() =~= c@.subrange(start as int, i as int));
        if nv > 0xffff_ffff_ffff_ffffu128 {
            proof {
                crate::text::lemma_digits_value_prefix(d, i + 1 - start, d.len() as int);
                assert(d.take(i + 1 - start) =~= c@.subrange(start as int, i + 1));
                assert(d.take(d.len() as int) =~= d);
            }
            return None;
        }
        value = nv as u64;
        i = i + 1;
    }
    assert(c@.subrange(start as int, c@.len() as int) =~= d);
    assert forall|j: int| 0 <= j < d.len() implies is_digit(#[trigger] d[j]) by {
        assert(d[j] == c@[start + j]);
    }
    Some(value)
}

/// Length of one time term, in seconds.
pub open spec fn seconds_of(t: TimeUnit) -> nat {
    match t {
        TimeUnit::Seconds(n) => n as nat,
        TimeUnit::Minutes(n) => n as nat * 60,
        TimeUnit::Hours(n) => n as nat * 3600,
        TimeUnit::Days(n) => n as nat * 86400,
    }
}

/// Total length of a list of time terms, in seconds.
pub open spec fn total_seconds(ts: Seq<TimeUnit>) -> nat
    decreases ts.len(),
{
    if ts.len() == 0 {
        0
    } else {
        total_seconds(ts.drop_last()) + seconds_of(ts.last())
    }
}

proof fn lemma_total_seconds_prefix(ts: Seq<TimeUnit>, i: int, j: int)
    requires
        0 <= i <= j <= ts.len(),
    ensures
        total_seconds(ts.take(i)) <= total_seconds(ts.take(j)),
    decreases j - i,
{
    if i < j {
        lemma_total_seconds_prefix(ts, i, j - 1);
        assert(ts.take(j).drop_last() =~= ts.take(j - 1));
    }
}

/// Adds up a list of time terms, in seconds.
pub fn times_to_seconds(times: Vec<TimeUnit>) -> (r: u64)
    requires
        total_seconds(times@) <= u64::MAX,
    ensures
        r == total_seconds(times@),
{
    let mut acc: u64 = 0;
    let mut i: usize = 0;
    while i < times.len()
        invariant
            i <= times@.len(),
            total_seconds(times@) <= u64::MAX,
            acc == total_seconds(times@.take(i as int)),
        decreases times@.len() - i,
    {
        proof {
            lemma_total_seconds_prefix(times@, i + 1, times@.len() as int);
            assert(times@.take(i + 1).drop_last() =~= times@.take(i as int));
            assert(times@.take(times@.len() as int) =~= times@);
        }
        let term = match times[i] {
            TimeUnit::Seconds(t) => t,
            TimeUnit::Minutes(t) => t * 60,
            TimeUnit::Hours(t) => t * 60 * 60,
            TimeUnit::Days(t) => t * 60 * 60 * 24,
        };
        acc = acc + term;
        i = i + 1;
    }
    assert(times@.take(times@.len() as int) =~= times@);
    acc
}

/// Whether a list of time terms adds up to at most `u64::MAX` seconds.
fn seconds_fit(times: &Vec<TimeUnit>) -> (r: bool)
    ensures
        r == (total_seconds(times@) <= u64::MAX),
{
    let mut acc: u64 = 0;
    let mut i: usize = 0;
    while i < times.len()
        invariant
            i <= times@.len(),
            acc == total_seconds(times@.take(i as int)),
        decreases times@.len() - i,
    {
        proof {
            assert(times@.take(i + 1).drop_last() =~= times@.take(i as int));
        }
        let term: u128 = match times[i] {
            TimeUnit::Seconds(t) => t as u128,
            TimeUnit::Minutes(t) => t as u128 * 60,
            TimeUnit::Hours(t) => t as u128 * 3600,
            TimeUnit::Days(t) => t as u128 * 86400,
        };
        if acc as u128 + term > 0xffff_ffff_ffff_ffffu128 {
            proof {
                lemma_total_seconds_prefix(times@, i + 1, times@.len() as int);
                assert(times@.take(times@.len() as int) =~= times@);
            }
            return false;
        }
        acc = (acc as u128 + term) as u64;
        i = i + 1;
    }
    assert(times@.take(times@.len() as int) =~= times@);
    true
}

/// Whether the row's time can be added up, as `create_registry` and `parse_entry`
/// need (see `time_fits`).
pub fn row_time_fits(raw: &RawGood) -> (r: bool)
    ensures
        r == time_fits(raw@),
{
    if source_id(raw.source.as_str()).is_err() {
        return true;
    }
    if parse_u64(raw.level.as_str()).is_none() || parse_u64(raw.experience.as_str()).is_none()
        || parse_u64(raw.price.as_str()).is_none() {
        return true;
    }
    match time(raw.time.as_str()) {
        Err(_) => true,
        Ok((_, units)) => seconds_fit(&units),
    }
}

// ---------------------------------------------------------------------------
// From rows of text to a registry
// ---------------------------------------------------------------------------

/// The good and the process that one row describes, when all its fields read.
pub open spec fn entry_of(r: RawGoodView) -> Option<(GoodView, ProcessView)> {
    match spec_name(r.source) {
        Err(_) => None,
        Ok((_, source)) => match (
            std_parse_u64(r.level),
            std_parse_u64(r.experience),
            std_parse_u64(r.price),
        ) {
            (Some(level), Some(xp), Some(price)) => match spec_time(r.time) {
                Err(_) => None,
                Ok((_, units)) => match spec_needs(r.needs) {
                    Err(_) => None,
                    Ok((_, needs)) => {
                        let good = GoodView {
                            id: r.title,
                            level,
                            xp,
                            source,
                            price,
                            image_url: None,
                        };
                        Some(
                            (
                                good,
                                ProcessView {
                                    id: r.title,
                                    source_id: source,
                                    duration: total_seconds(units) as u64,
                                    goods: seq![good],
                                    product: (r.title, 1),
                                    needs,
                                },
                            ),
                        )
                    },
                },
            },
            _ => None,
        },
    }
}

/// The row's time is only added up once its source, level, experience and price have
/// read; then the total has to fit in a `u64`.
pub open spec fn time_fits(r: RawGoodView) -> bool {
    match spec_name(r.source) {
        Err(_) => true,
        Ok(_) => match (
            std_parse_u64(r.level),
            std_parse_u64(r.experience),
            std_parse_u64(r.price),
        ) {
            (Some(_), Some(_), Some(_)) => match spec_time(r.time) {
                Err(_) => true,
                Ok((_, units)) => total_seconds(units) <= u64::MAX,
            },
            _ => true,
        },
    }
}

pub open spec fn raws_view(v: Seq<RawGood>) -> Seq<RawGoodView> {
    v.map_values(|r: RawGood| r@)
}

pub open spec fn entry_fn() -> spec_fn(RawGoodView) -> Option<(GoodView, ProcessView)> {
    |r: RawGoodView| entry_of(r)
}

/// The entries that the rows describe, in row order.
pub open spec fn entries_of(raws: Seq<RawGoodView>) -> Seq<(GoodView, ProcessView)> {
    raws.filter_map(entry_fn())
}

/// Reads one row into a good and the process that makes it.
pub fn parse_entry(raw: &RawGood) -> (r: Option<(Good, Process)>)
    requires
        time_fits(raw@),
    ensures
        match r {
            Some((g, p)) => entry_of(raw@) == Some((g@, p@)),
            None => entry_of(raw@) == None::<(GoodView, ProcessView)>,
        },
{
    let source = match source_id(raw.source.as_str()) {
        Ok((_, s)) => s,
        Err(_) => return None,
    };
    let level = match parse_u64(raw.level.as_str()) {
        Some(v) => v,
        None => return None,
    };
    let xp = match parse_u64(raw.experience.as_str()) {
        Some(v) => v,
        None => return None,
    };
    let price = match parse_u64(raw.price.as_str()) {
        Some(v) => v,
        None => return None,
    };
    let units = match time(raw.time.as_str()) {
        Ok((_, t)) => t,
        Err(_) => return None,
    };
    let duration = times_to_seconds(units);
    let ingredients = match needs(raw.needs.as_str()) {
        Ok((_, n)) => n,
        Err(_) => return None,
    };
    let good = Good {
        id: GoodId(raw.title.clone()),
        level,
        xp,
        source: source.clone(),
        price,
        image_url: None,
    };
    let mut goods: Vec<Good> = Vec::new();
    goods.push(good.clone());
    let process = Process {
        id: ProcessId(raw.title.clone()),
        source_id: source,
        duration,
        goods,
        product: (GoodId(raw.title.clone()), 1),
        needs: ingredients,
    };
    assert(goods_view(process.goods@) =~= seq![good@]);
    Some((good, process))
}


/// `g` is the last entry of `es` with its name.
pub open spec fn is_last_good(es: Seq<GoodView>, g: GoodView) -> bool {
    exists|j: int|
        0 <= j < es.len() && es[j] == g && forall|j2: int| j < j2 < es.len() ==> es[j2].id != g.id
}

/// `p` is the last entry of `es` with its name.
pub open spec fn is_last_process(es: Seq<ProcessView>, p: ProcessView) -> bool {
    exists|j: int|
        0 <= j < es.len() && es[j] == p && forall|j2: int| j < j2 < es.len() ==> es[j2].id != p.id
}

/// `t` holds each name of `es` once, with the last entry of that name: what
/// collecting `es` into a map by name keeps.
pub open spec fn keeps_last_goods(t: Seq<GoodView>, es: Seq<GoodView>) -> bool {
    &&& good_ids_of(t).no_duplicates()
    &&& forall|x: Seq<char>| good_ids_of(t).contains(x) <==> good_ids_of(es).contains(x)
    &&& forall|k: int| 0 <= k < t.len() ==> is_last_good(es, #[trigger] t[k])
}

/// `t` holds each name of `es` once, with the last entry of that name.
pub open spec fn keeps_last_processes(t: Seq<ProcessView>, es: Seq<ProcessView>) -> bool {
    &&& process_ids_of(t).no_duplicates()
    &&& forall|x: Seq<char>| process_ids_of(t).contains(x) <==> process_ids_of(es).contains(x)
    &&& forall|k: int| 0 <= k < t.len() ==> is_last_process(es, #[trigger] t[k])
}

pub open spec fn source_ids_used(ps: Seq<ProcessView>) -> Seq<Seq<char>> {
    ps.map_values(|p: ProcessView| p.source_id)
}

/// `t` holds each source that the processes `ps` use once, with a capacity that
/// `source_time` returns for it.
pub open spec fn sources_for<F: Fn(SourceId) -> Duration>(
    t: Seq<SourceView>,
    ps: Seq<ProcessView>,
    source_time: F,
) -> bool {
    &&& source_ids_of(t).no_duplicates()
    &&& forall|x: Seq<char>| source_ids_of(t).contains(x) <==> source_ids_used(ps).contains(x)
    &&& forall|k: int|
        0 <= k < t.len() ==> exists|sid: SourceId|
            sid@ == t[k].id && call_ensures(source_time, (sid,), #[trigger] t[k].capacity)
}

pub open spec fn entry_goods(es: Seq<(GoodView, ProcessView)>) -> Seq<GoodView> {
    es.map_values(|e: (GoodView, ProcessView)| e.0)
}

pub open spec fn entry_processes(es: Seq<(GoodView, ProcessView)>) -> Seq<ProcessView> {
    es.map_values(|e: (GoodView, ProcessView)| e.1)
}

fn upsert_good(t: &mut Vec<Good>, g: Good, Ghost(es): Ghost<Seq<GoodView>>)
    requires
        keeps_last_goods(goods_view(old(t)@), es),
    ensures
        keeps_last_goods(goods_view(final(t)@), es.push(g@)),
{
    let ghost t0 = goods_view(t@);
    let ghost gv = g@;
    let ghost es2 = es.push(gv);
    let mut k: usize = 0;
    #[verifier::loop_isolation(false)]
    while k < t.len()
        invariant
            k <= t@.len(),
            t0 == goods_view(t@),
            forall|i: int| 0 <= i < k ==> t0[i].id != gv.id,
        decreases t@.len() - k,
    {
        if t[k].id.0 == g.id.0 {
            t.set(k, g);
            proof {
                let t1 = goods_view(t@);
                assert(t1 =~= t0.update(k as int, gv));
                assert(good_ids_of(t1) =~= good_ids_of(t0));
                assert(good_ids_of(t0)[k as int] == gv.id);
                assert forall|x: Seq<char>| good_ids_of(t1).contains(x) <==> good_ids_of(
                    es2,
                ).contains(x) by {
                    if good_ids_of(es2).contains(x) {
                        let j = choose|j: int| 0 <= j < es2.len() && good_ids_of(es2)[j] == x;
                        if j < es.len() {
                            assert(good_ids_of(es)[j] == x);
                        }
                    }
                    if good_ids_of(t1).contains(x) {
                        assert(good_ids_of(es).contains(x));
                        let j = choose|j: int| 0 <= j < es.len() && good_ids_of(es)[j] == x;
                        assert(good_ids_of(es2)[j] == x);
                    }
                }
                assert forall|i: int| 0 <= i < t1.len() implies is_last_good(es2, #[trigger] t1[i]) by {
                    if i == k {
                        assert(es2[es.len() as int] == gv);
                    } else {
                        assert(good_ids_of(t0)[i] != good_ids_of(t0)[k as int]);
                        let j = choose|j: int|
                            0 <= j < es.len() && es[j] == t0[i] && forall|j2: int|
                                j < j2 < es.len() ==> es[j2].id != t0[i].id;
                        assert(es2[j] == t0[i]);
                        assert forall|j2: int| j < j2 < es2.len() implies es2[j2].id != t1[i].id by {
                            if j2 < es.len() {
                                assert(es2[j2] == es[j2]);
                            }
                        }
                    }
                }
            }
            return ;
        }
        k = k + 1;
    }
    t.push(g);
    proof {
        let t1 = goods_view(t@);
        assert(t1 =~= t0.push(gv));
        assert(good_ids_of(t1) =~= good_ids_of(t0).push(gv.id));
        assert(!good_ids_of(t0).contains(gv.id)) by {
            if good_ids_of(t0).contains(gv.id) {
                let i = choose|i: int| 0 <= i < t0.len() && good_ids_of(t0)[i] == gv.id;
            }
        }
        assert(!good_ids_of(es).contains(gv.id));
        assert forall|x: Seq<char>| good_ids_of(t1).contains(x) <==> good_ids_of(es2).contains(x) by {
            if good_ids_of(es2).contains(x) {
                let j = choose|j: int| 0 <= j < es2.len() && good_ids_of(es2)[j] == x;
                if j < es.len() {
                    assert(good_ids_of(es)[j] == x);
                    assert(good_ids_of(es).contains(x));
                    assert(good_ids_of(t0).contains(x));
                    let i = choose|i: int| 0 <= i < t0.len() && good_ids_of(t0)[i] == x;
                    assert(good_ids_of(t1)[i] == x);
                } else {
                    assert(good_ids_of(t1)[t0.len() as int] == x);
                }
            }
            if good_ids_of(t1).contains(x) {
                let i = choose|i: int| 0 <= i < t1.len() && good_ids_of(t1)[i] == x;
                if i < t0.len() {
                    assert(good_ids_of(t0)[i] == x);
                    assert(good_ids_of(t0).contains(x));
                    assert(good_ids_of(es).contains(x));
                    let j = choose|j: int| 0 <= j < es.len() && good_ids_of(es)[j] == x;
                    assert(good_ids_of(es2)[j] == x);
                } else {
                    assert(good_ids_of(es2)[es.len() as int] == x);
                }
            }
        }
        assert forall|i: int| 0 <= i < t1.len() implies is_last_good(es2, #[trigger] t1[i]) by {
            if i == t0.len() {
                assert(es2[es.len() as int] == gv);
            } else {
                assert(t1[i] == t0[i]);
                let j = choose|j: int|
                    0 <= j < es.len() && es[j] == t0[i] && forall|j2: int|
                        j < j2 < es.len() ==> es[j2].id != t0[i].id;
                assert(es2[j] == t0[i]);
                assert forall|j2: int| j < j2 < es2.len() implies es2[j2].id != t1[i].id by {
                    if j2 < es.len() {
                        assert(es2[j2] == es[j2]);
                    }
                }
            }
        }
    }
}

fn upsert_process(t: &mut Vec<Process>, p: Process, Ghost(es): Ghost<Seq<ProcessView>>)
    requires
        keeps_last_processes(processes_view(old(t)@), es),
    ensures
        keeps_last_processes(processes_view(final(t)@), es.push(p@)),
{
    let ghost t0 = processes_view(t@);
    let ghost pv = p@;
    let ghost es2 = es.push(pv);
    let mut k: usize = 0;
    #[verifier::loop_isolation(false)]
    while k < t.len()
        invariant
            k <= t@.len(),
            t0 == processes_view(t@),
            forall|i: int| 0 <= i < k ==> t0[i].id != pv.id,
        decreases t@.len() - k,
    {
        if t[k].id.0 == p.id.0 {
            t.set(k, p);
            proof {
                let t1 = processes_view(t@);
                assert(t1 =~= t0.update(k as int, pv));
                assert(process_ids_of(t1) =~= process_ids_of(t0));
                assert(process_ids_of(t0)[k as int] == pv.id);
                assert forall|x: Seq<char>| process_ids_of(t1).contains(x) <==> process_ids_of(
                    es2,
                ).contains(x) by {
                    if process_ids_of(es2).contains(x) {
                        let j = choose|j: int| 0 <= j < es2.len() && process_ids_of(es2)[j] == x;
                        if j < es.len() {
                            assert(process_ids_of(es)[j] == x);
                        }
                    }
                    if process_ids_of(t1).contains(x) {
                        assert(process_ids_of(es).contains(x));
                        let j = choose|j: int| 0 <= j < es.len() && process_ids_of(es)[j] == x;
                        assert(process_ids_of(es2)[j] == x);
                    }
                }
                assert forall|i: int| 0 <= i < t1.len() implies is_last_process(es2, #[trigger] t1[i]) by {
                    if i == k {
                        assert(es2[es.len() as int] == pv);
                    } else {
                        assert(process_ids_of(t0)[i] != process_ids_of(t0)[k as int]);
                        let j = choose|j: int|
                            0 <= j < es.len() && es[j] == t0[i] && forall|j2: int|
                                j < j2 < es.len() ==> es[j2].id != t0[i].id;
                        assert(es2[j] == t0[i]);
                        assert forall|j2: int| j < j2 < es2.len() implies es2[j2].id != t1[i].id by {
                            if j2 < es.len() {
                                assert(es2[j2] == es[j2]);
                            }
                        }
                    }
                }
            }
            return ;
        }
        k = k + 1;
    }
    t.push(p);
    proof {
        let t1 = processes_view(t@);
        assert(t1 =~= t0.push(pv));
        assert(process_ids_of(t1) =~= process_ids_of(t0).push(pv.id));
        assert(!process_ids_of(t0).contains(pv.id)) by {
            if process_ids_of(t0).contains(pv.id) {
                let i = choose|i: int| 0 <= i < t0.len() && process_ids_of(t0)[i] == pv.id;
            }
        }
        assert(!process_ids_of(es).contains(pv.id));
        assert forall|x: Seq<char>| process_ids_of(t1).contains(x) <==> process_ids_of(
            es2,
        ).contains(x) by {
            if process_ids_of(es2).contains(x) {
                let j = choose|j: int| 0 <= j < es2.len() && process_ids_of(es2)[j] == x;
                if j < es.len() {
                    assert(process_ids_of(es)[j] == x);
                    assert(process_ids_of(es).contains(x));
                    assert(process_ids_of(t0).contains(x));
                    let i = choose|i: int| 0 <= i < t0.len() && process_ids_of(t0)[i] == x;
                    assert(process_ids_of(t1)[i] == x);
                } else {
                    assert(process_ids_of(t1)[t0.len() as int] == x);
                }
            }
            if process_ids_of(t1).contains(x) {
                let i = choose|i: int| 0 <= i < t1.len() && process_ids_of(t1)[i] == x;
                if i < t0.len() {
                    assert(process_ids_of(t0)[i] == x);
                    assert(process_ids_of(t0).contains(x));
                    assert(process_ids_of(es).contains(x));
                    let j = choose|j: int| 0 <= j < es.len() && process_ids_of(es)[j] == x;
                    assert(process_ids_of(es2)[j] == x);
                } else {
                    assert(process_ids_of(es2)[es.len() as int] == x);
                }
            }
        }
        assert forall|i: int| 0 <= i < t1.len() implies is_last_process(es2, #[trigger] t1[i]) by {
            if i == t0.len() {
                assert(es2[es.len() as int] == pv);
            } else {
                assert(t1[i] == t0[i]);
                let j = choose|j: int|
                    0 <= j < es.len() && es[j] == t0[i] && forall|j2: int|
                        j < j2 < es.len() ==> es[j2].id != t0[i].id;
                assert(es2[j] == t0[i]);
                assert forall|j2: int| j < j2 < es2.len() implies es2[j2].id != t1[i].id by {
                    if j2 < es.len() {
                        assert(es2[j2] == es[j2]);
                    }
                }
            }
        }
    }
}

fn upsert_source<F: Fn(SourceId) -> Duration>(
    t: &mut Vec<Source>,
    id: SourceId,
    source_time: &F,
    Ghost(ps): Ghost<Seq<ProcessView>>,
    Ghost(p): Ghost<ProcessView>,
)
    requires
        sources_for(sources_view(old(t)@), ps, *source_time),
        forall|sid: SourceId| call_requires(*source_time, (sid,)),
        id@ == p.source_id,
    ensures
        sources_for(sources_view(final(t)@), ps.push(p), *source_time),
{
    let ghost t0 = sources_view(t@);
    let ghost ps2 = ps.push(p);
    let ghost key = id@;
    let arg_id = id.clone();
    let ghost arg = arg_id;
    let capacity = source_time(arg_id);
    let mut k: usize = 0;
    assert(source_ids_used(ps2) =~= source_ids_used(ps).push(key));
    #[verifier::loop_isolation(false)]
    while k < t.len()
        invariant
            k <= t@.len(),
            t0 == sources_view(t@),
            key == id@,
            forall|i: int| 0 <= i < k ==> t0[i].id != key,
        decreases t@.len() - k,
    {
        if t[k].id.0 == id.0 {
            t.set(k, Source { id, capacity });
            proof {
                let t1 = sources_view(t@);
                assert(t1 =~= t0.update(k as int, SourceView { id: key, capacity }));
                assert(source_ids_of(t1) =~= source_ids_of(t0));
                assert(source_ids_of(t0)[k as int] == key);
                assert forall|x: Seq<char>| source_ids_of(t1).contains(x) <==> source_ids_used(
                    ps2,
                ).contains(x) by {
                    if source_ids_used(ps2).contains(x) {
                        let j = choose|j: int|
                            0 <= j < ps2.len() && source_ids_used(ps2)[j] == x;
                        if j < ps.len() {
                            assert(source_ids_used(ps)[j] == x);
                        }
                    }
                    if source_ids_of(t1).contains(x) {
                        assert(source_ids_used(ps).contains(x));
                        let j = choose|j: int| 0 <= j < ps.len() && source_ids_used(ps)[j] == x;
                        assert(source_ids_used(ps2)[j] == x);
                    }
                }
                assert forall|i: int| 0 <= i < t1.len() implies exists|sid: SourceId|
                    sid@ == t1[i].id && call_ensures(*source_time, (sid,), #[trigger] t1[i].capacity) by {
                    if i == k {
                        assert(arg@ == t1[i].id && call_ensures(*source_time, (arg,), t1[i].capacity));
                    } else {
                        assert(t1[i] == t0[i]);
                    }
                }
            }
            return ;
        }
        k = k + 1;
    }
    t.push(Source { id, capacity });
    proof {
        let t1 = sources_view(t@);
        assert(t1 =~= t0.push(SourceView { id: key, capacity }));
        assert(source_ids_of(t1) =~= source_ids_of(t0).push(key));
        assert(!source_ids_of(t0).contains(key)) by {
            if source_ids_of(t0).contains(key) {
                let i = choose|i: int| 0 <= i < t0.len() && source_ids_of(t0)[i] == key;
            }
        }
        assert forall|x: Seq<char>| source_ids_of(t1).contains(x) <==> source_ids_used(
            ps2,
        ).contains(x) by {
            if source_ids_used(ps2).contains(x) {
                let j = choose|j: int| 0 <= j < ps2.len() && source_ids_used(ps2)[j] == x;
                if j < ps.len() {
                    assert(source_ids_used(ps)[j] == x);
                    assert(source_ids_used(ps).contains(x));
                    assert(source_ids_of(t0).contains(x));
                    let i = choose|i: int| 0 <= i < t0.len() && source_ids_of(t0)[i] == x;
                    assert(source_ids_of(t1)[i] == x);
                } else {
                    assert(source_ids_of(t1)[t0.len() as int] == x);
                }
            }
            if source_ids_of(t1).contains(x) {
                let i = choose|i: int| 0 <= i < t1.len() && source_ids_of(t1)[i] == x;
                if i < t0.len() {
                    assert(source_ids_of(t0)[i] == x);
                    assert(source_ids_of(t0).contains(x));
                    assert(source_ids_used(ps).contains(x));
                    let j = choose|j: int| 0 <= j < ps.len() && source_ids_used(ps)[j] == x;
                    assert(source_ids_used(ps2)[j] == x);
                } else {
                    assert(source_ids_used(ps2)[ps.len() as int] == x);
                }
            }
        }
        assert forall|i: int| 0 <= i < t1.len() implies exists|sid: SourceId|
            sid@ == t1[i].id && call_ensures(*source_time, (sid,), #[trigger] t1[i].capacity) by {
            if i == t0.len() {
                assert(arg@ == t1[i].id && call_ensures(*source_time, (arg,), t1[i].capacity));
            } else {
                assert(t1[i] == t0[i]);
            }
        }
    }
}

/// Builds the registry from the rows of the goods list. Rows whose fields do not
/// all read are skipped; where several rows name the same good, the last one wins.
/// Each source that a process uses gets the capacity `source_time` gives for it.
pub fn create_registry<F: Fn(SourceId) -> Duration>(raw_goods: Vec<RawGood>, source_time: F) -> (r:
    Registry)
    requires
        forall|i: int| 0 <= i < raw_goods@.len() ==> time_fits(#[trigger] raw_goods@[i]@),
        forall|sid: SourceId| call_requires(source_time, (sid,)),
    ensures
        r.wf(),
        keeps_last_goods(r@.goods, entry_goods(entries_of(raws_view(raw_goods@)))),
        keeps_last_processes(r@.processes, entry_processes(entries_of(raws_view(raw_goods@)))),
        sources_for(r@.sources, entry_processes(entries_of(raws_view(raw_goods@))), source_time),
{
    let ghost raws = raws_view(raw_goods@);
    let mut goods: Vec<Good> = Vec::new();
    let mut processes: Vec<Process> = Vec::new();
    let mut sources: Vec<Source> = Vec::new();
    let mut i: usize = 0;
    proof {
        assert(raws.take(0) =~= Seq::<RawGoodView>::empty());
        assert(good_ids_of(goods_view(goods@)) =~= Seq::<Seq<char>>::empty());
        assert(process_ids_of(processes_view(processes@)) =~= Seq::<Seq<char>>::empty());
        assert(source_ids_of(sources_view(sources@)) =~= Seq::<Seq<char>>::empty());
        let es = entries_of(raws.take(0));
        assert(es =~= Seq::<(GoodView, ProcessView)>::empty());
        assert(good_ids_of(entry_goods(es)) =~= Seq::<Seq<char>>::empty());
        assert(process_ids_of(entry_processes(es)) =~= Seq::<Seq<char>>::empty());
        assert(source_ids_used(entry_processes(es)) =~= Seq::<Seq<char>>::empty());
    }
    while i < raw_goods.len()
        invariant
            raws == raws_view(raw_goods@),
            i <= raws.len(),
            forall|k: int| 0 <= k < raw_goods@.len() ==> time_fits(#[trigger] raw_goods@[k]@),
            forall|sid: SourceId| call_requires(source_time, (sid,)),
            keeps_last_goods(goods_view(goods@), entry_goods(entries_of(raws.take(i as int)))),
            keeps_last_processes(
                processes_view(processes@),
                entry_processes(entries_of(raws.take(i as int))),
            ),
            sources_for(
                sources_view(sources@),
                entry_processes(entries_of(raws.take(i as int))),
                source_time,
            ),
        decreases raws.len() - i,
    {
        let ghost es = entries_of(raws.take(i as int));
        assert(raws.take(i + 1).drop_last() =~= raws.take(i as int));
        assert(raws.take(i + 1).last() == raw_goods@[i as int]@);
        match parse_entry(&raw_goods[i]) {
            Some((g, p)) => {
                let ghost e = (g@, p@);
                assert(entries_of(raws.take(i + 1)) =~= es + seq![e]);
                assert(entry_goods(es + seq![e]) =~= entry_goods(es).push(g@));
                assert(entry_processes(es + seq![e]) =~= entry_processes(es).push(p@));
                upsert_source(
                    &mut sources,
                    p.source_id.clone(),
                    &source_time,
                    Ghost(entry_processes(es)),
                    Ghost(p@),
                );
                upsert_good(&mut goods, g, Ghost(entry_goods(es)));
                upsert_process(&mut processes, p, Ghost(entry_processes(es)));
            },
            None => {
                assert(entries_of(raws.take(i + 1)) =~= es);
            },
        }
        i = i + 1;
    }
    assert(raws.take(raws.len() as int) =~= raws);
    Registry { goods, processes, sources }
}


// ---------------------------------------------------------------------------
// Goods and processes come in pairs
// ---------------------------------------------------------------------------

/// A row's good and process share the row's title and source; the process makes one of
/// the good.
pub open spec fn paired(e: (GoodView, ProcessView)) -> bool {
    &&& e.0.id == e.1.id
    &&& e.1.source_id == e.0.source
    &&& e.1.product == (e.0.id, 1u64)
    &&& e.1.goods == seq![e.0]
}

proof fn lemma_entries_paired(raws: Seq<RawGoodView>)
    ensures
        forall|j: int| 0 <= j < entries_of(raws).len() ==> paired(#[trigger] entries_of(raws)[j]),
{
    let es = entries_of(raws);
    assert forall|j: int| 0 <= j < es.len() implies paired(#[trigger] es[j]) by {
        assert(es.contains(es[j]));
        raws.lemma_filter_map_contains(entry_fn(), es[j]);
        let r = choose|r: RawGoodView| #[trigger] raws.contains(r) && entry_fn()(r) == Some(es[j]);
        assert(entry_of(r) == Some(es[j]));
    }
}

/// In a registry built from rows (as `create_registry` builds it), goods and processes
/// come in pairs: a good and a process exist under the same names, the process of a
/// good runs on the good's source and makes one of it, and the source of every process
/// is among the sources.
pub proof fn law_registry_pairs<F: Fn(SourceId) -> Duration>(
    raws: Seq<RawGoodView>,
    reg: RegistryView,
    source_time: F,
)
    requires
        keeps_last_goods(reg.goods, entry_goods(entries_of(raws))),
        keeps_last_processes(reg.processes, entry_processes(entries_of(raws))),
        sources_for(reg.sources, entry_processes(entries_of(raws)), source_time),
    ensures
        forall|x: Seq<char>| good_ids_of(reg.goods).contains(x) <==> process_ids_of(reg.processes).contains(x),
        forall|k: int, m: int|
            0 <= k < reg.goods.len() && 0 <= m < reg.processes.len() && #[trigger] reg.goods[k].id
                == #[trigger] reg.processes[m].id ==> paired((reg.goods[k], reg.processes[m])),
        forall|m: int|
            0 <= m < reg.processes.len() ==> source_ids_of(reg.sources).contains(#[trigger] reg.processes[m].source_id),
{
    let es = entries_of(raws);
    let eg = entry_goods(es);
    let ep = entry_processes(es);
    lemma_entries_paired(raws);
    assert forall|x: Seq<char>| good_ids_of(eg).contains(x) <==> process_ids_of(ep).contains(x) by {
        if good_ids_of(eg).contains(x) {
            let j = choose|j: int| 0 <= j < good_ids_of(eg).len() && good_ids_of(eg)[j] == x;
            assert(paired(es[j]));
            assert(process_ids_of(ep)[j] == x);
        }
        if process_ids_of(ep).contains(x) {
            let j = choose|j: int| 0 <= j < process_ids_of(ep).len() && process_ids_of(ep)[j] == x;
            assert(paired(es[j]));
            assert(good_ids_of(eg)[j] == x);
        }
    }
    assert forall|k: int, m: int|
        0 <= k < reg.goods.len() && 0 <= m < reg.processes.len() && #[trigger] reg.goods[k].id
            == #[trigger] reg.processes[m].id implies paired((reg.goods[k], reg.processes[m])) by {
        let g = reg.goods[k];
        let p = reg.processes[m];
        assert(is_last_good(eg, g));
        assert(is_last_process(ep, p));
        let j = choose|j: int|
            0 <= j < eg.len() && eg[j] == g && forall|j2: int| j < j2 < eg.len() ==> eg[j2].id != g.id;
        let j2 = choose|j2: int|
            0 <= j2 < ep.len() && ep[j2] == p && forall|j3: int| j2 < j3 < ep.len() ==> ep[j3].id != p.id;
        assert(paired(es[j]));
        assert(paired(es[j2]));
        if j < j2 {
            assert(eg[j2].id == ep[j2].id);
        } else if j2 < j {
            assert(ep[j].id == eg[j].id);
        }
        assert(es[j] == (g, p));
    }
    assert forall|m: int| 0 <= m < reg.processes.len() implies source_ids_of(reg.sources).contains(
        #[trigger] reg.processes[m].source_id,
    ) by {
        let p = reg.processes[m];
        assert(is_last_process(ep, p));
        let j = choose|j: int|
            0 <= j < ep.len() && ep[j] == p && forall|j2: int| j < j2 < ep.len() ==> ep[j2].id != p.id;
        assert(source_ids_used(ep)[j] == p.source_id);
    }
}


/// A number written in decimal (as `decimal_string` writes it) reads back as itself.
pub proof fn law_parse_reads_decimal(n: u64)
    ensures
        std_parse_u64(decimal(n as nat)) == Some(n),
{
    lemma_decimal(n as nat);
    assert(is_digit(decimal(n as nat)[0]));
}


proof fn lemma_entries_add(a: Seq<RawGoodView>, b: Seq<RawGoodView>)
    ensures
        entries_of(a + b) == entries_of(a) + entries_of(b),
    decreases b.len(),
{
    if b.len() == 0 {
        assert(a + b =~= a);
        assert(entries_of(b) =~= Seq::<(GoodView, ProcessView)>::empty());
        assert(entries_of(a) + entries_of(b) =~= entries_of(a));
    } else {
        lemma_entries_add(a, b.drop_last());
        assert((a + b).drop_last() =~= a + b.drop_last());
        assert((a + b).last() == b.last());
        match entry_of(b.last()) {
            Some(e) => {
                assert(entries_of(a) + entries_of(b) =~= (entries_of(a) + entries_of(b.drop_last())) + seq![e]);
            },
            None => {},
        }
    }
}

/// A row that does not read (its source, a number or its time fails to parse, or its
/// ingredient list) is dropped: the registry is built from the same entries with the row
/// as without it.
pub proof fn law_unreadable_row_dropped(raws: Seq<RawGoodView>, i: int)
    requires
        0 <= i < raws.len(),
        entry_of(raws[i]) is None,
    ensures
        entries_of(raws) == entries_of(raws.remove(i)),
{
    let a = raws.take(i);
    let b = raws.skip(i + 1);
    assert(raws =~= a + seq![raws[i]] + b);
    assert(raws.remove(i) =~= a + b);
    lemma_entries_add(a + seq![raws[i]], b);
    lemma_entries_add(a, seq![raws[i]]);
    lemma_entries_add(a, b);
    let one = seq![raws[i]];
    assert(one.drop_last() =~= Seq::<RawGoodView>::empty());
    assert(one.last() == raws[i]);
    assert(entry_fn()(one.last()) is None);
    assert(one.drop_last().filter_map(entry_fn()) =~= Seq::<(GoodView, ProcessView)>::empty());
    assert(one.filter_map(entry_fn()) == one.drop_last().filter_map(entry_fn()));
    assert(entries_of(one) =~= Seq::<(GoodView, ProcessView)>::empty());
    assert(entries_of(a) + entries_of(one) =~= entries_of(a));
}


proof fn lemma_good_named_is(t: Seq<GoodView>, k: int)
    requires
        good_ids_of(t).no_duplicates(),
        0 <= k < t.len(),
    ensures
        good_named(t, t[k].id) == Some(t[k]),
    decreases t.len(),
{
    if k > 0 {
        assert(good_ids_of(t)[0] == t[0].id);
        assert(good_ids_of(t)[k] == t[k].id);
        assert(good_ids_of(t.drop_first()) =~= good_ids_of(t).drop_first());
        lemma_good_named_is(t.drop_first(), k - 1);
    }
}

proof fn lemma_good_named_none(t: Seq<GoodView>, x: Seq<char>)
    requires
        !good_ids_of(t).contains(x),
    ensures
        good_named(t, x) is None,
    decreases t.len(),
{
    if t.len() > 0 {
        assert(good_ids_of(t)[0] == t[0].id);
        assert(good_ids_of(t.drop_first()) =~= good_ids_of(t).drop_first());
        assert(!good_ids_of(t.drop_first()).contains(x)) by {
            if good_ids_of(t.drop_first()).contains(x) {
                let j = choose|j: int| 0 <= j < good_ids_of(t.drop_first()).len() && good_ids_of(t.drop_first())[j] == x;
                assert(good_ids_of(t)[j + 1] == x);
            }
        }
        lemma_good_named_none(t.drop_first(), x);
    }
}

proof fn lemma_process_named_is(t: Seq<ProcessView>, k: int)
    requires
        process_ids_of(t).no_duplicates(),
        0 <= k < t.len(),
    ensures
        process_named(t, t[k].id) == Some(t[k]),
    decreases t.len(),
{
    if k > 0 {
        assert(process_ids_of(t)[0] == t[0].id);
        assert(process_ids_of(t)[k] == t[k].id);
        assert(process_ids_of(t.drop_first()) =~= process_ids_of(t).drop_first());
        lemma_process_named_is(t.drop_first(), k - 1);
    }
}

proof fn lemma_process_named_none(t: Seq<ProcessView>, x: Seq<char>)
    requires
        !process_ids_of(t).contains(x),
    ensures
        process_named(t, x) is None,
    decreases t.len(),
{
    if t.len() > 0 {
        assert(process_ids_of(t)[0] == t[0].id);
        assert(process_ids_of(t.drop_first()) =~= process_ids_of(t).drop_first());
        assert(!process_ids_of(t.drop_first()).contains(x)) by {
            if process_ids_of(t.drop_first()).contains(x) {
                let j = choose|j: int| 0 <= j < process_ids_of(t.drop_first()).len() && process_ids_of(t.drop_first())[j] == x;
                assert(process_ids_of(t)[j + 1] == x);
            }
        }
        lemma_process_named_none(t.drop_first(), x);
    }
}

proof fn lemma_source_named_is(t: Seq<SourceView>, k: int)
    requires
        source_ids_of(t).no_duplicates(),
        0 <= k < t.len(),
    ensures
        source_named(t, t[k].id) == Some(t[k]),
    decreases t.len(),
{
    if k > 0 {
        assert(source_ids_of(t)[0] == t[0].id);
        assert(source_ids_of(t)[k] == t[k].id);
        assert(source_ids_of(t.drop_first()) =~= source_ids_of(t).drop_first());
        lemma_source_named_is(t.drop_first(), k - 1);
    }
}

proof fn lemma_source_named_none(t: Seq<SourceView>, x: Seq<char>)
    requires
        !source_ids_of(t).contains(x),
    ensures
        source_named(t, x) is None,
    decreases t.len(),
{
    if t.len() > 0 {
        assert(source_ids_of(t)[0] == t[0].id);
        assert(source_ids_of(t.drop_first()) =~= source_ids_of(t).drop_first());
        assert(!source_ids_of(t.drop_first()).contains(x)) by {
            if source_ids_of(t.drop_first()).contains(x) {
                let j = choose|j: int| 0 <= j < source_ids_of(t.drop_first()).len() && source_ids_of(t.drop_first())[j] == x;
                assert(source_ids_of(t)[j + 1] == x);
            }
        }
        lemma_source_named_none(t.drop_first(), x);
    }
}

proof fn lemma_same_goods(t1: Seq<GoodView>, t2: Seq<GoodView>, es: Seq<GoodView>)
    requires
        keeps_last_goods(t1, es),
        keeps_last_goods(t2, es),
    ensures
        forall|x: Seq<char>| #[trigger] good_named(t1, x) == good_named(t2, x),
{
    assert forall|x: Seq<char>| #[trigger] good_named(t1, x) == good_named(t2, x) by {
        if good_ids_of(t1).contains(x) {
            let k1 = choose|k1: int| 0 <= k1 < good_ids_of(t1).len() && good_ids_of(t1)[k1] == x;
            assert(good_ids_of(t2).contains(x));
            let k2 = choose|k2: int| 0 <= k2 < good_ids_of(t2).len() && good_ids_of(t2)[k2] == x;
            assert(is_last_good(es, t1[k1]));
            assert(is_last_good(es, t2[k2]));
            let j1 = choose|j: int| 0 <= j < es.len() && es[j] == t1[k1] && forall|j2: int| j < j2 < es.len() ==> es[j2].id != t1[k1].id;
            let j2 = choose|j: int| 0 <= j < es.len() && es[j] == t2[k2] && forall|j3: int| j < j3 < es.len() ==> es[j3].id != t2[k2].id;
            if j1 < j2 {
                assert(es[j2].id == x);
            } else if j2 < j1 {
                assert(es[j1].id == x);
            }
            lemma_good_named_is(t1, k1);
            lemma_good_named_is(t2, k2);
        } else {
            assert(!good_ids_of(t2).contains(x));
            lemma_good_named_none(t1, x);
            lemma_good_named_none(t2, x);
        }
    }
}

proof fn lemma_same_processes(t1: Seq<ProcessView>, t2: Seq<ProcessView>, es: Seq<ProcessView>)
    requires
        keeps_last_processes(t1, es),
        keeps_last_processes(t2, es),
    ensures
        forall|x: Seq<char>| #[trigger] process_named(t1, x) == process_named(t2, x),
{
    assert forall|x: Seq<char>| #[trigger] process_named(t1, x) == process_named(t2, x) by {
        if process_ids_of(t1).contains(x) {
            let k1 = choose|k1: int| 0 <= k1 < process_ids_of(t1).len() && process_ids_of(t1)[k1] == x;
            assert(process_ids_of(t2).contains(x));
            let k2 = choose|k2: int| 0 <= k2 < process_ids_of(t2).len() && process_ids_of(t2)[k2] == x;
            assert(is_last_process(es, t1[k1]));
            assert(is_last_process(es, t2[k2]));
            let j1 = choose|j: int| 0 <= j < es.len() && es[j] == t1[k1] && forall|j2: int| j < j2 < es.len() ==> es[j2].id != t1[k1].id;
            let j2 = choose|j: int| 0 <= j < es.len() && es[j] == t2[k2] && forall|j3: int| j < j3 < es.len() ==> es[j3].id != t2[k2].id;
            if j1 < j2 {
                assert(es[j2].id == x);
            } else if j2 < j1 {
                assert(es[j1].id == x);
            }
            lemma_process_named_is(t1, k1);
            lemma_process_named_is(t2, k2);
        } else {
            assert(!process_ids_of(t2).contains(x));
            lemma_process_named_none(t1, x);
            lemma_process_named_none(t2, x);
        }
    }
}

/// A row that does not read changes nothing in the registry built from the rows: with the
/// row and without it (`raws.remove(i)`), `create_registry` gives the same goods, the same
/// processes and the same sources, as maps from names, where `source_time` gives one
/// capacity per source name.
pub proof fn law_unreadable_row_leaves_registry<F: Fn(SourceId) -> Duration>(
    raws: Seq<RawGoodView>,
    i: int,
    r1: RegistryView,
    r2: RegistryView,
    source_time: F,
)
    requires
        0 <= i < raws.len(),
        entry_of(raws[i]) is None,
        keeps_last_goods(r1.goods, entry_goods(entries_of(raws))),
        keeps_last_processes(r1.processes, entry_processes(entries_of(raws))),
        sources_for(r1.sources, entry_processes(entries_of(raws)), source_time),
        keeps_last_goods(r2.goods, entry_goods(entries_of(raws.remove(i)))),
        keeps_last_processes(r2.processes, entry_processes(entries_of(raws.remove(i)))),
        sources_for(r2.sources, entry_processes(entries_of(raws.remove(i))), source_time),
        forall|a: SourceId, b: SourceId, c1: Duration, c2: Duration|
            a@ == b@ && #[trigger] call_ensures(source_time, (a,), c1) && #[trigger] call_ensures(
                source_time,
                (b,),
                c2,
            ) ==> c1 == c2,
    ensures
        forall|x: Seq<char>| #[trigger] good_named(r1.goods, x) == good_named(r2.goods, x),
        forall|x: Seq<char>| #[trigger] process_named(r1.processes, x) == process_named(r2.processes, x),
        forall|x: Seq<char>| #[trigger] source_named(r1.sources, x) == source_named(r2.sources, x),
{
    law_unreadable_row_dropped(raws, i);
    let es = entries_of(raws);
    lemma_same_goods(r1.goods, r2.goods, entry_goods(es));
    lemma_same_processes(r1.processes, r2.processes, entry_processes(es));
    let used = source_ids_used(entry_processes(es));
    assert forall|x: Seq<char>| #[trigger] source_named(r1.sources, x) == source_named(r2.sources, x) by {
        if source_ids_of(r1.sources).contains(x) {
            let k1 = choose|k1: int| 0 <= k1 < source_ids_of(r1.sources).len() && source_ids_of(r1.sources)[k1] == x;
            assert(source_ids_of(r2.sources).contains(x));
            let k2 = choose|k2: int| 0 <= k2 < source_ids_of(r2.sources).len() && source_ids_of(r2.sources)[k2] == x;
            let c1 = r1.sources[k1].capacity;
            let c2 = r2.sources[k2].capacity;
            let a = choose|sid: SourceId| sid@ == r1.sources[k1].id && call_ensures(source_time, (sid,), c1);
            let b = choose|sid: SourceId| sid@ == r2.sources[k2].id && call_ensures(source_time, (sid,), c2);
            assert(c1 == c2);
            lemma_source_named_is(r1.sources, k1);
            lemma_source_named_is(r2.sources, k2);
        } else {
            assert(!source_ids_of(r2.sources).contains(x));
            lemma_source_named_none(r1.sources, x);
            lemma_source_named_none(r2.sources, x);
        }
    }
}


proof fn lemma_total_seconds_add(a: Seq<TimeUnit>, b: Seq<TimeUnit>)
    ensures
        total_seconds(a + b) == total_seconds(a) + total_seconds(b),
    decreases b.len(),
{
    if b.len() == 0 {
        assert(a + b =~= a);
    } else {
        lemma_total_seconds_add(a, b.drop_last());
        assert((a + b).drop_last() =~= a + b.drop_last());
        assert((a + b).last() == b.last());
    }
}

/// Each time term counts its length in seconds: `n s` is `n`, `n min` is `60 * n`,
/// `n h` is `3600 * n` and `n d` is `86400 * n` seconds; no terms make no time; and the
/// length of a list of terms is the sum of the lengths of its parts.
pub proof fn law_time_in_seconds(n: u64, a: Seq<TimeUnit>, b: Seq<TimeUnit>)
    ensures
        total_seconds(seq![TimeUnit::Seconds(n)]) == n,
        total_seconds(seq![TimeUnit::Minutes(n)]) == 60 * n,
        total_seconds(seq![TimeUnit::Hours(n)]) == 3600 * n,
        total_seconds(seq![TimeUnit::Days(n)]) == 86400 * n,
        total_seconds(Seq::<TimeUnit>::empty()) == 0,
        total_seconds(a + b) == total_seconds(a) + total_seconds(b),
{
    reveal_with_fuel(total_seconds, 2);
    assert(seq![TimeUnit::Seconds(n)].drop_last() =~= Seq::<TimeUnit>::empty());
    assert(seq![TimeUnit::Minutes(n)].drop_last() =~= Seq::<TimeUnit>::empty());
    assert(seq![TimeUnit::Hours(n)].drop_last() =~= Seq::<TimeUnit>::empty());
    assert(seq![TimeUnit::Days(n)].drop_last() =~= Seq::<TimeUnit>::empty());
    lemma_total_seconds_add(a, b);
}

} // verus!
