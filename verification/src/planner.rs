use vstd::prelude::*;

use crate::dependency_graph::{first_index, lemma_first_index};
use crate::domain::{
    amounts_view, gids, pids, process_ids_of, processes_view, sources_view, GoodId, Process,
    ProcessId, ProcessView, ProductionPlan, Source, SourceView,
};
use crate::scenario::need_ids;
use crate::scheduler::{distinct_ids, lemma_distinct_ids, plan_ids, plan_view};

verus! {

// ---------------------------------------------------------------------------
// The production program
// ---------------------------------------------------------------------------

/// The goods of a (good, amount) table.
pub open spec fn keys(table: Seq<(Seq<char>, u64)>) -> Seq<Seq<char>> {
    table.map_values(|e: (Seq<char>, u64)| e.0)
}

/// The amount that a table gives for `g`: its first entry for `g`, if any.
pub open spec fn amount_of(table: Seq<(Seq<char>, u64)>, g: Seq<char>) -> Option<u64> {
    let i = first_index(keys(table), g);
    if i < table.len() {
        Some(table[i].1)
    } else {
        None
    }
}

/// One integer variable per distinct process id, in order of first appearance.
pub open spec fn plan_vars(ps: Seq<ProcessView>) -> Seq<Seq<char>> {
    distinct_ids(process_ids_of(ps))
}

/// The variable of the `k`-th process.
pub open spec fn process_var(ps: Seq<ProcessView>, k: int) -> int {
    first_index(plan_vars(ps), ps[k].id)
}

/// (variable, seconds) of each of the first `n` processes that run on source `sid`.
pub open spec fn capacity_terms(ps: Seq<ProcessView>, n: nat, sid: Seq<char>) -> Seq<(usize, u64)>
    decreases n,
{
    if n == 0 {
        Seq::empty()
    } else {
        let t = capacity_terms(ps, (n - 1) as nat, sid);
        let p = ps[n - 1];
        if p.source_id == sid {
            t.push((process_var(ps, n - 1) as usize, p.duration))
        } else {
            t
        }
    }
}

/// The positions, in order, of the first `n` processes that run on source `sid`.
pub open spec fn source_positions(ps: Seq<ProcessView>, n: nat, sid: Seq<char>) -> Seq<int> {
    Seq::new(n, |k: int| k).filter(|k: int| ps[k].source_id == sid)
}

/// The capacity term of the `k`-th process: its variable and its duration in seconds.
pub open spec fn capacity_term(ps: Seq<ProcessView>, k: int) -> (usize, u64) {
    (process_var(ps, k) as usize, ps[k].duration)
}

proof fn lemma_capacity_terms_filter(ps: Seq<ProcessView>, n: nat, sid: Seq<char>)
    requires
        n <= ps.len(),
    ensures
        capacity_terms(ps, n, sid) == source_positions(ps, n, sid).map_values(
            |k: int| capacity_term(ps, k),
        ),
    decreases n,
{
    reveal(Seq::filter);
    let pred = |k: int| ps[k].source_id == sid;
    let idx = Seq::new(n, |k: int| k);
    if n > 0 {
        lemma_capacity_terms_filter(ps, (n - 1) as nat, sid);
        assert(idx.drop_last() =~= Seq::new((n - 1) as nat, |k: int| k));
        let prev = source_positions(ps, (n - 1) as nat, sid);
        assert(idx.filter(pred) == if pred(idx.last()) {
            idx.drop_last().filter(pred).push(idx.last())
        } else {
            idx.drop_last().filter(pred)
        });
        if ps[n - 1].source_id == sid {
            assert(source_positions(ps, n, sid) == prev.push(n - 1));
            assert(prev.push(n - 1).map_values(|k: int| capacity_term(ps, k)) =~= prev.map_values(
                |k: int| capacity_term(ps, k),
            ).push(capacity_term(ps, n - 1)));
        } else {
            assert(source_positions(ps, n, sid) == prev);
        }
    } else {
        assert(source_positions(ps, 0, sid) =~= Seq::<int>::empty());
        assert(source_positions(ps, 0, sid).map_values(|k: int| capacity_term(ps, k)) =~= Seq::<
            (usize, u64),
        >::empty());
    }
}

proof fn lemma_source_position_in_range(ps: Seq<ProcessView>, n: nat, sid: Seq<char>, w: int)
    requires
        0 <= w < source_positions(ps, n, sid).len(),
    ensures
        0 <= source_positions(ps, n, sid)[w] < n,
{
    let idx = Seq::new(n, |k: int| k);
    let pos = source_positions(ps, n, sid);
    assert(pos.contains(pos[w]));
    idx.lemma_filter_contains_rev(|k: int| ps[k].source_id == sid, pos[w]);
    let j = choose|j: int| 0 <= j < idx.len() && idx[j] == pos[w];
    assert(idx[j] == j);
}

/// Every good that the processes mention, process by process: its needs, then its product.
pub open spec fn mentions(ps: Seq<ProcessView>) -> Seq<Seq<char>>
    decreases ps.len(),
{
    if ps.len() == 0 {
        Seq::empty()
    } else {
        mentions(ps.drop_last()) + need_ids(ps.last()) + seq![ps.last().product.0]
    }
}

/// The goods that the balance rows are about, each once.
pub open spec fn plan_goods(ps: Seq<ProcessView>) -> Seq<Seq<char>> {
    distinct_ids(mentions(ps))
}

/// How much of `g` one run of `p` uses (its first need of `g`).
pub open spec fn need_amount(p: ProcessView, g: Seq<char>) -> u64 {
    match amount_of(p.needs, g) {
        Some(a) => a,
        None => 0,
    }
}

/// The net amount of `g` that one run of `p` makes: its output of `g`, less its need of `g`.
pub open spec fn coefficient(p: ProcessView, g: Seq<char>) -> int {
    (if p.product.0 == g {
        p.product.1 as int
    } else {
        0
    }) - need_amount(p, g)
}

/// A source's row: the time that its processes take may not exceed its capacity.
pub struct CapacityRow {
    pub terms: Vec<(usize, u64)>,
    pub limit: u64,
}

/// A good's row: the net amount made, `sum(coefficient * variable)`, stays within the
/// requirement where there is one, and with the initial stock it is never negative.
pub struct BalanceRow {
    pub good: GoodId,
    pub terms: Vec<(usize, i128)>,
    pub requirement: Option<u64>,
    pub initial: u64,
}

/// The integer program that plans production. The objective weighs each process's
/// variable (`process_vars`) with that process's benefit, to be maximised.
pub struct PlanModel {
    pub vars: Vec<ProcessId>,
    pub process_vars: Vec<usize>,
    pub capacity: Vec<CapacityRow>,
    pub balance: Vec<BalanceRow>,
}

pub open spec fn is_plan_model(
    ps: Seq<ProcessView>,
    ss: Seq<SourceView>,
    inventory: Seq<(Seq<char>, u64)>,
    requirements: Seq<(Seq<char>, u64)>,
    m: PlanModel,
) -> bool {
    let gs = plan_goods(ps);
    &&& pids(m.vars@) == plan_vars(ps)
    &&& m.process_vars@ == Seq::new(ps.len(), |k: int| process_var(ps, k) as usize)
    &&& m.capacity@.len() == ss.len()
    &&& forall|i: int|
        0 <= i < ss.len() ==> (#[trigger] m.capacity@[i]).terms@ == capacity_terms(ps, ps.len(), ss[i].id)
            && m.capacity@[i].limit == ss[i].capacity
    &&& m.balance@.len() == gs.len()
    &&& forall|i: int|
        0 <= i < gs.len() ==> {
            &&& (#[trigger] m.balance@[i]).good@ == gs[i]
            &&& m.balance@[i].terms@ == Seq::new(
                ps.len(),
                |k: int| (process_var(ps, k) as usize, coefficient(ps[k], gs[i]) as i128),
            )
            &&& m.balance@[i].requirement == amount_of(requirements, gs[i])
            &&& m.balance@[i].initial == match amount_of(inventory, gs[i]) {
                Some(a) => a,
                None => 0u64,
            }
        }
}


/// Position of the first `id` in `names`.
fn process_position(names: &Vec<ProcessId>, id: &ProcessId) -> (r: Option<usize>)
    ensures
        match r {
            Some(v) => v == first_index(pids(names@), id@) && v < names@.len(),
            None => !pids(names@).contains(id@),
        },
{
    let ghost ids = pids(names@);
    let mut k: usize = 0;
    while k < names.len()
        invariant
            k <= names@.len(),
            ids == pids(names@),
            forall|j: int| 0 <= j < k ==> ids[j] != id@,
        decreases names@.len() - k,
    {
        assert(ids[k as int] == names@[k as int]@);
        if names[k].0 == id.0 {
            proof {
                lemma_first_index(ids, id@);
                assert(ids.contains(id@));
                if first_index(ids, id@) < k {
                    assert(ids[first_index(ids, id@)] == id@);
                }
            }
            return Some(k);
        }
        k = k + 1;
    }
    proof {
        assert(!ids.contains(id@)) by {
            if ids.contains(id@) {
                let j = choose|j: int| 0 <= j < ids.len() && ids[j] == id@;
            }
        }
    }
    None
}

/// Position of the first `id` in `names`.
fn good_position(names: &Vec<GoodId>, id: &GoodId) -> (r: Option<usize>)
    ensures
        match r {
            Some(v) => v == first_index(gids(names@), id@) && v < names@.len(),
            None => !gids(names@).contains(id@),
        },
{
    let ghost ids = gids(names@);
    let mut k: usize = 0;
    while k < names.len()
        invariant
            k <= names@.len(),
            ids == gids(names@),
            forall|j: int| 0 <= j < k ==> ids[j] != id@,
        decreases names@.len() - k,
    {
        assert(ids[k as int] == names@[k as int]@);
        if names[k].0 == id.0 {
            proof {
                lemma_first_index(ids, id@);
                assert(ids.contains(id@));
                if first_index(ids, id@) < k {
                    assert(ids[first_index(ids, id@)] == id@);
                }
            }
            return Some(k);
        }
        k = k + 1;
    }
    proof {
        assert(!ids.contains(id@)) by {
            if ids.contains(id@) {
                let j = choose|j: int| 0 <= j < ids.len() && ids[j] == id@;
            }
        }
    }
    None
}

/// The amount that `table` gives for `g`: its first entry for `g`.
fn amount_in(table: &[(GoodId, u64)], g: &GoodId) -> (r: Option<u64>)
    ensures
        r == amount_of(amounts_view(table@), g@),
{
    let ghost ks = keys(amounts_view(table@));
    let mut k: usize = 0;
    while k < table.len()
        invariant
            k <= table@.len(),
            ks == keys(amounts_view(table@)),
            forall|j: int| 0 <= j < k ==> ks[j] != g@,
        decreases table@.len() - k,
    {
        assert(ks[k as int] == table@[k as int].0@);
        if table[k].0.0 == g.0 {
            proof {
                lemma_first_index(ks, g@);
                assert(ks.contains(g@));
                if first_index(ks, g@) < k {
                    assert(ks[first_index(ks, g@)] == g@);
                }
            }
            return Some(table[k].1);
        }
        k = k + 1;
    }
    proof {
        lemma_first_index(ks, g@);
        assert(!ks.contains(g@)) by {
            if ks.contains(g@) {
                let j = choose|j: int| 0 <= j < ks.len() && ks[j] == g@;
            }
        }
    }
    None
}

/// The distinct process ids, in order of first appearance.
fn process_vars_of(processes: &[Process]) -> (r: Vec<ProcessId>)
    ensures
        pids(r@) == plan_vars(processes_view(processes@)),
{
    let ghost ids = process_ids_of(processes_view(processes@));
    let mut r: Vec<ProcessId> = Vec::new();
    let mut k: usize = 0;
    assert(ids.take(0) =~= Seq::<Seq<char>>::empty());
    assert(pids(r@) =~= Seq::<Seq<char>>::empty());
    while k < processes.len()
        invariant
            k <= processes@.len(),
            ids == process_ids_of(processes_view(processes@)),
            pids(r@) == distinct_ids(ids.take(k as int)),
        decreases processes@.len() - k,
    {
        assert(ids.take(k + 1).drop_last() =~= ids.take(k as int));
        assert(ids.take(k + 1).last() == processes@[k as int].id@);
        let ghost r0 = pids(r@);
        match process_position(&r, &processes[k].id) {
            Some(_) => {
                proof {
                    lemma_first_index(r0, processes@[k as int].id@);
                }
            },
            None => {
                r.push(ProcessId(processes[k].id.0.clone()));
                assert(pids(r@) =~= r0.push(processes@[k as int].id@));
            },
        }
        k = k + 1;
    }
    assert(ids.take(processes@.len() as int) =~= ids);
    r
}

/// The variable of each process.
fn process_var_list(processes: &[Process], vars: &Vec<ProcessId>) -> (r: Vec<usize>)
    requires
        pids(vars@) == plan_vars(processes_view(processes@)),
    ensures
        r@ == Seq::new(processes@.len(), |k: int| process_var(processes_view(processes@), k) as usize),
{
    let ghost ps = processes_view(processes@);
    let ghost ids = process_ids_of(ps);
    proof {
        lemma_distinct_ids(ids);
    }
    let mut r: Vec<usize> = Vec::new();
    let mut k: usize = 0;
    while k < processes.len()
        invariant
            k <= processes@.len(),
            ps == processes_view(processes@),
            ids == process_ids_of(ps),
            pids(vars@) == distinct_ids(ids),
            forall|x: Seq<char>| distinct_ids(ids).contains(x) <==> ids.contains(x),
            r@ == Seq::new(k as nat, |i: int| process_var(ps, i) as usize),
        decreases processes@.len() - k,
    {
        assert(ids[k as int] == ps[k as int].id);
        assert(ids.contains(ps[k as int].id));
        let v = match process_position(vars, &processes[k].id) {
            Some(v) => v,
            None => {
                assert(false);
                0
            },
        };
        r.push(v);
        assert(r@ =~= Seq::new((k + 1) as nat, |i: int| process_var(ps, i) as usize));
        k = k + 1;
    }
    r
}

/// The capacity row of each source.
fn capacity_rows(processes: &[Process], sources: &[Source], process_vars: &Vec<usize>) -> (r: Vec<CapacityRow>)
    requires
        process_vars@ == Seq::new(processes@.len(), |k: int| process_var(processes_view(processes@), k) as usize),
    ensures
        r@.len() == sources@.len(),
        forall|i: int|
            0 <= i < sources@.len() ==> (#[trigger] r@[i]).terms@ == capacity_terms(
                processes_view(processes@),
                processes@.len(),
                sources@[i].id@,
            ) && r@[i].limit == sources@[i].capacity,
{
    let ghost ps = processes_view(processes@);
    let mut r: Vec<CapacityRow> = Vec::new();
    let mut i: usize = 0;
    while i < sources.len()
        invariant
            i <= sources@.len(),
            ps == processes_view(processes@),
            process_vars@ == Seq::new(processes@.len(), |k: int| process_var(ps, k) as usize),
            r@.len() == i,
            forall|j: int|
                0 <= j < i ==> (#[trigger] r@[j]).terms@ == capacity_terms(ps, processes@.len(), sources@[j].id@)
                    && r@[j].limit == sources@[j].capacity,
        decreases sources@.len() - i,
    {
        let sid = &sources[i].id;
        let mut terms: Vec<(usize, u64)> = Vec::new();
        let mut k: usize = 0;
        while k < processes.len()
            invariant
                k <= processes@.len(),
                ps == processes_view(processes@),
                process_vars@ == Seq::new(processes@.len(), |k: int| process_var(ps, k) as usize),
                terms@ == capacity_terms(ps, k as nat, sid@),
            decreases processes@.len() - k,
        {
            if processes[k].source_id.0 == sid.0 {
                terms.push((process_vars[k], processes[k].duration));
            }
            k = k + 1;
        }
        r.push(CapacityRow { terms, limit: sources[i].capacity });
        i = i + 1;
    }
    r
}


/// Appends `g` to a list of distinct goods unless it is there already.
fn add_good(r: &mut Vec<GoodId>, g: &GoodId, Ghost(s): Ghost<Seq<Seq<char>>>)
    requires
        gids(old(r)@) == distinct_ids(s),
    ensures
        gids(final(r)@) == distinct_ids(s.push(g@)),
{
    assert(s.push(g@).drop_last() =~= s);
    let ghost r0 = gids(r@);
    match good_position(r, g) {
        Some(_) => {
            proof {
                lemma_first_index(r0, g@);
            }
        },
        None => {
            r.push(GoodId(g.0.clone()));
            assert(gids(r@) =~= r0.push(g@));
        },
    }
}

/// The goods that the processes mention, each once, in order of first mention.
fn goods_mentioned(processes: &[Process]) -> (r: Vec<GoodId>)
    ensures
        gids(r@) == plan_goods(processes_view(processes@)),
{
    let ghost ps = processes_view(processes@);
    let mut r: Vec<GoodId> = Vec::new();
    let mut k: usize = 0;
    assert(ps.take(0) =~= Seq::<ProcessView>::empty());
    assert(gids(r@) =~= Seq::<Seq<char>>::empty());
    while k < processes.len()
        invariant
            k <= processes@.len(),
            ps == processes_view(processes@),
            gids(r@) == distinct_ids(mentions(ps.take(k as int))),
        decreases processes@.len() - k,
    {
        let ghost m0 = mentions(ps.take(k as int));
        let ghost ns = need_ids(ps[k as int]);
        let p = &processes[k];
        let mut j: usize = 0;
        assert(m0 + ns.take(0) =~= m0);
        while j < p.needs.len()
            invariant
                k < processes@.len(),
                j <= p.needs@.len(),
                ps == processes_view(processes@),
                *p == processes@[k as int],
                ns == need_ids(ps[k as int]),
                ns.len() == p.needs@.len(),
                gids(r@) == distinct_ids(m0 + ns.take(j as int)),
            decreases p.needs@.len() - j,
        {
            assert(ns[j as int] == p.needs@[j as int].0@);
            assert(m0 + ns.take(j + 1) =~= (m0 + ns.take(j as int)).push(p.needs@[j as int].0@));
            add_good(&mut r, &p.needs[j].0, Ghost(m0 + ns.take(j as int)));
            j = j + 1;
        }
        assert(ns.take(ns.len() as int) =~= ns);
        add_good(&mut r, &p.product.0, Ghost(m0 + ns));
        proof {
            let t1 = ps.take(k + 1);
            assert(t1.drop_last() =~= ps.take(k as int));
            assert(t1.last() == ps[k as int]);
            assert(mentions(t1) =~= (m0 + ns).push(p.product.0@));
        }
        k = k + 1;
    }
    assert(ps.take(processes@.len() as int) =~= ps);
    r
}

/// The balance row of each good.
fn balance_rows(
    processes: &[Process],
    goods: &Vec<GoodId>,
    process_vars: &Vec<usize>,
    initial_inventory: &[(GoodId, u64)],
    requirements: &[(GoodId, u64)],
) -> (r: Vec<BalanceRow>)
    requires
        process_vars@ == Seq::new(processes@.len(), |k: int| process_var(processes_view(processes@), k) as usize),
    ensures
        r@.len() == goods@.len(),
        forall|i: int|
            0 <= i < goods@.len() ==> {
                &&& (#[trigger] r@[i]).good@ == goods@[i]@
                &&& r@[i].terms@ == Seq::new(
                    processes@.len(),
                    |k: int| (
                        process_var(processes_view(processes@), k) as usize,
                        coefficient(processes_view(processes@)[k], goods@[i]@) as i128,
                    ),
                )
                &&& r@[i].requirement == amount_of(amounts_view(requirements@), goods@[i]@)
                &&& r@[i].initial == match amount_of(amounts_view(initial_inventory@), goods@[i]@) {
                    Some(a) => a,
                    None => 0u64,
                }
            },
{
    let ghost ps = processes_view(processes@);
    let mut r: Vec<BalanceRow> = Vec::new();
    let mut i: usize = 0;
    while i < goods.len()
        invariant
            i <= goods@.len(),
            ps == processes_view(processes@),
            process_vars@ == Seq::new(processes@.len(), |k: int| process_var(ps, k) as usize),
            r@.len() == i,
            forall|j: int|
                0 <= j < i ==> {
                    &&& (#[trigger] r@[j]).good@ == goods@[j]@
                    &&& r@[j].terms@ == Seq::new(
                        processes@.len(),
                        |k: int| (process_var(ps, k) as usize, coefficient(ps[k], goods@[j]@) as i128),
                    )
                    &&& r@[j].requirement == amount_of(amounts_view(requirements@), goods@[j]@)
                    &&& r@[j].initial == match amount_of(amounts_view(initial_inventory@), goods@[j]@) {
                        Some(a) => a,
                        None => 0u64,
                    }
                },
        decreases goods@.len() - i,
    {
        let g = &goods[i];
        let mut terms: Vec<(usize, i128)> = Vec::new();
        let mut k: usize = 0;
        while k < processes.len()
            invariant
                k <= processes@.len(),
                ps == processes_view(processes@),
                process_vars@ == Seq::new(processes@.len(), |k: int| process_var(ps, k) as usize),
                terms@ == Seq::new(k as nat, |j: int| (process_var(ps, j) as usize, coefficient(ps[j], g@) as i128)),
            decreases processes@.len() - k,
        {
            let p = &processes[k];
            let need: u64 = match amount_in(p.needs.as_slice(), g) {
                Some(a) => a,
                None => 0,
            };
            let made: i128 = if p.product.0.0 == g.0 {
                p.product.1 as i128
            } else {
                0
            };
            let c: i128 = made - need as i128;
            assert(c == coefficient(ps[k as int], g@));
            terms.push((process_vars[k], c));
            assert(terms@ =~= Seq::new(
                (k + 1) as nat,
                |j: int| (process_var(ps, j) as usize, coefficient(ps[j], g@) as i128),
            ));
            k = k + 1;
        }
        let requirement = amount_in(requirements, g);
        let initial: u64 = match amount_in(initial_inventory, g) {
            Some(a) => a,
            None => 0,
        };
        r.push(BalanceRow { good: GoodId(g.0.clone()), terms, requirement, initial });
        i = i + 1;
    }
    r
}

/// The production program for `processes` under `sources`, with the stock held at the
/// start and the caps on how much of a good to make. A table lists each good once; where
/// it does not, its first entry for a good counts.
pub fn production_model(
    processes: &[Process],
    sources: &[Source],
    initial_inventory: &[(GoodId, u64)],
    requirements: &[(GoodId, u64)],
) -> (m: PlanModel)
    ensures
        is_plan_model(
            processes_view(processes@),
            sources_view(sources@),
            amounts_view(initial_inventory@),
            amounts_view(requirements@),
            m,
        ),
{
    let vars = process_vars_of(processes);
    let process_vars = process_var_list(processes, &vars);
    let capacity = capacity_rows(processes, sources, &process_vars);
    let goods = goods_mentioned(processes);
    let balance = balance_rows(processes, &goods, &process_vars, initial_inventory, requirements);
    PlanModel { vars, process_vars, capacity, balance }
}

/// The plan that a solution gives: each variable's process id with the value that the
/// variable took.
pub open spec fn solution_plan(m: PlanModel, values: Seq<u64>) -> Seq<(Seq<char>, u64)> {
    Seq::new(m.vars@.len(), |v: int| (m.vars@[v]@, values[v]))
}

impl PlanModel {
    /// The plan that a solution gives, from the value of each variable: each distinct
    /// process id with the count that its variable took.
    pub fn plan_from(&self, values: &Vec<u64>) -> (r: ProductionPlan)
        requires
            values@.len() == self.vars@.len(),
        ensures
            plan_view(r) == solution_plan(*self, values@),
    {
        let mut counts: Vec<(ProcessId, u64)> = Vec::new();
        let mut v: usize = 0;
        while v < self.vars.len()
            invariant
                v <= self.vars@.len(),
                values@.len() == self.vars@.len(),
                counts@.len() == v,
                counts@.map_values(|e: (ProcessId, u64)| (e.0@, e.1)) == Seq::new(
                    v as nat,
                    |i: int| (self.vars@[i]@, values@[i]),
                ),
            decreases self.vars@.len() - v,
        {
            let ghost c0 = counts@;
            let id = ProcessId(self.vars[v].0.clone());
            assert(id@ == self.vars@[v as int]@);
            counts.push((id, values[v]));
            assert forall|i: int| 0 <= i < v implies counts@[i] == c0[i] && (counts@[i].0@, counts@[i].1) == (
                self.vars@[i]@,
                values@[i],
            ) by {
                assert(c0.map_values(|e: (ProcessId, u64)| (e.0@, e.1))[i] == (self.vars@[i]@, values@[i]));
            }
            assert(counts@.map_values(|e: (ProcessId, u64)| (e.0@, e.1)) =~= Seq::new(
                (v + 1) as nat,
                |i: int| (self.vars@[i]@, values@[i]),
            ));
            v = v + 1;
        }
        ProductionPlan { counts }
    }
}


/// The plan read from a solution of a production program has exactly one count per
/// process id: each process's id once, and no other (as `generate_jobs` needs it).
pub proof fn law_solution_plan_is_wf(
    ps: Seq<ProcessView>,
    ss: Seq<SourceView>,
    inventory: Seq<(Seq<char>, u64)>,
    requirements: Seq<(Seq<char>, u64)>,
    m: PlanModel,
    values: Seq<u64>,
)
    requires
        is_plan_model(ps, ss, inventory, requirements, m),
        values.len() == m.vars@.len(),
    ensures
        plan_ids(solution_plan(m, values)).no_duplicates(),
        forall|x: Seq<char>|
            #[trigger] plan_ids(solution_plan(m, values)).contains(x)
                <==> process_ids_of(ps).contains(x),
{
    lemma_distinct_ids(process_ids_of(ps));
    assert(plan_ids(solution_plan(m, values)) =~= pids(m.vars@));
}

/// Each source's capacity row holds one term (variable, seconds) for every process that
/// runs on that source, in process order, and no other term: no such process is left out.
pub proof fn law_capacity_rows_cover_source(
    ps: Seq<ProcessView>,
    ss: Seq<SourceView>,
    inventory: Seq<(Seq<char>, u64)>,
    requirements: Seq<(Seq<char>, u64)>,
    m: PlanModel,
)
    requires
        is_plan_model(ps, ss, inventory, requirements, m),
    ensures
        forall|i: int|
            0 <= i < ss.len() ==> (#[trigger] m.capacity@[i]).terms@ == source_positions(
                ps,
                ps.len(),
                ss[i].id,
            ).map_values(|k: int| capacity_term(ps, k)),
        forall|i: int, k: int|
            0 <= i < ss.len() && 0 <= k < ps.len() && ps[k].source_id == ss[i].id
                ==> (#[trigger] m.capacity@[i]).terms@.contains(#[trigger] capacity_term(ps, k)),
        forall|i: int, t: (usize, u64)|
            0 <= i < ss.len() && #[trigger] m.capacity@[i].terms@.contains(t) ==> exists|k: int|
                0 <= k < ps.len() && ps[k].source_id == ss[i].id && t == #[trigger] capacity_term(
                    ps,
                    k,
                ),
{
    assert forall|i: int| 0 <= i < ss.len() implies (#[trigger] m.capacity@[i]).terms@
        == source_positions(ps, ps.len(), ss[i].id).map_values(|k: int| capacity_term(ps, k)) by {
        lemma_capacity_terms_filter(ps, ps.len(), ss[i].id);
    }
    assert forall|i: int, k: int|
        0 <= i < ss.len() && 0 <= k < ps.len() && ps[k].source_id == ss[i].id
            implies (#[trigger] m.capacity@[i]).terms@.contains(#[trigger] capacity_term(ps, k)) by {
        let sid = ss[i].id;
        let idx = Seq::new(ps.len(), |j: int| j);
        let pos = source_positions(ps, ps.len(), sid);
        lemma_capacity_terms_filter(ps, ps.len(), sid);
        idx.lemma_filter_contains(|j: int| ps[j].source_id == sid, k);
        let w = choose|w: int| 0 <= w < pos.len() && pos[w] == k;
        assert(m.capacity@[i].terms@[w] == capacity_term(ps, k));
    }
    assert forall|i: int, t: (usize, u64)|
        0 <= i < ss.len() && #[trigger] m.capacity@[i].terms@.contains(t) implies exists|k: int|
            0 <= k < ps.len() && ps[k].source_id == ss[i].id && t == #[trigger] capacity_term(ps, k) by {
        let sid = ss[i].id;
        let idx = Seq::new(ps.len(), |j: int| j);
        let pos = source_positions(ps, ps.len(), sid);
        lemma_capacity_terms_filter(ps, ps.len(), sid);
        let w = choose|w: int| 0 <= w < m.capacity@[i].terms@.len() && m.capacity@[i].terms@[w] == t;
        idx.lemma_filter_pred(|j: int| ps[j].source_id == sid, w);
        lemma_source_position_in_range(ps, ps.len(), sid, w);
        assert(t == capacity_term(ps, pos[w]));
    }
}

} // verus!
