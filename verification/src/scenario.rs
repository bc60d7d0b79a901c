use vstd::prelude::*;

use crate::domain::{
    contains_good, contains_process, contains_source, copy_good_ids, copy_source_ids, gids,
    good_ids_of, good_named, pids, process_ids_of, processes_view, sids, source_named,
    sources_view, GoodId, GoodView, Process, ProcessId, ProcessView, Registry, Scenario,
    ScenarioView, Source, SourceId, SourceView, Good,
};

verus! {

// ---------------------------------------------------------------------------
// Which processes a scenario needs
// ---------------------------------------------------------------------------

pub open spec fn need_ids(p: ProcessView) -> Seq<Seq<char>> {
    p.needs.map_values(|x: (Seq<char>, u64)| x.0)
}

/// A process can run in the scenario: its source is enabled and the good it is named
/// after is known and within the level limit.
pub open spec fn fires(m: ScenarioView, p: ProcessView) -> bool {
    &&& m.enabled.contains(p.source_id)
    &&& exists|k: int|
        0 <= k < m.registry.goods.len() && #[trigger] m.registry.goods[k].id == p.id
            && m.registry.goods[k].level <= m.level
}

/// `g` is a target, or an ingredient of a runnable process whose good is reached
/// in fewer steps.
pub open spec fn reached_within(m: ScenarioView, g: Seq<char>, n: nat) -> bool
    decreases n,
{
    ||| m.targets.contains(g)
    ||| n > 0 && exists|j: int|
        0 <= j < m.registry.processes.len() && fires(m, #[trigger] m.registry.processes[j])
            && reached_within(m, m.registry.processes[j].id, (n - 1) as nat) && need_ids(
            m.registry.processes[j],
        ).contains(g)
}

/// `g` has to be produced to make the scenario's targets.
pub open spec fn required(m: ScenarioView, g: Seq<char>) -> bool {
    exists|n: nat| reached_within(m, g, n)
}

/// A process the scenario uses: it makes a required good and it can run.
pub open spec fn selected(m: ScenarioView, p: ProcessView) -> bool {
    required(m, p.id) && fires(m, p)
}

/// The registry's sources named in `enabled`, in the order of `enabled`; names with no
/// source are skipped.
pub open spec fn enabled_sources_in(s: Seq<SourceView>, enabled: Seq<Seq<char>>) -> Seq<
    SourceView,
> {
    enabled.filter_map(source_lookup(s))
}

pub open spec fn source_lookup(s: Seq<SourceView>) -> spec_fn(Seq<char>) -> Option<SourceView> {
    |id: Seq<char>| source_named(s, id)
}

pub open spec fn selected_pred(m: ScenarioView) -> spec_fn(ProcessView) -> bool {
    |p: ProcessView| selected(m, p)
}

/// With distinct names, the good found by name is the one with that name.
proof fn lemma_good_named_unique(g: Seq<GoodView>, k: int)
    requires
        good_ids_of(g).no_duplicates(),
        0 <= k < g.len(),
    ensures
        good_named(g, g[k].id) == Some(g[k]),
    decreases g.len(),
{
    if k > 0 {
        assert(good_ids_of(g)[0] == g[0].id);
        assert(good_ids_of(g)[k] == g[k].id);
        assert(good_ids_of(g.drop_first()) =~= good_ids_of(g).drop_first());
        lemma_good_named_unique(g.drop_first(), k - 1);
    }
}

proof fn lemma_reach_step(m: ScenarioView, j: int, n: nat, g: Seq<char>)
    requires
        0 <= j < m.registry.processes.len(),
        fires(m, m.registry.processes[j]),
        reached_within(m, m.registry.processes[j].id, n),
        need_ids(m.registry.processes[j]).contains(g),
    ensures
        reached_within(m, g, n + 1),
{
    assert(((n + 1) - 1) as nat == n);
}

/// Every set that holds the targets and is closed under the ingredients of its
/// runnable processes holds every required good.
proof fn lemma_required_in_closed_set(m: ScenarioView, r: Set<Seq<char>>, g: Seq<char>, n: nat)
    requires
        forall|x: Seq<char>| m.targets.contains(x) ==> r.contains(x),
        forall|j: int|
            0 <= j < m.registry.processes.len() && r.contains(m.registry.processes[j].id) && fires(
                m,
                #[trigger] m.registry.processes[j],
            ) ==> forall|x: Seq<char>| need_ids(m.registry.processes[j]).contains(x) ==> r.contains(x),
        reached_within(m, g, n),
    ensures
        r.contains(g),
    decreases n,
{
    if !m.targets.contains(g) {
        let j = choose|j: int|
            0 <= j < m.registry.processes.len() && fires(m, #[trigger] m.registry.processes[j])
                && reached_within(m, m.registry.processes[j].id, (n - 1) as nat) && need_ids(
                m.registry.processes[j],
            ).contains(g);
        lemma_required_in_closed_set(m, r, m.registry.processes[j].id, (n - 1) as nat);
    }
}

/// A distinct list of ids drawn from `universe` is no longer than `universe`.
proof fn lemma_distinct_subset_len(s: Seq<Seq<char>>, universe: Seq<Seq<char>>)
    requires
        s.no_duplicates(),
        forall|x: Seq<char>| s.contains(x) ==> universe.contains(x),
    ensures
        s.len() <= universe.len(),
{
    s.unique_seq_to_set();
    universe.lemma_cardinality_of_set();
    vstd::seq_lib::seq_to_set_is_finite(universe);
    assert(s.to_set().subset_of(universe.to_set()));
    vstd::set_lib::lemma_len_subset(s.to_set(), universe.to_set());
}

impl<'a> Scenario<'a> {
    /// Everything that the scenario needs: the processes that make required goods
    /// and can run (in registry order), and the enabled sources the registry knows
    /// (in the order they were enabled).
    pub fn collect(self) -> (r: (Vec<Process>, Vec<Source>))
        requires
            self.wf(),
        ensures
            processes_view(r.0@) == self@.registry.processes.filter(selected_pred(self@)),
            sources_view(r.1@) == enabled_sources_in(self@.registry.sources, self@.enabled),
    {
        let ghost m = self@;
        let reg = self.registry;
        let ghost procs = m.registry.processes;
        let n = reg.processes.len();
        let mut wanted: Vec<GoodId> = copy_good_ids(&self.target_goods);
        let mut queue: Vec<GoodId> = copy_good_ids(&self.target_goods);
        let mut seen: Vec<ProcessId> = Vec::new();
        proof {
            assert(pids(seen@) =~= Seq::<Seq<char>>::empty());
            assert forall|x: Seq<char>| gids(wanted@).contains(x) implies required(m, x) by {
                assert(reached_within(m, x, 0));
            }
        }
        loop
            invariant
                m == self@,
                m.wf(),
                procs == m.registry.processes,
                reg == self.registry,
                n == procs.len(),
                gids(wanted@).no_duplicates(),
                gids(queue@).no_duplicates(),
                pids(seen@).no_duplicates(),
                seen@.len() <= n,
                forall|x: Seq<char>| gids(queue@).contains(x) ==> gids(wanted@).contains(x),
                forall|x: Seq<char>| m.targets.contains(x) ==> gids(wanted@).contains(x),
                forall|x: Seq<char>| gids(wanted@).contains(x) ==> required(m, x),
                forall|x: Seq<char>| pids(seen@).contains(x) ==> process_ids_of(procs).contains(x),
                forall|i: int|
                    0 <= i < n && pids(seen@).contains(#[trigger] procs[i].id) ==> {
                        &&& fires(m, procs[i])
                        &&& gids(wanted@).contains(procs[i].id)
                        &&& forall|x: Seq<char>|
                            need_ids(procs[i]).contains(x) ==> gids(wanted@).contains(x)
                    },
                forall|i: int|
                    0 <= i < n && gids(wanted@).contains(#[trigger] procs[i].id) && !gids(
                        queue@,
                    ).contains(procs[i].id) && fires(m, procs[i]) ==> pids(seen@).contains(
                        procs[i].id,
                    ),
            ensures
                queue@.len() == 0,
                m == self@,
                m.wf(),
                procs == m.registry.processes,
                reg == self.registry,
                n == procs.len(),
                forall|x: Seq<char>| m.targets.contains(x) ==> gids(wanted@).contains(x),
                forall|x: Seq<char>| gids(wanted@).contains(x) ==> required(m, x),
                forall|i: int|
                    0 <= i < n && pids(seen@).contains(#[trigger] procs[i].id) ==> {
                        &&& fires(m, procs[i])
                        &&& gids(wanted@).contains(procs[i].id)
                        &&& forall|x: Seq<char>|
                            need_ids(procs[i]).contains(x) ==> gids(wanted@).contains(x)
                    },
                forall|i: int|
                    0 <= i < n && gids(wanted@).contains(#[trigger] procs[i].id) && fires(
                        m,
                        procs[i],
                    ) ==> pids(seen@).contains(procs[i].id),
            decreases n - seen@.len(), queue@.len(),
        {
            let ghost queue0 = queue@;
            let good_id = match queue.pop() {
                Some(g) => g,
                None => {
                    assert(gids(queue@) =~= Seq::<Seq<char>>::empty());
                    break ;
                },
            };
            proof {
                assert(queue0 =~= queue@.push(good_id));
                assert(gids(queue0) =~= gids(queue@).push(good_id@));
                assert(gids(queue0).contains(good_id@)) by {
                    assert(gids(queue0)[queue@.len() as int] == good_id@);
                }
                assert forall|x: Seq<char>| gids(queue@).contains(x) implies gids(queue0).contains(
                    x,
                ) by {
                    let i = choose|i: int| 0 <= i < gids(queue@).len() && gids(queue@)[i] == x;
                    assert(gids(queue0)[i] == x);
                }
                assert(!gids(queue@).contains(good_id@)) by {
                    if gids(queue@).contains(good_id@) {
                        let i = choose|i: int|
                            0 <= i < gids(queue@).len() && gids(queue@)[i] == good_id@;
                        assert(gids(queue0)[i] == gids(queue0)[queue@.len() as int]);
                    }
                }
                assert(gids(queue@).no_duplicates()) by {
                    assert forall|a: int, b: int|
                        0 <= a < gids(queue@).len() && 0 <= b < gids(queue@).len() && a
                            != b implies gids(queue@)[a] != gids(queue@)[b] by {
                        assert(gids(queue@)[a] == gids(queue0)[a]);
                        assert(gids(queue@)[b] == gids(queue0)[b]);
                    }
                }
            }
            let ghost seen_before = seen@.len();
            let mut j: usize = 0;
            while j < n
                invariant
                    m == self@,
                    m.wf(),
                    procs == m.registry.processes,
                    reg == self.registry,
                    n == procs.len(),
                    j <= n,
                    seen_before <= seen@.len(),
                    gids(wanted@).contains(good_id@),
                    !gids(queue@).contains(good_id@),
                    queue@.len() < queue0.len() || seen_before < seen@.len(),
                    gids(wanted@).no_duplicates(),
                    gids(queue@).no_duplicates(),
                    pids(seen@).no_duplicates(),
                    seen@.len() <= n,
                    forall|x: Seq<char>| gids(queue@).contains(x) ==> gids(wanted@).contains(x),
                    forall|x: Seq<char>| m.targets.contains(x) ==> gids(wanted@).contains(x),
                    forall|x: Seq<char>| gids(wanted@).contains(x) ==> required(m, x),
                    forall|x: Seq<char>|
                        pids(seen@).contains(x) ==> process_ids_of(procs).contains(x),
                    forall|i: int|
                        0 <= i < n && pids(seen@).contains(#[trigger] procs[i].id) ==> {
                            &&& fires(m, procs[i])
                            &&& gids(wanted@).contains(procs[i].id)
                            &&& forall|x: Seq<char>|
                                need_ids(procs[i]).contains(x) ==> gids(wanted@).contains(x)
                        },
                    forall|i: int|
                        0 <= i < n && gids(wanted@).contains(#[trigger] procs[i].id) && !gids(
                            queue@,
                        ).contains(procs[i].id) && fires(m, procs[i]) && (procs[i].id != good_id@
                            || i < j) ==> pids(seen@).contains(procs[i].id),
                decreases n - j,
            {
                let p = &reg.processes[j];
                assert(procs[j as int] == p@);
                if p.id.0 == good_id.0 {
                    let source_ok = contains_source(&self.enabled_sources, &p.source_id);
                    let level_ok = match reg.find_good(&good_id) {
                        Some(k) => reg.goods[k].level <= self.level,
                        None => false,
                    };
                    proof {
                        if fires(m, p@) {
                            let k = choose|k: int|
                                0 <= k < m.registry.goods.len() && #[trigger] m.registry.goods[k].id
                                    == p@.id && m.registry.goods[k].level <= m.level;
                            lemma_good_named_unique(m.registry.goods, k);
                        }
                    }
                    if source_ok && level_ok && !contains_process(&seen, &p.id) {
                        let ghost r0 = wanted@;
                        let ghost q0 = queue@;
                        proof {
                            assert(fires(m, procs[j as int])) by {
                                let k = choose|k: int|
                                    0 <= k < reg.goods@.len() && reg.goods@[k]@.id == good_id@
                                        && reg.goods@[k]@.level <= self.level;
                                assert(m.registry.goods[k].id == procs[j as int].id);
                            }
                        }
                        assert(required(m, good_id@));
                        assert(forall|i: int|
                            0 <= i < n && pids(seen@).contains(#[trigger] procs[i].id) ==> {
                                &&& fires(m, procs[i])
                                &&& gids(r0).contains(procs[i].id)
                                &&& forall|x: Seq<char>|
                                    need_ids(procs[i]).contains(x) ==> gids(r0).contains(x)
                            });
                        let ghost n0 = choose|n0: nat| reached_within(m, good_id@, n0);
                        let mut k: usize = 0;
                        #[verifier::loop_isolation(false)]
                        while k < p.needs.len()
                            invariant
                                m == self@,
                                m.wf(),
                                procs == m.registry.processes,
                                n == procs.len(),
                                j < n,
                                p@ == procs[j as int],
                                p@.id == good_id@,
                                fires(m, procs[j as int]),
                                reached_within(m, good_id@, n0),
                                k <= p.needs@.len(),
                                gids(wanted@).contains(good_id@),
                                !gids(queue@).contains(good_id@),
                                gids(wanted@).no_duplicates(),
                                gids(queue@).no_duplicates(),
                                forall|x: Seq<char>|
                                    gids(queue@).contains(x) ==> gids(wanted@).contains(x),
                                forall|x: Seq<char>|
                                    gids(wanted@).contains(x) ==> required(m, x),
                                forall|i: int|
                                    0 <= i < k ==> gids(wanted@).contains(
                                        #[trigger] need_ids(p@)[i],
                                    ),
                                forall|x: Seq<char>|
                                    gids(r0).contains(x) ==> gids(wanted@).contains(x),
                                forall|x: Seq<char>| gids(q0).contains(x) ==> gids(queue@).contains(x),
                                forall|x: Seq<char>|
                                    gids(wanted@).contains(x) && !gids(r0).contains(x)
                                        ==> gids(queue@).contains(x),
                                queue@.len() >= q0.len(),
                            decreases p.needs@.len() - k,
                        {
                            let ing = &p.needs[k].0;
                            assert(need_ids(p@)[k as int] == ing@);
                            if !contains_good(&wanted, ing) {
                                let ghost r1 = wanted@;
                                let ghost q1 = queue@;
                                wanted.push(ing.clone());
                                queue.push(ing.clone());
                                proof {
                                    assert(gids(wanted@) =~= gids(r1).push(ing@));
                                    assert(gids(queue@) =~= gids(q1).push(ing@));
                                    assert(need_ids(procs[j as int]).contains(ing@)) by {
                                        assert(need_ids(procs[j as int])[k as int] == ing@);
                                    }
                                    lemma_reach_step(m, j as int, n0, ing@);
                                    assert forall|x: Seq<char>| gids(wanted@).contains(
                                        x,
                                    ) implies required(m, x) by {
                                        if x != ing@ {
                                            let i = choose|i: int|
                                                0 <= i < gids(wanted@).len()
                                                    && gids(wanted@)[i] == x;
                                            assert(gids(r1)[i] == x);
                                        } else {
                                            assert(reached_within(m, x, n0 + 1));
                                        }
                                    }
                                    assert(!gids(q1).contains(ing@));
                                    assert forall|x: Seq<char>| gids(r1).contains(
                                        x,
                                    ) implies gids(wanted@).contains(x) by {
                                        let i = choose|i: int|
                                            0 <= i < gids(r1).len() && gids(r1)[i] == x;
                                        assert(gids(wanted@)[i] == gids(r1)[i]);
                                    }
                                    assert forall|x: Seq<char>| gids(q1).contains(
                                        x,
                                    ) implies gids(queue@).contains(x) by {
                                        let i = choose|i: int|
                                            0 <= i < gids(q1).len() && gids(q1)[i] == x;
                                        assert(gids(queue@)[i] == x);
                                    }
                                    assert(gids(wanted@)[r1.len() as int] == ing@);
                                    assert(gids(queue@)[q1.len() as int] == ing@);
                                    assert forall|x: Seq<char>| gids(queue@).contains(
                                        x,
                                    ) implies gids(wanted@).contains(x) by {
                                        if x != ing@ {
                                            let i = choose|i: int|
                                                0 <= i < gids(queue@).len() && gids(queue@)[i] == x;
                                            assert(i != q1.len());
                                            assert(gids(q1)[i] == x);
                                            assert(gids(q1).contains(x));
                                            assert(gids(r1).contains(x));
                                        }
                                    }
                                    assert forall|x: Seq<char>|
                                        gids(wanted@).contains(x) && !gids(r0).contains(
                                            x,
                                        ) implies gids(queue@).contains(x) by {
                                        if x != ing@ {
                                            let i = choose|i: int|
                                                0 <= i < gids(wanted@).len()
                                                    && gids(wanted@)[i] == x;
                                            assert(gids(r1)[i] == x);
                                        }
                                    }
                                }
                            }
                            k = k + 1;
                        }
                        let ghost s0 = seen@;
                        seen.push(p.id.clone());
                        proof {
                            assert(pids(seen@) =~= pids(s0).push(p@.id));
                            assert(pids(seen@)[s0.len() as int] == p@.id);
                            assert(process_ids_of(procs)[j as int] == p@.id);
                            assert forall|x: Seq<char>| pids(seen@).contains(x) implies process_ids_of(
                                procs,
                            ).contains(x) by {
                                if x != p@.id {
                                    let i = choose|i: int|
                                        0 <= i < pids(seen@).len() && pids(seen@)[i] == x;
                                    assert(pids(s0)[i] == x);
                                }
                            }
                            lemma_distinct_subset_len(pids(seen@), process_ids_of(procs));
                            assert forall|x: Seq<char>|
                                need_ids(p@).contains(x) implies gids(wanted@).contains(x) by {
                                let i = choose|i: int|
                                    0 <= i < need_ids(p@).len() && need_ids(p@)[i] == x;
                            }
                            assert forall|i: int|
                                0 <= i < n && pids(seen@).contains(#[trigger] procs[i].id) implies {
                                &&& fires(m, procs[i])
                                &&& gids(wanted@).contains(procs[i].id)
                                &&& forall|x: Seq<char>|
                                    need_ids(procs[i]).contains(x) ==> gids(wanted@).contains(x)
                            } by {
                                if procs[i].id == p@.id {
                                    assert(process_ids_of(procs)[i] == procs[i].id);
                                    assert(i == j);
                                } else {
                                    let t = choose|t: int|
                                        0 <= t < pids(seen@).len() && pids(seen@)[t] == procs[i].id;
                                    assert(t != s0.len());
                                    assert(pids(s0)[t] == procs[i].id);
                                    assert(pids(s0).contains(procs[i].id));
                                    assert(gids(r0).contains(procs[i].id));
                                    assert forall|x: Seq<char>|
                                        need_ids(procs[i]).contains(x) implies gids(wanted@).contains(x) by {
                                        assert(gids(r0).contains(x));
                                    }
                                }
                            }
                            assert forall|i: int|
                                0 <= i < n && gids(wanted@).contains(#[trigger] procs[i].id)
                                    && !gids(queue@).contains(procs[i].id) && fires(m, procs[i])
                                    && (procs[i].id != good_id@ || i < j + 1) implies pids(
                                seen@,
                            ).contains(procs[i].id) by {
                                if procs[i].id == p@.id {
                                } else {
                                    assert(gids(r0).contains(procs[i].id));
                                    assert(!gids(q0).contains(procs[i].id));
                                    assert(pids(s0).contains(procs[i].id));
                                    let t = choose|t: int|
                                        0 <= t < pids(s0).len() && pids(s0)[t] == procs[i].id;
                                    assert(pids(seen@)[t] == procs[i].id);
                                }
                            }
                        }
                    } else {
                        proof {
                            assert forall|i: int|
                                0 <= i < n && gids(wanted@).contains(#[trigger] procs[i].id)
                                    && !gids(queue@).contains(procs[i].id) && fires(m, procs[i])
                                    && (procs[i].id != good_id@ || i < j + 1) implies pids(
                                seen@,
                            ).contains(procs[i].id) by {
                                if i == j {
                                    if !(source_ok && level_ok) {
                                        let k = choose|k: int|
                                            0 <= k < m.registry.goods.len()
                                                && #[trigger] m.registry.goods[k].id == p@.id
                                                && m.registry.goods[k].level <= m.level;
                                        lemma_good_named_unique(m.registry.goods, k);
                                    }
                                }
                            }
                        }
                    }
                }
                j = j + 1;
            }
        }
        proof {
            let rs = gids(wanted@).to_set();
            assert forall|x: Seq<char>| required(m, x) implies gids(wanted@).contains(x) by {
                let nn = choose|nn: nat| reached_within(m, x, nn);
                lemma_required_in_closed_set(m, rs, x, nn);
            }
        }
        let mut out: Vec<Process> = Vec::new();
        let mut j: usize = 0;
        proof {
            assert(procs.take(0) =~= Seq::<ProcessView>::empty());
            reveal_with_fuel(Seq::filter, 1);
            assert(processes_view(out@) =~= procs.take(0).filter(selected_pred(m)));
        }
        while j < n
            invariant
                m == self@,
                procs == m.registry.processes,
                reg == self.registry,
                n == procs.len(),
                j <= n,
                processes_view(out@) == procs.take(j as int).filter(selected_pred(m)),
                forall|i: int|
                    0 <= i < n ==> (selected(m, #[trigger] procs[i]) <==> pids(seen@).contains(
                        procs[i].id,
                    )),
            decreases n - j,
        {
            let ghost o0 = out@;
            assert(procs.take(j + 1) =~= procs.take(j as int).push(procs[j as int]));
            proof { procs.take(j as int).lemma_filter_push(procs[j as int], selected_pred(m)); }
            if contains_process(&seen, &reg.processes[j].id) {
                out.push(reg.processes[j].clone());
                assert(processes_view(out@) =~= processes_view(o0).push(procs[j as int]));
            } else {
                assert(processes_view(out@) =~= processes_view(o0));
            }
            j = j + 1;
        }
        assert(procs.take(n as int) =~= procs);
        let mut outs: Vec<Source> = Vec::new();
        let mut i: usize = 0;
        let ghost en = m.enabled;
        proof {
            assert(en.take(0) =~= Seq::<Seq<char>>::empty());
            assert(sources_view(outs@) =~= en.take(0).filter_map(source_lookup(m.registry.sources)));
        }
        while i < self.enabled_sources.len()
            invariant
                m == self@,
                reg == self.registry,
                en == m.enabled,
                i <= en.len(),
                sources_view(outs@) == en.take(i as int).filter_map(
                    source_lookup(m.registry.sources),
                ),
            decreases en.len() - i,
        {
            let ghost o0 = outs@;
            assert(en.take(i + 1).drop_last() =~= en.take(i as int));
            assert(en.take(i + 1).last() == self.enabled_sources@[i as int]@);
            match reg.find_source(&self.enabled_sources[i]) {
                Some(k) => {
                    outs.push(reg.sources[k].clone());
                    assert(sources_view(outs@) =~= sources_view(o0) + seq![reg.sources@[k as int]@]);
                },
                None => {
                    assert(sources_view(outs@) =~= sources_view(o0));
                },
            }
            i = i + 1;
        }
        assert(en.take(en.len() as int) =~= en);
        (out, outs)
    }
}


/// Adds `x` to a list of distinct source ids unless it is there already.
fn insert_source(v: &mut Vec<SourceId>, x: SourceId)
    requires
        sids(old(v)@).no_duplicates(),
    ensures
        sids(final(v)@).no_duplicates(),
        sids(final(v)@).to_set() == sids(old(v)@).to_set().insert(x@),
{
    if !contains_source(v, &x) {
        let ghost v0 = v@;
        let ghost xv = x@;
        v.push(x);
        assert(sids(v@) =~= sids(v0).push(xv));
        proof { sids(v0).lemma_push_to_set_commute(xv); }
    } else {
        assert(sids(v@).to_set() =~= sids(v@).to_set().insert(x@));
    }
}

/// Adds `x` to a list of distinct good ids unless it is there already.
fn insert_good(v: &mut Vec<GoodId>, x: GoodId)
    requires
        gids(old(v)@).no_duplicates(),
    ensures
        gids(final(v)@).no_duplicates(),
        gids(final(v)@).to_set() == gids(old(v)@).to_set().insert(x@),
{
    if !contains_good(v, &x) {
        let ghost v0 = v@;
        let ghost xv = x@;
        v.push(x);
        assert(gids(v@) =~= gids(v0).push(xv));
        proof { gids(v0).lemma_push_to_set_commute(xv); }
    } else {
        assert(gids(v@).to_set() =~= gids(v@).to_set().insert(x@));
    }
}

pub open spec fn strs_view(ids: Seq<&str>) -> Seq<Seq<char>> {
    ids.map_values(|s: &str| s@)
}

/// The ids of the sources for which `picked` holds.
pub open spec fn picked_sources(s: Seq<SourceView>, picked: Seq<bool>) -> Set<Seq<char>> {
    Set::new(|x: Seq<char>| exists|i: int| 0 <= i < s.len() && picked[i] && s[i].id == x)
}

/// The ids of the goods for which `picked` holds.
pub open spec fn picked_goods(g: Seq<GoodView>, picked: Seq<bool>) -> Set<Seq<char>> {
    Set::new(|x: Seq<char>| exists|i: int| 0 <= i < g.len() && picked[i] && g[i].id == x)
}

impl<'a> Clone for Scenario<'a> {
    fn clone(&self) -> (r: Self)
        ensures
            r@ == self@,
            r.registry == self.registry,
    {
        Scenario {
            registry: self.registry,
            level: self.level,
            enabled_sources: copy_source_ids(&self.enabled_sources),
            target_goods: copy_good_ids(&self.target_goods),
        }
    }
}

impl<'a> Scenario<'a> {
    /// A scenario with no level limit, no sources and no targets.
    pub fn new(registry: &'a Registry) -> (r: Self)
        ensures
            r.registry == registry,
            r@.level == u64::MAX,
            r@.enabled == Seq::<Seq<char>>::empty(),
            r@.targets == Seq::<Seq<char>>::empty(),
    {
        let r = Scenario {
            registry,
            level: u64::MAX,
            enabled_sources: Vec::new(),
            target_goods: Vec::new(),
        };
        assert(r@.enabled =~= Seq::<Seq<char>>::empty());
        assert(r@.targets =~= Seq::<Seq<char>>::empty());
        r
    }

    /// The same scenario with goods above `level` left out.
    pub fn limit_level(self, level: u64) -> (r: Self)
        ensures
            r.registry == self.registry,
            r@ == (ScenarioView { level, ..self@ }),
    {
        let mut s = self;
        s.level = level;
        s
    }

    /// The same scenario with the named sources enabled as well.
    pub fn with_sources(self, ids: &[&str]) -> (r: Self)
        requires
            self@.enabled.no_duplicates(),
        ensures
            r.registry == self.registry,
            r@.level == self@.level,
            r@.targets == self@.targets,
            r@.enabled.no_duplicates(),
            r@.enabled.to_set() == self@.enabled.to_set() + strs_view(ids@).to_set(),
    {
        let mut s = self;
        let ghost e0 = s@.enabled.to_set();
        let mut i: usize = 0;
        while i < ids.len()
            invariant
                s.registry == self.registry,
                s@.level == self@.level,
                s@.targets == self@.targets,
                e0 == self@.enabled.to_set(),
                i <= ids@.len(),
                s@.enabled.no_duplicates(),
                s@.enabled.to_set() == e0 + strs_view(ids@.take(i as int)).to_set(),
            decreases ids@.len() - i,
        {
            insert_source(&mut s.enabled_sources, SourceId(ids[i].to_owned()));
            assert(strs_view(ids@.take(i + 1)) =~= strs_view(ids@.take(i as int)).push(ids@[i as int]@));
            proof { strs_view(ids@.take(i as int)).lemma_push_to_set_commute(ids@[i as int]@); }
            assert(s@.enabled.to_set() =~= e0 + strs_view(ids@.take(i + 1)).to_set());
            i = i + 1;
        }
        assert(ids@.take(ids@.len() as int) =~= ids@);
        s
    }

    /// The same scenario with the named goods added to the targets.
    pub fn for_products(self, ids: &[&str]) -> (r: Self)
        requires
            self@.targets.no_duplicates(),
        ensures
            r.registry == self.registry,
            r@.level == self@.level,
            r@.enabled == self@.enabled,
            r@.targets.no_duplicates(),
            r@.targets.to_set() == self@.targets.to_set() + strs_view(ids@).to_set(),
    {
        let mut s = self;
        let ghost t0 = s@.targets.to_set();
        let mut i: usize = 0;
        while i < ids.len()
            invariant
                s.registry == self.registry,
                s@.level == self@.level,
                s@.enabled == self@.enabled,
                t0 == self@.targets.to_set(),
                i <= ids@.len(),
                s@.targets.no_duplicates(),
                s@.targets.to_set() == t0 + strs_view(ids@.take(i as int)).to_set(),
            decreases ids@.len() - i,
        {
            insert_good(&mut s.target_goods, GoodId(ids[i].to_owned()));
            assert(strs_view(ids@.take(i + 1)) =~= strs_view(ids@.take(i as int)).push(ids@[i as int]@));
            proof { strs_view(ids@.take(i as int)).lemma_push_to_set_commute(ids@[i as int]@); }
            assert(s@.targets.to_set() =~= t0 + strs_view(ids@.take(i + 1)).to_set());
            i = i + 1;
        }
        assert(ids@.take(ids@.len() as int) =~= ids@);
        s
    }

    /// The same scenario with every registry source that `filter` accepts enabled
    /// as well. `filter` is asked once about each source, in registry order.
    pub fn with_all_sources_filtered<F: Fn(&Source) -> bool>(self, filter: F) -> (r: Self)
        requires
            self@.enabled.no_duplicates(),
            forall|i: int|
                0 <= i < self.registry.sources@.len() ==> call_requires(
                    filter,
                    (&#[trigger] self.registry.sources@[i],),
                ),
        ensures
            r.registry == self.registry,
            r@.level == self@.level,
            r@.targets == self@.targets,
            r@.enabled.no_duplicates(),
            exists|picked: Seq<bool>|
                {
                    &&& picked.len() == self.registry.sources@.len()
                    &&& forall|i: int|
                        0 <= i < picked.len() ==> call_ensures(
                            filter,
                            (&#[trigger] self.registry.sources@[i],),
                            picked[i],
                        )
                    &&& r@.enabled.to_set() == self@.enabled.to_set() + picked_sources(
                        self@.registry.sources,
                        picked,
                    )
                },
    {
        let reg = self.registry;
        let mut s = self;
        let ghost e0 = s@.enabled.to_set();
        let ghost srcs = reg@.sources;
        let ghost mut picked: Seq<bool> = Seq::empty();
        let n = reg.sources.len();
        let mut i: usize = 0;
        assert(picked_sources(srcs.take(0), picked) =~= Set::empty());
        while i < n
            invariant
                s.registry == self.registry,
                reg == self.registry,
                srcs == reg@.sources,
                n == srcs.len(),
                s@.level == self@.level,
                s@.targets == self@.targets,
                e0 == self@.enabled.to_set(),
                i <= n,
                picked.len() == i,
                forall|k: int|
                    0 <= k < n ==> call_requires(filter, (&#[trigger] reg.sources@[k],)),
                forall|k: int|
                    0 <= k < i ==> call_ensures(filter, (&#[trigger] reg.sources@[k],), picked[k]),
                s@.enabled.no_duplicates(),
                s@.enabled.to_set() == e0 + picked_sources(srcs.take(i as int), picked),
            decreases n - i,
        {
            let src = &reg.sources[i];
            let keep = filter(src);
            let ghost p0 = picked;
            proof {
                picked = picked.push(keep);
                assert forall|k: int| 0 <= k < i + 1 implies call_ensures(filter, (&#[trigger] reg.sources@[k],), picked[k]) by {
                    if k < i {
                        assert(picked[k] == p0[k]);
                    }
                }
            }
            if keep {
                insert_source(&mut s.enabled_sources, src.id.clone());
            }
            proof {
                assert(srcs.take(i + 1)[i as int] == src@);
                assert(picked_sources(srcs.take(i + 1), picked) =~= if keep {
                    picked_sources(srcs.take(i as int), p0).insert(src@.id)
                } else {
                    picked_sources(srcs.take(i as int), p0)
                }) by {
                    if keep {
                        assert(0 <= i < srcs.take(i + 1).len() && picked[i as int] && srcs.take(i + 1)[i as int].id == src@.id);
                        assert(picked_sources(srcs.take(i + 1), picked).contains(src@.id));
                    }
                    assert forall|x: Seq<char>| picked_sources(srcs.take(i as int), p0).contains(
                        x,
                    ) implies picked_sources(srcs.take(i + 1), picked).contains(x) by {
                        let k = choose|k: int|
                            0 <= k < srcs.take(i as int).len() && p0[k] && srcs.take(
                                i as int,
                            )[k].id == x;
                        assert(srcs.take(i + 1)[k] == srcs.take(i as int)[k]);
                        assert(picked[k] == p0[k]);
                    }
                    assert forall|x: Seq<char>| picked_sources(srcs.take(i + 1), picked).contains(
                        x,
                    ) implies (x == src@.id && keep) || picked_sources(
                        srcs.take(i as int),
                        p0,
                    ).contains(x) by {
                        let k = choose|k: int|
                            0 <= k < srcs.take(i + 1).len() && picked[k] && srcs.take(i + 1)[k].id
                                == x;
                        if k < i {
                            assert(srcs.take(i + 1)[k] == srcs.take(i as int)[k]);
                            assert(picked[k] == p0[k]);
                        }
                    }
                }
                assert(s@.enabled.to_set() =~= e0 + picked_sources(srcs.take(i + 1), picked));
            }
            i = i + 1;
        }
        assert(srcs.take(n as int) =~= srcs);
        assert(picked.len() == self.registry.sources@.len() && (forall|k: int|
            0 <= k < picked.len() ==> call_ensures(filter, (&#[trigger] self.registry.sources@[k],), picked[k]))
            && s@.enabled.to_set() == self@.enabled.to_set() + picked_sources(self@.registry.sources, picked));
        s
    }

    /// The same scenario with every registry good that `filter` accepts added to
    /// the targets. `filter` is asked once about each good, in registry order.
    pub fn with_all_products_filtered<F: Fn(&Good) -> bool>(self, filter: F) -> (r: Self)
        requires
            self@.targets.no_duplicates(),
            forall|i: int|
                0 <= i < self.registry.goods@.len() ==> call_requires(
                    filter,
                    (&#[trigger] self.registry.goods@[i],),
                ),
        ensures
            r.registry == self.registry,
            r@.level == self@.level,
            r@.enabled == self@.enabled,
            r@.targets.no_duplicates(),
            exists|picked: Seq<bool>|
                {
                    &&& picked.len() == self.registry.goods@.len()
                    &&& forall|i: int|
                        0 <= i < picked.len() ==> call_ensures(
                            filter,
                            (&#[trigger] self.registry.goods@[i],),
                            picked[i],
                        )
                    &&& r@.targets.to_set() == self@.targets.to_set() + picked_goods(
                        self@.registry.goods,
                        picked,
                    )
                },
    {
        let reg = self.registry;
        let mut s = self;
        let ghost t0 = s@.targets.to_set();
        let ghost gs = reg@.goods;
        let ghost mut picked: Seq<bool> = Seq::empty();
        let n = reg.goods.len();
        let mut i: usize = 0;
        assert(picked_goods(gs.take(0), picked) =~= Set::empty());
        while i < n
            invariant
                s.registry == self.registry,
                reg == self.registry,
                gs == reg@.goods,
                n == gs.len(),
                s@.level == self@.level,
                s@.enabled == self@.enabled,
                t0 == self@.targets.to_set(),
                i <= n,
                picked.len() == i,
                forall|k: int| 0 <= k < n ==> call_requires(filter, (&#[trigger] reg.goods@[k],)),
                forall|k: int|
                    0 <= k < i ==> call_ensures(filter, (&#[trigger] reg.goods@[k],), picked[k]),
                s@.targets.no_duplicates(),
                s@.targets.to_set() == t0 + picked_goods(gs.take(i as int), picked),
            decreases n - i,
        {
            let good = &reg.goods[i];
            let keep = filter(good);
            let ghost p0 = picked;
            proof {
                picked = picked.push(keep);
                assert forall|k: int| 0 <= k < i + 1 implies call_ensures(filter, (&#[trigger] reg.goods@[k],), picked[k]) by {
                    if k < i {
                        assert(picked[k] == p0[k]);
                    }
                }
            }
            if keep {
                insert_good(&mut s.target_goods, good.id.clone());
            }
            proof {
                assert(gs.take(i + 1)[i as int] == good@);
                assert(picked_goods(gs.take(i + 1), picked) =~= if keep {
                    picked_goods(gs.take(i as int), p0).insert(good@.id)
                } else {
                    picked_goods(gs.take(i as int), p0)
                }) by {
                    if keep {
                        assert(0 <= i < gs.take(i + 1).len() && picked[i as int] && gs.take(i + 1)[i as int].id == good@.id);
                        assert(picked_goods(gs.take(i + 1), picked).contains(good@.id));
                    }
                    assert forall|x: Seq<char>| picked_goods(gs.take(i as int), p0).contains(
                        x,
                    ) implies picked_goods(gs.take(i + 1), picked).contains(x) by {
                        let k = choose|k: int|
                            0 <= k < gs.take(i as int).len() && p0[k] && gs.take(i as int)[k].id
                                == x;
                        assert(gs.take(i + 1)[k] == gs.take(i as int)[k]);
                        assert(picked[k] == p0[k]);
                    }
                    assert forall|x: Seq<char>| picked_goods(gs.take(i + 1), picked).contains(
                        x,
                    ) implies (x == good@.id && keep) || picked_goods(
                        gs.take(i as int),
                        p0,
                    ).contains(x) by {
                        let k = choose|k: int|
                            0 <= k < gs.take(i + 1).len() && picked[k] && gs.take(i + 1)[k].id == x;
                        if k < i {
                            assert(gs.take(i + 1)[k] == gs.take(i as int)[k]);
                            assert(picked[k] == p0[k]);
                        }
                    }
                }
                assert(s@.targets.to_set() =~= t0 + picked_goods(gs.take(i + 1), picked));
            }
            i = i + 1;
        }
        assert(gs.take(n as int) =~= gs);
        assert(picked.len() == self.registry.goods@.len() && (forall|k: int|
            0 <= k < picked.len() ==> call_ensures(filter, (&#[trigger] self.registry.goods@[k],), picked[k]))
            && s@.targets.to_set() == self@.targets.to_set() + picked_goods(self@.registry.goods, picked));
        s
    }
}


/// What a scenario selects (the processes that `collect` returns):
/// - each selected process runs on an enabled source, and its good is known and within
///   the level limit;
/// - each runnable process that makes a target is selected;
/// - the selection is closed under ingredients: each runnable process that makes an
///   ingredient of a selected process is selected too.
pub proof fn law_selection_closed(m: ScenarioView)
    ensures
        forall|k: int|
            0 <= k < m.registry.processes.filter(selected_pred(m)).len() ==> fires(
                m,
                #[trigger] m.registry.processes.filter(selected_pred(m))[k],
            ),
        forall|j: int|
            0 <= j < m.registry.processes.len() && fires(m, #[trigger] m.registry.processes[j])
                && m.targets.contains(m.registry.processes[j].id) ==> m.registry.processes.filter(
                selected_pred(m),
            ).contains(m.registry.processes[j]),
        forall|p: ProcessView, j: int|
            m.registry.processes.filter(selected_pred(m)).contains(p) && 0 <= j < m.registry.processes.len()
                && fires(m, #[trigger] m.registry.processes[j]) && #[trigger] need_ids(p).contains(
                m.registry.processes[j].id,
            ) ==> m.registry.processes.filter(selected_pred(m)).contains(m.registry.processes[j]),
{
    let procs = m.registry.processes;
    let sel = procs.filter(selected_pred(m));
    assert forall|k: int| 0 <= k < sel.len() implies fires(m, #[trigger] sel[k]) by {
        procs.lemma_filter_pred(selected_pred(m), k);
    }
    assert forall|j: int|
        0 <= j < procs.len() && fires(m, #[trigger] procs[j]) && m.targets.contains(procs[j].id) implies sel.contains(
        procs[j],
    ) by {
        assert(reached_within(m, procs[j].id, 0));
        procs.lemma_filter_contains(selected_pred(m), j);
    }
    assert forall|p: ProcessView, j: int|
        sel.contains(p) && 0 <= j < procs.len() && fires(m, #[trigger] procs[j]) && #[trigger] need_ids(p).contains(
            procs[j].id,
        ) implies sel.contains(procs[j]) by {
        procs.lemma_filter_contains_rev(selected_pred(m), p);
        let k = choose|k: int| 0 <= k < sel.len() && sel[k] == p;
        procs.lemma_filter_pred(selected_pred(m), k);
        let i = choose|i: int| 0 <= i < procs.len() && procs[i] == p;
        let n = choose|n: nat| reached_within(m, p.id, n);
        lemma_reach_step(m, i, n, procs[j].id);
        procs.lemma_filter_contains(selected_pred(m), j);
    }
}


/// `b` asks at least as much as `a`: the same registry, a level limit at least as high,
/// and at least the sources and targets of `a`.
pub open spec fn widens(a: ScenarioView, b: ScenarioView) -> bool {
    &&& a.registry == b.registry
    &&& a.level <= b.level
    &&& forall|x: Seq<char>| a.enabled.contains(x) ==> b.enabled.contains(x)
    &&& forall|x: Seq<char>| a.targets.contains(x) ==> b.targets.contains(x)
}

proof fn lemma_reached_monotone(a: ScenarioView, b: ScenarioView, g: Seq<char>, n: nat)
    requires
        widens(a, b),
        reached_within(a, g, n),
    ensures
        reached_within(b, g, n),
    decreases n,
{
    if !a.targets.contains(g) {
        let j = choose|j: int|
            0 <= j < a.registry.processes.len() && fires(a, #[trigger] a.registry.processes[j])
                && reached_within(a, a.registry.processes[j].id, (n - 1) as nat) && need_ids(
                a.registry.processes[j],
            ).contains(g);
        let p = a.registry.processes[j];
        lemma_reached_monotone(a, b, p.id, (n - 1) as nat);
        let k = choose|k: int|
            0 <= k < a.registry.goods.len() && #[trigger] a.registry.goods[k].id == p.id
                && a.registry.goods[k].level <= a.level;
        assert(b.registry.goods[k].id == p.id);
        assert(fires(b, b.registry.processes[j]));
    }
}

/// Widening a scenario (more sources, more targets, a higher level limit) never drops a
/// process from what it selects.
pub proof fn law_selection_monotone(a: ScenarioView, b: ScenarioView)
    requires
        widens(a, b),
    ensures
        forall|p: ProcessView|
            a.registry.processes.filter(selected_pred(a)).contains(p) ==> b.registry.processes.filter(
                selected_pred(b),
            ).contains(p),
{
    let procs = a.registry.processes;
    assert forall|p: ProcessView| procs.filter(selected_pred(a)).contains(p) implies procs.filter(
        selected_pred(b),
    ).contains(p) by {
        procs.lemma_filter_contains_rev(selected_pred(a), p);
        let k = choose|k: int| 0 <= k < procs.filter(selected_pred(a)).len() && procs.filter(selected_pred(a))[k] == p;
        procs.lemma_filter_pred(selected_pred(a), k);
        let n = choose|n: nat| reached_within(a, p.id, n);
        lemma_reached_monotone(a, b, p.id, n);
        let gk = choose|gk: int|
            0 <= gk < a.registry.goods.len() && #[trigger] a.registry.goods[gk].id == p.id
                && a.registry.goods[gk].level <= a.level;
        assert(b.registry.goods[gk].id == p.id);
        assert(selected(b, p));
        let i = choose|i: int| 0 <= i < procs.len() && procs[i] == p;
        procs.lemma_filter_contains(selected_pred(b), i);
    }
}


proof fn lemma_filter_distinct_ids(ps: Seq<ProcessView>, pred: spec_fn(ProcessView) -> bool)
    requires
        process_ids_of(ps).no_duplicates(),
    ensures
        process_ids_of(ps.filter(pred)).no_duplicates(),
    decreases ps.len(),
{
    reveal_with_fuel(Seq::filter, 1);
    if ps.len() > 0 {
        let rest = ps.drop_last();
        assert(process_ids_of(rest) =~= process_ids_of(ps).drop_last());
        lemma_filter_distinct_ids(rest, pred);
        let f = rest.filter(pred);
        if pred(ps.last()) {
            let g = f.push(ps.last());
            assert forall|a: int, b: int| 0 <= a < b < g.len() implies process_ids_of(g)[a] != process_ids_of(g)[b] by {
                if b == f.len() {
                    assert(f.contains(f[a]));
                    rest.lemma_filter_contains_rev(pred, f[a]);
                    let k = choose|k: int| 0 <= k < rest.len() && rest[k] == f[a];
                    assert(process_ids_of(ps)[k] == rest[k].id);
                    assert(process_ids_of(ps)[ps.len() - 1] == ps.last().id);
                } else {
                    assert(process_ids_of(f)[a] != process_ids_of(f)[b]);
                }
            }
        }
    }
}

/// What a scenario over a registry with distinct process ids selects (what `collect`
/// returns) lists each process id once, and each selected process makes a target or an
/// ingredient of another selected process.
pub proof fn law_selection_distinct_and_needed(m: ScenarioView)
    requires
        m.wf(),
    ensures
        process_ids_of(m.registry.processes.filter(selected_pred(m))).no_duplicates(),
        forall|p: ProcessView|
            #![trigger m.registry.processes.filter(selected_pred(m)).contains(p)]
            m.registry.processes.filter(selected_pred(m)).contains(p) ==> m.targets.contains(p.id) || exists|q: ProcessView|
                m.registry.processes.filter(selected_pred(m)).contains(q) && #[trigger] need_ids(q).contains(p.id),
{
    let procs = m.registry.processes;
    let sel = procs.filter(selected_pred(m));
    lemma_filter_distinct_ids(procs, selected_pred(m));
    assert forall|p: ProcessView| #![trigger sel.contains(p)] sel.contains(p) implies m.targets.contains(p.id) || exists|q: ProcessView|
        sel.contains(q) && #[trigger] need_ids(q).contains(p.id) by {
        procs.lemma_filter_contains_rev(selected_pred(m), p);
        let k = choose|k: int| 0 <= k < sel.len() && sel[k] == p;
        procs.lemma_filter_pred(selected_pred(m), k);
        let n = choose|n: nat| reached_within(m, p.id, n);
        if !m.targets.contains(p.id) {
            let j = choose|j: int|
                0 <= j < procs.len() && fires(m, #[trigger] procs[j]) && reached_within(m, procs[j].id, (n - 1) as nat)
                    && need_ids(procs[j]).contains(p.id);
            assert(selected(m, procs[j]));
            procs.lemma_filter_contains(selected_pred(m), j);
        }
    }
}

/// The selection is the least one closed under targets and ingredients: for any set of
/// goods that holds the targets and, with each good whose runnable process it holds,
/// that process's ingredients, every selected process makes a good of the set.
pub proof fn law_selection_least(m: ScenarioView, r: Set<Seq<char>>)
    requires
        forall|x: Seq<char>| m.targets.contains(x) ==> r.contains(x),
        forall|j: int|
            0 <= j < m.registry.processes.len() && r.contains(m.registry.processes[j].id) && fires(
                m,
                #[trigger] m.registry.processes[j],
            ) ==> forall|x: Seq<char>| need_ids(m.registry.processes[j]).contains(x) ==> r.contains(x),
    ensures
        forall|p: ProcessView| #[trigger] m.registry.processes.filter(selected_pred(m)).contains(p) ==> r.contains(p.id),
{
    let procs = m.registry.processes;
    let sel = procs.filter(selected_pred(m));
    assert forall|p: ProcessView| #[trigger] sel.contains(p) implies r.contains(p.id) by {
        procs.lemma_filter_contains_rev(selected_pred(m), p);
        let k = choose|k: int| 0 <= k < sel.len() && sel[k] == p;
        procs.lemma_filter_pred(selected_pred(m), k);
        let n = choose|n: nat| reached_within(m, p.id, n);
        lemma_required_in_closed_set(m, r, p.id, n);
    }
}


/// What a scenario selects, in terms of its inputs: a selected process runs on an
/// enabled source and its good is known with a level no higher than the scenario's
/// level; and a process on an enabled source whose good is known with a level no
/// higher than the scenario's level (a good at exactly that level included) is selected
/// when it makes a target.
pub proof fn law_selection_by_level_and_source(m: ScenarioView)
    ensures
        forall|p: ProcessView|
            #[trigger] m.registry.processes.filter(selected_pred(m)).contains(p) ==> m.enabled.contains(p.source_id)
                && exists|k: int|
                0 <= k < m.registry.goods.len() && m.registry.goods[k].id == p.id && m.registry.goods[k].level
                    <= m.level,
        forall|j: int, k: int|
            0 <= j < m.registry.processes.len() && 0 <= k < m.registry.goods.len() && m.enabled.contains(
                m.registry.processes[j].source_id,
            ) && #[trigger] m.registry.goods[k].id == #[trigger] m.registry.processes[j].id
                && m.registry.goods[k].level <= m.level && m.targets.contains(m.registry.processes[j].id)
                ==> m.registry.processes.filter(selected_pred(m)).contains(m.registry.processes[j]),
{
    let procs = m.registry.processes;
    let sel = procs.filter(selected_pred(m));
    assert forall|p: ProcessView| #[trigger] sel.contains(p) implies m.enabled.contains(p.source_id) && exists|k: int|
        0 <= k < m.registry.goods.len() && m.registry.goods[k].id == p.id && m.registry.goods[k].level <= m.level by {
        let i = choose|i: int| 0 <= i < sel.len() && sel[i] == p;
        procs.lemma_filter_pred(selected_pred(m), i);
    }
    assert forall|j: int, k: int|
        0 <= j < procs.len() && 0 <= k < m.registry.goods.len() && m.enabled.contains(procs[j].source_id)
            && #[trigger] m.registry.goods[k].id == #[trigger] procs[j].id && m.registry.goods[k].level <= m.level
            && m.targets.contains(procs[j].id) implies sel.contains(procs[j]) by {
        assert(fires(m, procs[j]));
        assert(reached_within(m, procs[j].id, 0));
        procs.lemma_filter_contains(selected_pred(m), j);
    }
}

} // verus!
