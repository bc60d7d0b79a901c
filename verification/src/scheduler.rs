use vstd::prelude::*;

use crate::dependency_graph::{
    acyclic, edges_in_range, grounded, is_path, law_walk_reaches_grounded_nodes, law_walk_of_acyclic_graph_is_complete, law_walk_skips_cycles,
    walks, node_map_view, dependencies_of, first_index, lemma_dependencies_are_nodes, lemma_first_index,
    lemma_first_index_unique, sums_fit, sums_view, targets_in_range, DependencyGraph,
    GraphState,
};
use crate::domain::{
    good_named, process_named, Duration, GoodId, ProcessId, ProductionPlan, Registry, RegistryView,
    SourceId,
};
use crate::petgraph_specs::{graph_edges, graph_node_weight, graph_nodes, graph_topo_order, is_topo_walk, topo_order};
use crate::text::{decimal, decimal_string, is_digit, lemma_decimal, lemma_decimal_injective};

verus! {

/// Name of one production job, such as "Bread_3".
#[derive(Debug, PartialEq, Eq, Hash)]
pub struct JobId(pub String);

/// One run of a process: which good it makes, on which source, for how long, and
/// which earlier jobs' output it uses.
#[derive(Debug)]
pub struct Job {
    pub job_id: JobId,
    pub good_id: GoodId,
    pub machine_id: SourceId,
    pub duration: Duration,
    pub consumes: Vec<JobId>,
}

impl View for JobId {
    type V = Seq<char>;

    open spec fn view(&self) -> Seq<char> {
        self.0@
    }
}

impl Clone for JobId {
    fn clone(&self) -> (r: Self)
        ensures
            r@ == self@,
    {
        JobId(self.0.clone())
    }
}

pub struct JobView {
    pub job_id: Seq<char>,
    pub good_id: Seq<char>,
    pub machine_id: Seq<char>,
    pub duration: u64,
    pub consumes: Seq<Seq<char>>,
}

pub open spec fn jids(v: Seq<JobId>) -> Seq<Seq<char>> {
    v.map_values(|j: JobId| j@)
}

impl View for Job {
    type V = JobView;

    open spec fn view(&self) -> JobView {
        JobView {
            job_id: self.job_id@,
            good_id: self.good_id@,
            machine_id: self.machine_id@,
            duration: self.duration,
            consumes: jids(self.consumes@),
        }
    }
}

impl Clone for Job {
    fn clone(&self) -> (r: Self)
        ensures
            r@ == self@,
    {
        let consumes = self.consumes.clone();
        assert(jids(consumes@) =~= jids(self.consumes@));
        Job {
            job_id: self.job_id.clone(),
            good_id: self.good_id.clone(),
            machine_id: self.machine_id.clone(),
            duration: self.duration,
            consumes,
        }
    }
}

pub open spec fn jobs_view(v: Seq<Job>) -> Seq<JobView> {
    v.map_values(|j: Job| j@)
}

// ---------------------------------------------------------------------------
// Jobs from a production plan
// ---------------------------------------------------------------------------

pub open spec fn plan_view(plan: ProductionPlan) -> Seq<(Seq<char>, u64)> {
    plan.counts@.map_values(|e: (ProcessId, u64)| (e.0@, e.1))
}

pub open spec fn plan_ids(plan: Seq<(Seq<char>, u64)>) -> Seq<Seq<char>> {
    plan.map_values(|e: (Seq<char>, u64)| e.0)
}

impl ProductionPlan {
    /// No process id occurs twice.
    pub open spec fn wf(&self) -> bool {
        plan_ids(plan_view(*self)).no_duplicates()
    }
}

/// The name of the `i`-th job that makes `good`: the good's name, `_`, and `i`.
pub open spec fn job_label(good: Seq<char>, i: nat) -> Seq<char> {
    good + seq!['_'] + decimal(i)
}

/// The names of jobs `from + 1` to `from + k` of `good`.
pub open spec fn labels(good: Seq<char>, from: nat, k: nat) -> Seq<Seq<char>> {
    Seq::new(k, |j: int| job_label(good, (from + j + 1) as nat))
}

/// Takes up to `need` jobs of `ing`'s supply, in order; `taken` counts, per plan entry,
/// the jobs already taken.
pub open spec fn take_ingredient(
    plan: Seq<(Seq<char>, u64)>,
    taken: Seq<nat>,
    ing: Seq<char>,
    need: nat,
) -> (Seq<Seq<char>>, Seq<nat>) {
    let pi = first_index(plan_ids(plan), ing);
    if pi < plan.len() {
        let avail = plan[pi].1 - taken[pi];
        let k = if need <= avail {
            need
        } else {
            avail as nat
        };
        (labels(ing, taken[pi], k), taken.update(pi, taken[pi] + k))
    } else {
        (Seq::empty(), taken)
    }
}

/// Takes the ingredients of one job, in recipe order.
pub open spec fn take_recipe(
    plan: Seq<(Seq<char>, u64)>,
    taken: Seq<nat>,
    recipe: Seq<(Seq<char>, nat)>,
) -> (Seq<Seq<char>>, Seq<nat>)
    decreases recipe.len(),
{
    if recipe.len() == 0 {
        (Seq::empty(), taken)
    } else {
        let (c, t1) = take_recipe(plan, taken, recipe.drop_last());
        let (c2, t2) = take_ingredient(plan, t1, recipe.last().0, recipe.last().1);
        (c + c2, t2)
    }
}

/// Appends jobs 1 to `q` of `good`.
pub open spec fn jobs_for_good(
    jobs: Seq<JobView>,
    taken: Seq<nat>,
    plan: Seq<(Seq<char>, u64)>,
    good: Seq<char>,
    machine: Seq<char>,
    duration: u64,
    recipe: Seq<(Seq<char>, nat)>,
    q: nat,
) -> (Seq<JobView>, Seq<nat>)
    decreases q,
{
    if q == 0 {
        (jobs, taken)
    } else {
        let (js, t1) = jobs_for_good(jobs, taken, plan, good, machine, duration, recipe, (q - 1) as nat);
        let (c, t2) = take_recipe(plan, t1, recipe);
        (
            js.push(
                JobView { job_id: job_label(good, q), good_id: good, machine_id: machine, duration, consumes: c },
            ),
            t2,
        )
    }
}

/// The jobs for the graph nodes of `order`, in that order, with what was taken from
/// each plan entry's supply.
pub open spec fn jobs_in_order(
    reg: RegistryView,
    st: GraphState,
    plan: Seq<(Seq<char>, u64)>,
    order: Seq<usize>,
) -> (Seq<JobView>, Seq<nat>)
    decreases order.len(),
{
    if order.len() == 0 {
        (Seq::empty(), Seq::new(plan.len(), |i: int| 0nat))
    } else {
        let (js, t) = jobs_in_order(reg, st, plan, order.drop_last());
        let good = st.nodes[order.last() as int];
        let pi = first_index(plan_ids(plan), good);
        if pi < plan.len() {
            jobs_for_good(
                js,
                t,
                plan,
                good,
                good_named(reg.goods, good)->0.source,
                process_named(reg.processes, good)->0.duration,
                dependencies_of(st, good),
                plan[pi].1 as nat,
            )
        } else {
            (js, t)
        }
    }
}

/// The registry knows the good and the process of a planned node, and its ingredient
/// totals fit in a `u64`.
pub open spec fn can_schedule(reg: RegistryView, st: GraphState, plan: Seq<(Seq<char>, u64)>, good: Seq<char>) -> bool {
    plan_ids(plan).contains(good) ==> {
        &&& good_named(reg.goods, good) is Some
        &&& process_named(reg.processes, good) is Some
        &&& sums_fit(dependencies_of(st, good))
    }
}

pub open spec fn can_schedule_all(reg: RegistryView, st: GraphState, plan: Seq<(Seq<char>, u64)>, order: Seq<usize>) -> bool {
    forall|k: int| 0 <= k < order.len() ==> can_schedule(reg, st, plan, st.nodes[#[trigger] order[k] as int])
}

fn job_name(good: &GoodId, i: u64) -> (r: JobId)
    ensures
        r@ == job_label(good@, i as nat),
{
    let mut s = good.0.clone();
    proof {
        reveal_strlit("_");
    }
    s.append("_");
    let d = decimal_string(i);
    s.append(d.as_str());
    JobId(s)
}

pub open spec fn taken_of(sup: Seq<(GoodId, u64, u64)>) -> Seq<nat> {
    sup.map_values(|e: (GoodId, u64, u64)| e.2 as nat)
}

/// The supply table follows the plan: entry by entry the same name and planned count,
/// and no more taken than planned.
pub open spec fn supply_ok(sup: Seq<(GoodId, u64, u64)>, plan: Seq<(Seq<char>, u64)>) -> bool {
    &&& sup.len() == plan.len()
    &&& forall|i: int|
        0 <= i < sup.len() ==> (#[trigger] sup[i]).0@ == plan[i].0 && sup[i].1 == plan[i].1
            && sup[i].2 <= sup[i].1
}

fn supply_table(plan: &ProductionPlan) -> (r: Vec<(GoodId, u64, u64)>)
    ensures
        supply_ok(r@, plan_view(*plan)),
        taken_of(r@) == Seq::new(plan_view(*plan).len(), |i: int| 0nat),
{
    let mut r: Vec<(GoodId, u64, u64)> = Vec::new();
    let mut i: usize = 0;
    while i < plan.counts.len()
        invariant
            i <= plan.counts@.len(),
            r@.len() == i,
            forall|k: int|
                0 <= k < i ==> (#[trigger] r@[k]).0@ == plan_view(*plan)[k].0 && r@[k].1
                    == plan_view(*plan)[k].1 && r@[k].2 == 0,
        decreases plan.counts@.len() - i,
    {
        r.push((GoodId(plan.counts[i].0.0.clone()), plan.counts[i].1, 0));
        i = i + 1;
    }
    assert(taken_of(r@) =~= Seq::new(plan_view(*plan).len(), |i: int| 0nat));
    r
}

fn supply_index(sup: &Vec<(GoodId, u64, u64)>, ing: &GoodId, Ghost(plan): Ghost<Seq<(Seq<char>, u64)>>) -> (r: Option<usize>)
    requires
        supply_ok(sup@, plan),
    ensures
        match r {
            Some(pi) => pi == first_index(plan_ids(plan), ing@) && pi < plan.len(),
            None => first_index(plan_ids(plan), ing@) == plan.len(),
        },
{
    let ghost ids = plan_ids(plan);
    let mut k: usize = 0;
    while k < sup.len()
        invariant
            k <= sup@.len(),
            supply_ok(sup@, plan),
            ids == plan_ids(plan),
            forall|j: int| 0 <= j < k ==> ids[j] != ing@,
        decreases sup@.len() - k,
    {
        assert(ids[k as int] == sup@[k as int].0@);
        if sup[k].0.0 == ing.0 {
            proof {
                lemma_first_index(ids, ing@);
                assert(ids.contains(ing@));
                if first_index(ids, ing@) < k {
                    assert(ids[first_index(ids, ing@)] == ing@);
                }
            }
            return Some(k);
        }
        k = k + 1;
    }
    proof {
        lemma_first_index(ids, ing@);
        assert(!ids.contains(ing@)) by {
            if ids.contains(ing@) {
                let j = choose|j: int| 0 <= j < ids.len() && ids[j] == ing@;
            }
        }
    }
    None
}

/// Takes up to `need` jobs of `ing` from the supply, appending their names to `out`.
fn take_from_supply(
    sup: &mut Vec<(GoodId, u64, u64)>,
    ing: &GoodId,
    need: u64,
    out: &mut Vec<JobId>,
    Ghost(plan): Ghost<Seq<(Seq<char>, u64)>>,
)
    requires
        supply_ok(old(sup)@, plan),
    ensures
        supply_ok(final(sup)@, plan),
        jids(final(out)@) == jids(old(out)@) + take_ingredient(plan, taken_of(old(sup)@), ing@, need as nat).0,
        taken_of(final(sup)@) == take_ingredient(plan, taken_of(old(sup)@), ing@, need as nat).1,
{
    let ghost t0 = taken_of(sup@);
    let ghost o0 = jids(out@);
    match supply_index(sup, ing, Ghost(plan)) {
        None => {
            assert(jids(out@) =~= o0 + Seq::<Seq<char>>::empty());
        },
        Some(pi) => {
            let count = sup[pi].1;
            let taken = sup[pi].2;
            assert(plan_ids(plan)[pi as int] == plan[pi as int].0);
            proof {
                lemma_first_index(plan_ids(plan), ing@);
            }
            assert(sup@[pi as int].0@ == ing@);
            let avail = count - taken;
            let k = if need <= avail { need } else { avail };
            let mut j: u64 = 0;
            while j < k
                invariant
                    j <= k,
                    k <= count - taken,
                    pi < sup@.len(),
                    sup@[pi as int].0@ == ing@,
                    sup@[pi as int].2 == taken,
                    sup@[pi as int].1 == count,
                    jids(out@) == o0 + labels(ing@, taken as nat, j as nat),
                decreases k - j,
            {
                let name = job_name(&sup[pi].0, taken + j + 1);
                let ghost before = jids(out@);
                out.push(name);
                assert(jids(out@) =~= before.push(name@));
                assert(labels(ing@, taken as nat, (j + 1) as nat) =~= labels(ing@, taken as nat, j as nat).push(
                    job_label(ing@, (taken + j + 1) as nat),
                ));
                j = j + 1;
            }
            let name = sup[pi].0.clone();
            let ghost s0 = sup@;
            sup.set(pi, (name, count, taken + k));
            proof {
                assert(taken_of(sup@) =~= t0.update(pi as int, (taken + k) as nat));
                assert forall|i: int| 0 <= i < sup@.len() implies (#[trigger] sup@[i]).0@ == plan[i].0
                    && sup@[i].1 == plan[i].1 && sup@[i].2 <= sup@[i].1 by {
                    if i != pi {
                        assert(sup@[i] == s0[i]);
                    }
                }
            }
        },
    }
}

/// Takes the ingredients of one job in recipe order, appending the names to `out`.
fn take_for_job(
    sup: &mut Vec<(GoodId, u64, u64)>,
    recipe: &Vec<(&GoodId, u64)>,
    out: &mut Vec<JobId>,
    Ghost(plan): Ghost<Seq<(Seq<char>, u64)>>,
)
    requires
        supply_ok(old(sup)@, plan),
    ensures
        supply_ok(final(sup)@, plan),
        jids(final(out)@) == jids(old(out)@) + take_recipe(plan, taken_of(old(sup)@), sums_view(recipe@)).0,
        taken_of(final(sup)@) == take_recipe(plan, taken_of(old(sup)@), sums_view(recipe@)).1,
{
    let ghost t0 = taken_of(sup@);
    let ghost o0 = jids(out@);
    let ghost rv = sums_view(recipe@);
    let mut r: usize = 0;
    assert(rv.take(0) =~= Seq::<(Seq<char>, nat)>::empty());
    assert(jids(out@) =~= o0 + Seq::<Seq<char>>::empty());
    while r < recipe.len()
        invariant
            r <= recipe@.len(),
            rv == sums_view(recipe@),
            supply_ok(sup@, plan),
            jids(out@) == o0 + take_recipe(plan, t0, rv.take(r as int)).0,
            taken_of(sup@) == take_recipe(plan, t0, rv.take(r as int)).1,
        decreases recipe@.len() - r,
    {
        let (ing, need) = recipe[r];
        assert(rv.take(r + 1).drop_last() =~= rv.take(r as int));
        assert(rv.take(r + 1).last() == (ing@, need as nat));
        let ghost before = jids(out@);
        take_from_supply(sup, ing, need, out, Ghost(plan));
        assert(jids(out@) =~= o0 + take_recipe(plan, t0, rv.take(r + 1)).0);
        r = r + 1;
    }
    assert(rv.take(recipe@.len() as int) =~= rv);
}

/// Appends the jobs of the graph nodes in `order` to a job list, in that order: for each
/// planned node, jobs 1 to its planned count, each taking its ingredients' jobs from
/// the planned supply, oldest first, as far as the supply lasts.
pub fn generate_jobs_in_order(
    registry: &Registry,
    graph: &DependencyGraph,
    plan: &ProductionPlan,
    order: &Vec<usize>,
) -> (r: Vec<Job>)
    requires
        graph.wf(),
        plan.wf(),
        forall|k: int| 0 <= k < order@.len() ==> #[trigger] order@[k] < graph_nodes(graph.inner).len(),
        can_schedule_all(registry@, graph.state(), plan_view(*plan), order@),
    ensures
        jobs_view(r@) == jobs_in_order(registry@, graph.state(), plan_view(*plan), order@).0,
{
    let ghost pv = plan_view(*plan);
    let ghost st = graph.state();
    let ghost reg = registry@;
    let mut sup = supply_table(plan);
    let mut jobs: Vec<Job> = Vec::new();
    let mut t: usize = 0;
    proof {
        assert(order@.take(0) =~= Seq::<usize>::empty());
        assert(jobs_view(jobs@) =~= Seq::<JobView>::empty());
    }
    while t < order.len()
        invariant
            t <= order@.len(),
            pv == plan_view(*plan),
            st == graph.state(),
            reg == registry@,
            graph.wf(),
            forall|k: int| 0 <= k < order@.len() ==> #[trigger] order@[k] < graph_nodes(graph.inner).len(),
            can_schedule_all(reg, st, pv, order@),
            supply_ok(sup@, pv),
            (jobs_view(jobs@), taken_of(sup@)) == jobs_in_order(reg, st, pv, order@.take(t as int)),
        decreases order@.len() - t,
    {
        let node = order[t];
        assert(order@.take(t + 1).drop_last() =~= order@.take(t as int));
        assert(order@.take(t + 1).last() == node);
        let good = graph_node_weight(&graph.inner, node);
        assert(good@ == st.nodes[node as int]);
        match supply_index(&sup, good, Ghost(pv)) {
            None => {},
            Some(pi) => {
                let q = sup[pi].1;
                assert(pv[pi as int].1 == q);
                proof {
                    lemma_first_index(plan_ids(pv), good@);
                    assert(plan_ids(pv).contains(good@));
                    assert(can_schedule(reg, st, pv, st.nodes[order@[t as int] as int]));
                }
                let recipe = graph.dependencies(good);
                let gi = match registry.find_good(good) {
                    Some(gi) => gi,
                    None => {
                        assert(false);
                        0
                    },
                };
                let pid = ProcessId(good.0.clone());
                let pix = match registry.find_process(&pid) {
                    Some(pix) => pix,
                    None => {
                        assert(false);
                        0
                    },
                };
                let machine = &registry.goods[gi].source;
                let duration = registry.processes[pix].duration;
                let ghost js0 = jobs_view(jobs@);
                let ghost tk0 = taken_of(sup@);
                let ghost rv = sums_view(recipe@);
                let mut k: u64 = 0;
                while k < q
                    invariant
                        k <= q,
                        supply_ok(sup@, pv),
                        rv == sums_view(recipe@),
                        (jobs_view(jobs@), taken_of(sup@)) == jobs_for_good(
                            js0,
                            tk0,
                            pv,
                            good@,
                            machine@,
                            duration,
                            rv,
                            k as nat,
                        ),
                    decreases q - k,
                {
                    let job_id = job_name(good, k + 1);
                    let mut consumes: Vec<JobId> = Vec::new();
                    assert(jids(consumes@) =~= Seq::<Seq<char>>::empty());
                    take_for_job(&mut sup, &recipe, &mut consumes, Ghost(pv));
                    assert(jids(consumes@) =~= Seq::<Seq<char>>::empty() + take_recipe(pv, jobs_for_good(js0, tk0, pv, good@, machine@, duration, rv, k as nat).1, rv).0);
                    let ghost jb = jobs_view(jobs@);
                    let job = Job {
                        job_id,
                        good_id: good.clone(),
                        machine_id: machine.clone(),
                        duration,
                        consumes,
                    };
                    jobs.push(job);
                    assert(jobs_view(jobs@) =~= jb.push(job@));
                    k = k + 1;
                }
            },
        }
        t = t + 1;
    }
    assert(order@.take(order@.len() as int) =~= order@);
    jobs
}

/// The jobs for a production plan, with the goods taken in the order in which
/// `petgraph`'s `Topo` walks the dependency graph (a topological walk, see
/// `is_topo_walk`; on a graph without cycles it visits every node, and it never visits
/// a node on or after a cycle: see `law_walk_of_acyclic_graph_is_complete` and
/// `law_walk_skips_cycles`). Each planned good of the walk has to be in the registry,
/// as a good and as a process, and its ingredient totals have to fit in a `u64`;
/// `generate_jobs_checked` tests that first.
pub fn generate_jobs(registry: &Registry, graph: &DependencyGraph, production_plan: ProductionPlan) -> (r: Vec<Job>)
    requires
        graph.wf(),
        production_plan.wf(),
        can_schedule_all(registry@, graph.state(), plan_view(production_plan), topo_order(graph.inner)),
    ensures
        is_topo_walk(graph_nodes(graph.inner).len(), graph_edges(graph.inner), topo_order(graph.inner)),
        jobs_view(r@) == jobs_in_order(registry@, graph.state(), plan_view(production_plan), topo_order(graph.inner)).0,
        job_ids(jobs_view(r@)).no_duplicates(),
        acyclic(graph.state()) ==> {
            &&& forall|pi: int, i: nat|
                0 <= pi < plan_view(production_plan).len() && graph.state().nodes.contains(
                    plan_view(production_plan)[pi].0,
                ) && 1 <= i <= plan_view(production_plan)[pi].1 ==> #[trigger] holds_job(
                    registry@,
                    jobs_view(r@),
                    plan_view(production_plan)[pi].0,
                    i,
                )
            &&& forall|j: int|
                0 <= j < r@.len() ==> planned_job(registry@, plan_view(production_plan), #[trigger] jobs_view(r@)[j])
            &&& consumed_known(jobs_view(r@))
            &&& consumed(jobs_view(r@)).no_duplicates()
            &&& forall|pi: int|
                #![trigger plan_view(production_plan)[pi]]
                0 <= pi < plan_view(production_plan).len() && graph.state().nodes.contains(
                    plan_view(production_plan)[pi].0,
                ) ==> exists|s: int|
                    job_block(
                        registry@,
                        jobs_view(r@),
                        plan_view(production_plan)[pi].0,
                        plan_view(production_plan)[pi].1 as nat,
                        s,
                    )
        },
{
    let ghost pv = plan_view(production_plan);
    let ghost st = graph.state();
    let order = graph_topo_order(&graph.inner);
    proof {
        law_job_names_distinct(registry@, st, pv, order@);
    }
    let nm = graph.node_map.len();
    proof {
        assert(node_map_view(graph.node_map@).len() == nm);
        if acyclic(st) {
            law_acyclic_plan_is_scheduled(registry@, st, pv, order@);
        }
    }
    generate_jobs_in_order(registry, graph, &production_plan, &order)
}

/// `generate_jobs`, or `None` where a planned good of the walk is missing from the
/// registry (as a good or as a process) or its ingredient totals overflow a `u64`.
pub fn generate_jobs_checked(registry: &Registry, graph: &DependencyGraph, production_plan: ProductionPlan) -> (r:
    Option<Vec<Job>>)
    requires
        graph.wf(),
        production_plan.wf(),
    ensures
        match r {
            Some(jobs) => can_schedule_all(
                registry@,
                graph.state(),
                plan_view(production_plan),
                topo_order(graph.inner),
            ) && jobs_view(jobs@) == jobs_in_order(
                registry@,
                graph.state(),
                plan_view(production_plan),
                topo_order(graph.inner),
            ).0,
            None => !can_schedule_all(
                registry@,
                graph.state(),
                plan_view(production_plan),
                topo_order(graph.inner),
            ),
        },
{
    let plan = &production_plan;
    let ghost pv = plan_view(*plan);
    let ghost st = graph.state();
    let order = graph_topo_order(&graph.inner);
    let sup = supply_table(plan);
    let mut t: usize = 0;
    while t < order.len()
        invariant
            t <= order@.len(),
            pv == plan_view(*plan),
            pv == plan_view(production_plan),
            st == graph.state(),
            graph.wf(),
            order@ == topo_order(graph.inner),
            is_topo_walk(graph_nodes(graph.inner).len(), graph_edges(graph.inner), order@),
            forall|k: int| 0 <= k < order@.len() ==> #[trigger] order@[k] < graph_nodes(graph.inner).len(),
            supply_ok(sup@, pv),
            forall|k: int| 0 <= k < t ==> can_schedule(registry@, st, pv, st.nodes[#[trigger] order@[k] as int]),
        decreases order@.len() - t,
    {
        let node = order[t];
        let good = graph_node_weight(&graph.inner, node);
        proof {
            lemma_first_index(plan_ids(pv), good@);
        }
        match supply_index(&sup, good, Ghost(pv)) {
            None => {
                assert(!plan_ids(pv).contains(good@));
            },
            Some(_) => {
                let pid = ProcessId(good.0.clone());
                if registry.find_good(good).is_none() || registry.find_process(&pid).is_none()
                    || graph.dependencies_checked(good).is_none() {
                    assert(!can_schedule(registry@, st, pv, st.nodes[order@[t as int] as int]));
                    assert(pv == plan_view(production_plan));
                    assert(!can_schedule_all(registry@, st, pv, order@));
                    return None;
                }
            },
        }
        t = t + 1;
    }
    Some(generate_jobs(registry, graph, production_plan))
}


/// Holds the jobs to be scheduled.
pub struct Scheduler {
    jobs: Vec<Job>,
}

impl Scheduler {
    pub closed spec fn jobs(&self) -> Seq<JobView> {
        jobs_view(self.jobs@)
    }

    pub fn new(jobs: Vec<Job>) -> (r: Self)
        ensures
            r.jobs() == jobs_view(jobs@),
    {
        Scheduler { jobs }
    }
}


// ---------------------------------------------------------------------------
// The scheduling model
// ---------------------------------------------------------------------------

pub open spec fn job_ids(js: Seq<JobView>) -> Seq<Seq<char>> {
    js.map_values(|j: JobView| j.job_id)
}

/// Each id of `ids` once, in order of first appearance.
pub open spec fn distinct_ids(ids: Seq<Seq<char>>) -> Seq<Seq<char>>
    decreases ids.len(),
{
    if ids.len() == 0 {
        Seq::empty()
    } else {
        let d = distinct_ids(ids.drop_last());
        if d.contains(ids.last()) {
            d
        } else {
            d.push(ids.last())
        }
    }
}

/// Position of the last occurrence of `x` in `s` (-1 when there is none).
pub open spec fn last_index(s: Seq<Seq<char>>, x: Seq<char>) -> int
    decreases s.len(),
{
    if s.len() == 0 {
        -1
    } else if s.last() == x {
        s.len() - 1
    } else {
        last_index(s.drop_last(), x)
    }
}

pub proof fn lemma_distinct_ids(ids: Seq<Seq<char>>)
    ensures
        distinct_ids(ids).no_duplicates(),
        forall|x: Seq<char>| distinct_ids(ids).contains(x) <==> ids.contains(x),
    decreases ids.len(),
{
    if ids.len() > 0 {
        let p = ids.drop_last();
        lemma_distinct_ids(p);
        assert forall|x: Seq<char>| ids.contains(x) <==> p.contains(x) || x == ids.last() by {
            if ids.contains(x) {
                let j = choose|j: int| 0 <= j < ids.len() && ids[j] == x;
                if j < ids.len() - 1 {
                    assert(p[j] == x);
                }
            }
            if p.contains(x) {
                let j = choose|j: int| 0 <= j < p.len() && p[j] == x;
                assert(ids[j] == x);
            }
            if x == ids.last() {
                assert(ids[ids.len() - 1] == x);
            }
        }
        let d = distinct_ids(p);
        if !d.contains(ids.last()) {
            assert forall|x: Seq<char>| d.push(ids.last()).contains(x) <==> d.contains(x) || x == ids.last() by {
                if d.push(ids.last()).contains(x) {
                    let j = choose|j: int| 0 <= j < d.len() + 1 && d.push(ids.last())[j] == x;
                    if j < d.len() {
                        assert(d[j] == x);
                    }
                }
                if d.contains(x) {
                    let j = choose|j: int| 0 <= j < d.len() && d[j] == x;
                    assert(d.push(ids.last())[j] == x);
                }
                if x == ids.last() {
                    assert(d.push(ids.last())[d.len() as int] == x);
                }
            }
        }
    }
}

pub proof fn lemma_last_index(s: Seq<Seq<char>>, x: Seq<char>)
    ensures
        s.contains(x) ==> 0 <= last_index(s, x) < s.len() && s[last_index(s, x)] == x,
        !s.contains(x) ==> last_index(s, x) == -1,
        forall|j: int| last_index(s, x) < j < s.len() ==> s[j] != x,
    decreases s.len(),
{
    if s.len() > 0 {
        let p = s.drop_last();
        if s.last() == x {
            assert(s.contains(x)) by {
                assert(s[s.len() - 1] == x);
            }
        } else {
            lemma_last_index(p, x);
            if s.contains(x) {
                let j = choose|j: int| 0 <= j < s.len() && s[j] == x;
                assert(p[j] == x);
            }
            if p.contains(x) {
                let j = choose|j: int| 0 <= j < p.len() && p[j] == x;
                assert(s[j] == x);
            }
            assert forall|j: int| last_index(s, x) < j < s.len() implies s[j] != x by {
                if j < s.len() - 1 {
                    assert(s[j] == p[j]);
                }
            }
        }
    }
}

/// Every job that a job consumes is one of the jobs.
pub open spec fn consumed_known(js: Seq<JobView>) -> bool {
    forall|k: int, d: int|
        0 <= k < js.len() && 0 <= d < js[k].consumes.len() ==> job_ids(js).contains(
            #[trigger] js[k].consumes[d],
        )
}

/// The start variable of the jobs named `x`: one variable per distinct job id, in
/// order of first appearance.
pub open spec fn id_var(js: Seq<JobView>, x: Seq<char>) -> int {
    first_index(distinct_ids(job_ids(js)), x)
}

/// The job that the name `x` stands for where names repeat: the last one.
pub open spec fn id_job(js: Seq<JobView>, x: Seq<char>) -> JobView {
    js[last_index(job_ids(js), x)]
}

/// Jobs `a` and `b`, `a` first, run on the same machine.
pub open spec fn machine_pair(js: Seq<JobView>, a: int, b: int) -> bool {
    0 <= a < b < js.len() && js[a].machine_id == js[b].machine_id
}

/// Sum of the durations of the jobs.
pub open spec fn total_duration(js: Seq<JobView>) -> nat
    decreases js.len(),
{
    if js.len() == 0 {
        0
    } else {
        total_duration(js.drop_last()) + js.last().duration as nat
    }
}

/// Two jobs on one machine. With the same good (as the jobs that their names stand
/// for have it), the second starts after the first ends; with different goods, a binary
/// variable picks which of the two runs first.
pub struct MachinePair {
    pub first: usize,
    pub second: usize,
    pub first_var: usize,
    pub second_var: usize,
    pub first_duration: u64,
    pub second_duration: u64,
    pub same_good: bool,
}

pub open spec fn expected_pair(js: Seq<JobView>, a: int, b: int) -> MachinePair {
    let x = js[a].job_id;
    let y = js[b].job_id;
    MachinePair {
        first: a as usize,
        second: b as usize,
        first_var: id_var(js, x) as usize,
        second_var: id_var(js, y) as usize,
        first_duration: id_job(js, x).duration,
        second_duration: id_job(js, y).duration,
        same_good: id_job(js, x).good_id == id_job(js, y).good_id,
    }
}

/// The mixed integer program that schedules the jobs, with start times and the
/// makespan as unknowns, the makespan to be minimised:
/// - `vars`: one start-time variable per distinct job name, with the job it stands for;
/// - `finish`: per job, its variable and duration; it ends by the makespan;
/// - `after`: per job, for each job it consumes, that job's variable and duration;
///   it starts once the consumed job has ended;
/// - `pairs`: each pair of jobs on one machine (see `MachinePair`);
/// - `big_m`: the sum of all durations, the constant of the either-or constraints.
pub struct ScheduleModel {
    pub vars: Vec<Job>,
    pub finish: Vec<(usize, u64)>,
    pub after: Vec<Vec<(usize, u64)>>,
    pub pairs: Vec<MachinePair>,
    pub big_m: u128,
}

pub open spec fn is_schedule_model(js: Seq<JobView>, m: ScheduleModel) -> bool {
    let ids = job_ids(js);
    let d = distinct_ids(ids);
    &&& jobs_view(m.vars@) == Seq::new(d.len(), |v: int| id_job(js, d[v]))
    &&& m.finish@ == Seq::new(js.len(), |k: int| (id_var(js, js[k].job_id) as usize, js[k].duration))
    &&& m.after@.len() == js.len()
    &&& forall|k: int|
        0 <= k < js.len() ==> (#[trigger] m.after@[k])@ == Seq::new(
            js[k].consumes.len(),
            |c: int| (id_var(js, js[k].consumes[c]) as usize, id_job(js, js[k].consumes[c]).duration),
        )
    &&& forall|k: int|
        0 <= k < m.pairs@.len() ==> machine_pair(js, (#[trigger] m.pairs@[k]).first as int, m.pairs@[k].second as int)
            && m.pairs@[k] == expected_pair(js, m.pairs@[k].first as int, m.pairs@[k].second as int)
    &&& forall|a: int, b: int|
        machine_pair(js, a, b) ==> exists|k: int|
            0 <= k < m.pairs@.len() && (#[trigger] m.pairs@[k]).first == a && m.pairs@[k].second == b
    &&& forall|k1: int, k2: int|
        0 <= k1 < k2 < m.pairs@.len() ==> ((#[trigger] m.pairs@[k1]).first, m.pairs@[k1].second) != (
            (#[trigger] m.pairs@[k2]).first,
            m.pairs@[k2].second,
        )
    &&& m.big_m == total_duration(js)
}


pub open spec fn var_ids(vars: Seq<Job>) -> Seq<Seq<char>> {
    job_ids(jobs_view(vars))
}

/// Position of the job named `id` among `vars`.
fn var_of(vars: &Vec<Job>, id: &JobId) -> (r: Option<usize>)
    ensures
        match r {
            Some(v) => v == first_index(var_ids(vars@), id@) && v < vars@.len(),
            None => !var_ids(vars@).contains(id@),
        },
{
    let ghost ids = var_ids(vars@);
    let mut k: usize = 0;
    while k < vars.len()
        invariant
            k <= vars@.len(),
            ids == var_ids(vars@),
            forall|j: int| 0 <= j < k ==> ids[j] != id@,
        decreases vars@.len() - k,
    {
        assert(ids[k as int] == vars@[k as int].job_id@);
        if vars[k].job_id.0 == id.0 {
            proof {
                lemma_first_index(ids, id@);
                assert(ids.contains(id@));
                if first_index(ids, id@) < k {
                    assert(ids[first_index(ids, id@)] == id@);
                }
            }
            return Some(k);
        }
        k = k + 1;
    }
    proof {
        assert(!ids.contains(id@)) by {
            if ids.contains(id@) {
                let j = choose|j: int| 0 <= j < ids.len() && ids[j] == id@;
            }
        }
    }
    None
}

/// For each distinct job name, in order of first appearance, the last job of that name.
fn representatives(jobs: &Vec<Job>) -> (vars: Vec<Job>)
    ensures
        var_ids(vars@) == distinct_ids(job_ids(jobs_view(jobs@))),
        jobs_view(vars@) == Seq::new(
            distinct_ids(job_ids(jobs_view(jobs@))).len(),
            |v: int| id_job(jobs_view(jobs@), distinct_ids(job_ids(jobs_view(jobs@)))[v]),
        ),
{
    let ghost js = jobs_view(jobs@);
    let ghost ids = job_ids(js);
    let mut vars: Vec<Job> = Vec::new();
    let mut k: usize = 0;
    proof {
        assert(ids.take(0) =~= Seq::<Seq<char>>::empty());
        assert(var_ids(vars@) =~= Seq::<Seq<char>>::empty());
    }
    while k < jobs.len()
        invariant
            k <= jobs@.len(),
            js == jobs_view(jobs@),
            ids == job_ids(js),
            var_ids(vars@) == distinct_ids(ids.take(k as int)),
            forall|v: int|
                0 <= v < vars@.len() ==> #[trigger] jobs_view(vars@)[v] == js[last_index(
                    ids.take(k as int),
                    var_ids(vars@)[v],
                )],
        decreases jobs@.len() - k,
    {
        let ghost t0 = ids.take(k as int);
        let ghost t1 = ids.take(k + 1);
        let ghost w0 = var_ids(vars@);
        let ghost vs0 = jobs_view(vars@);
        assert(t1.drop_last() =~= t0);
        assert(t1.last() == jobs@[k as int].job_id@);
        proof {
            lemma_distinct_ids(t0);
        }
        let job = jobs[k].clone();
        match var_of(&vars, &jobs[k].job_id) {
            Some(v) => {
                vars.set(v, job);
                proof {
                    lemma_first_index(w0, t1.last());
                    assert(var_ids(vars@) =~= w0);
                    assert forall|u: int| 0 <= u < vars@.len() implies #[trigger] jobs_view(vars@)[u]
                        == js[last_index(t1, var_ids(vars@)[u])] by {
                        if u != v {
                            assert(w0[u] != w0[v as int]);
                            assert(jobs_view(vars@)[u] == vs0[u]);
                        }
                    }
                }
            },
            None => {
                vars.push(job);
                proof {
                    assert(var_ids(vars@) =~= w0.push(t1.last()));
                    assert forall|u: int| 0 <= u < vars@.len() implies #[trigger] jobs_view(vars@)[u]
                        == js[last_index(t1, var_ids(vars@)[u])] by {
                        if u < w0.len() {
                            assert(w0.contains(w0[u]));
                            assert(jobs_view(vars@)[u] == vs0[u]);
                        }
                    }
                }
            },
        }
        k = k + 1;
    }
    proof {
        assert(ids.take(jobs@.len() as int) =~= ids);
        let d = distinct_ids(ids);
        assert(jobs_view(vars@) =~= Seq::new(d.len(), |v: int| id_job(js, d[v])));
    }
    vars
}


/// Per job, its start variable and its duration.
fn finish_rows(jobs: &Vec<Job>, vars: &Vec<Job>) -> (r: Vec<(usize, u64)>)
    requires
        var_ids(vars@) == distinct_ids(job_ids(jobs_view(jobs@))),
    ensures
        r@ == Seq::new(
            jobs@.len(),
            |k: int| (id_var(jobs_view(jobs@), jobs_view(jobs@)[k].job_id) as usize, jobs_view(jobs@)[k].duration),
        ),
{
    let ghost js = jobs_view(jobs@);
    let ghost ids = job_ids(js);
    proof {
        lemma_distinct_ids(ids);
    }
    let mut r: Vec<(usize, u64)> = Vec::new();
    let mut k: usize = 0;
    while k < jobs.len()
        invariant
            k <= jobs@.len(),
            js == jobs_view(jobs@),
            ids == job_ids(js),
            var_ids(vars@) == distinct_ids(ids),
            forall|x: Seq<char>| distinct_ids(ids).contains(x) <==> ids.contains(x),
            r@ == Seq::new(k as nat, |i: int| (id_var(js, js[i].job_id) as usize, js[i].duration)),
        decreases jobs@.len() - k,
    {
        assert(ids[k as int] == js[k as int].job_id);
        assert(ids.contains(js[k as int].job_id));
        let v = match var_of(vars, &jobs[k].job_id) {
            Some(v) => v,
            None => {
                assert(false);
                0
            },
        };
        r.push((v, jobs[k].duration));
        assert(r@ =~= Seq::new((k + 1) as nat, |i: int| (id_var(js, js[i].job_id) as usize, js[i].duration)));
        k = k + 1;
    }
    r
}

/// Per job, for each job it consumes: that job's variable and duration.
fn after_rows(jobs: &Vec<Job>, vars: &Vec<Job>) -> (r: Vec<Vec<(usize, u64)>>)
    requires
        consumed_known(jobs_view(jobs@)),
        var_ids(vars@) == distinct_ids(job_ids(jobs_view(jobs@))),
        jobs_view(vars@) == Seq::new(
            distinct_ids(job_ids(jobs_view(jobs@))).len(),
            |v: int| id_job(jobs_view(jobs@), distinct_ids(job_ids(jobs_view(jobs@)))[v]),
        ),
    ensures
        r@.len() == jobs@.len(),
        forall|k: int|
            0 <= k < jobs@.len() ==> (#[trigger] r@[k])@ == Seq::new(
                jobs_view(jobs@)[k].consumes.len(),
                |c: int| (
                    id_var(jobs_view(jobs@), jobs_view(jobs@)[k].consumes[c]) as usize,
                    id_job(jobs_view(jobs@), jobs_view(jobs@)[k].consumes[c]).duration,
                ),
            ),
{
    let ghost js = jobs_view(jobs@);
    let ghost ids = job_ids(js);
    let ghost d = distinct_ids(ids);
    proof {
        lemma_distinct_ids(ids);
    }
    let mut r: Vec<Vec<(usize, u64)>> = Vec::new();
    let mut k: usize = 0;
    while k < jobs.len()
        invariant
            k <= jobs@.len(),
            js == jobs_view(jobs@),
            ids == job_ids(js),
            d == distinct_ids(ids),
            consumed_known(js),
            var_ids(vars@) == d,
            jobs_view(vars@) == Seq::new(d.len(), |v: int| id_job(js, d[v])),
            forall|x: Seq<char>| d.contains(x) <==> ids.contains(x),
            r@.len() == k,
            forall|i: int|
                0 <= i < k ==> (#[trigger] r@[i])@ == Seq::new(
                    js[i].consumes.len(),
                    |c: int| (id_var(js, js[i].consumes[c]) as usize, id_job(js, js[i].consumes[c]).duration),
                ),
        decreases jobs@.len() - k,
    {
        let ghost cs = js[k as int].consumes;
        let mut row: Vec<(usize, u64)> = Vec::new();
        let mut c: usize = 0;
        while c < jobs[k].consumes.len()
            invariant
                k < jobs@.len(),
                c <= cs.len(),
                js == jobs_view(jobs@),
                ids == job_ids(js),
                d == distinct_ids(ids),
                cs == js[k as int].consumes,
                cs.len() == jobs@[k as int].consumes@.len(),
                consumed_known(js),
                var_ids(vars@) == d,
                jobs_view(vars@) == Seq::new(d.len(), |v: int| id_job(js, d[v])),
                forall|x: Seq<char>| d.contains(x) <==> ids.contains(x),
                row@ == Seq::new(c as nat, |i: int| (id_var(js, cs[i]) as usize, id_job(js, cs[i]).duration)),
            decreases cs.len() - c,
        {
            assert(cs[c as int] == jobs@[k as int].consumes@[c as int]@);
            assert(ids.contains(js[k as int].consumes[c as int]));
            let v = match var_of(vars, &jobs[k].consumes[c]) {
                Some(v) => v,
                None => {
                    assert(false);
                    0
                },
            };
            proof {
                lemma_first_index(d, cs[c as int]);
                assert(jobs_view(vars@)[v as int] == id_job(js, d[v as int]));
            }
            row.push((v, vars[v].duration));
            assert(row@ =~= Seq::new((c + 1) as nat, |i: int| (id_var(js, cs[i]) as usize, id_job(js, cs[i]).duration)));
            c = c + 1;
        }
        r.push(row);
        assert(r@[k as int]@ == Seq::new(
            js[k as int].consumes.len(),
            |c: int| (id_var(js, js[k as int].consumes[c]) as usize, id_job(js, js[k as int].consumes[c]).duration),
        ));
        k = k + 1;
    }
    r
}


pub open spec fn listed_before(a: int, b: int, i: int, j: int) -> bool {
    a < i || (a == i && b < j)
}

/// Every pair of jobs that run on the same machine, the earlier job first.
fn machine_pairs(jobs: &Vec<Job>, vars: &Vec<Job>, finish: &Vec<(usize, u64)>) -> (r: Vec<MachinePair>)
    requires
        var_ids(vars@) == distinct_ids(job_ids(jobs_view(jobs@))),
        jobs_view(vars@) == Seq::new(
            distinct_ids(job_ids(jobs_view(jobs@))).len(),
            |v: int| id_job(jobs_view(jobs@), distinct_ids(job_ids(jobs_view(jobs@)))[v]),
        ),
        finish@ == Seq::new(
            jobs@.len(),
            |k: int| (id_var(jobs_view(jobs@), jobs_view(jobs@)[k].job_id) as usize, jobs_view(jobs@)[k].duration),
        ),
    ensures
        forall|k: int|
            0 <= k < r@.len() ==> machine_pair(jobs_view(jobs@), (#[trigger] r@[k]).first as int, r@[k].second as int)
                && r@[k] == expected_pair(jobs_view(jobs@), r@[k].first as int, r@[k].second as int),
        forall|a: int, b: int|
            machine_pair(jobs_view(jobs@), a, b) ==> exists|k: int|
                0 <= k < r@.len() && (#[trigger] r@[k]).first == a && r@[k].second == b,
        forall|k1: int, k2: int|
            0 <= k1 < k2 < r@.len() ==> ((#[trigger] r@[k1]).first, r@[k1].second) != (
                (#[trigger] r@[k2]).first,
                r@[k2].second,
            ),
{
    let ghost js = jobs_view(jobs@);
    let ghost ids = job_ids(js);
    let ghost d = distinct_ids(ids);
    proof {
        lemma_distinct_ids(ids);
    }
    let n = jobs.len();
    let mut r: Vec<MachinePair> = Vec::new();
    let mut i: usize = 0;
    while i < n
        invariant
            n == jobs@.len(),
            i <= n,
            js == jobs_view(jobs@),
            ids == job_ids(js),
            d == distinct_ids(ids),
            var_ids(vars@) == d,
            jobs_view(vars@) == Seq::new(d.len(), |v: int| id_job(js, d[v])),
            finish@ == Seq::new(n as nat, |k: int| (id_var(js, js[k].job_id) as usize, js[k].duration)),
            forall|x: Seq<char>| d.contains(x) <==> ids.contains(x),
            forall|k: int|
                0 <= k < r@.len() ==> machine_pair(js, (#[trigger] r@[k]).first as int, r@[k].second as int)
                    && r@[k] == expected_pair(js, r@[k].first as int, r@[k].second as int)
                    && r@[k].first < i,
            forall|a: int, b: int|
                machine_pair(js, a, b) && a < i ==> exists|k: int|
                    0 <= k < r@.len() && (#[trigger] r@[k]).first == a && r@[k].second == b,
            forall|k1: int, k2: int|
                0 <= k1 < k2 < r@.len() ==> ((#[trigger] r@[k1]).first, r@[k1].second) != (
                    (#[trigger] r@[k2]).first,
                    r@[k2].second,
                ),
        decreases n - i,
    {
        let mut j: usize = i + 1;
        while j < n
            invariant
                n == jobs@.len(),
                i < n,
                i + 1 <= j <= n,
                js == jobs_view(jobs@),
                ids == job_ids(js),
                d == distinct_ids(ids),
                var_ids(vars@) == d,
                jobs_view(vars@) == Seq::new(d.len(), |v: int| id_job(js, d[v])),
                finish@ == Seq::new(n as nat, |k: int| (id_var(js, js[k].job_id) as usize, js[k].duration)),
                forall|x: Seq<char>| d.contains(x) <==> ids.contains(x),
                forall|k: int|
                    0 <= k < r@.len() ==> machine_pair(js, (#[trigger] r@[k]).first as int, r@[k].second as int)
                        && r@[k] == expected_pair(js, r@[k].first as int, r@[k].second as int)
                        && listed_before(r@[k].first as int, r@[k].second as int, i as int, j as int),
                forall|a: int, b: int|
                    machine_pair(js, a, b) && listed_before(a, b, i as int, j as int) ==> exists|k: int|
                        0 <= k < r@.len() && (#[trigger] r@[k]).first == a && r@[k].second == b,
                forall|k1: int, k2: int|
                    0 <= k1 < k2 < r@.len() ==> ((#[trigger] r@[k1]).first, r@[k1].second) != (
                        (#[trigger] r@[k2]).first,
                        r@[k2].second,
                    ),
            decreases n - j,
        {
            let ghost r0 = r@;
            if jobs[i].machine_id.0 == jobs[j].machine_id.0 {
                let a = finish[i].0;
                let b = finish[j].0;
                let nv = vars.len();
                proof {
                    assert(d.len() == nv);
                    let x = js[i as int].job_id;
                    let y = js[j as int].job_id;
                    assert(ids[i as int] == x && ids[j as int] == y);
                    assert(ids.contains(x) && ids.contains(y));
                    lemma_first_index(d, x);
                    lemma_first_index(d, y);
                    assert(jobs_view(vars@)[a as int] == id_job(js, d[a as int]));
                    assert(jobs_view(vars@)[b as int] == id_job(js, d[b as int]));
                    assert(finish@[i as int] == (id_var(js, x) as usize, js[i as int].duration));
                    assert(finish@[j as int] == (id_var(js, y) as usize, js[j as int].duration));
                    assert(id_var(js, x) == first_index(d, x));
                    assert(id_var(js, y) == first_index(d, y));
                    assert(a as int == id_var(js, x) && d[a as int] == x);
                    assert(b as int == id_var(js, y) && d[b as int] == y);
                }
                let p = MachinePair {
                    first: i,
                    second: j,
                    first_var: a,
                    second_var: b,
                    first_duration: vars[a].duration,
                    second_duration: vars[b].duration,
                    same_good: vars[a].good_id.0 == vars[b].good_id.0,
                };
                assert(p == expected_pair(js, i as int, j as int));
                r.push(p);
                proof {
                    assert(machine_pair(js, i as int, j as int));
                    assert(r@[r0.len() as int] == p);
                    assert forall|a2: int, b2: int|
                        machine_pair(js, a2, b2) && listed_before(a2, b2, i as int, j + 1) implies exists|k: int|
                            0 <= k < r@.len() && (#[trigger] r@[k]).first == a2 && r@[k].second == b2 by {
                        if a2 == i && b2 == j {
                            assert(r@[r0.len() as int].first == a2);
                        } else {
                            assert(listed_before(a2, b2, i as int, j as int));
                            let k = choose|k: int| 0 <= k < r0.len() && (#[trigger] r0[k]).first == a2 && r0[k].second == b2;
                            assert(r@[k] == r0[k]);
                        }
                    }
                    assert forall|k1: int, k2: int|
                        0 <= k1 < k2 < r@.len() implies ((#[trigger] r@[k1]).first, r@[k1].second) != (
                            (#[trigger] r@[k2]).first,
                            r@[k2].second,
                        ) by {
                        if k2 == r0.len() {
                            assert(r@[k1] == r0[k1]);
                            assert(listed_before(r0[k1].first as int, r0[k1].second as int, i as int, j as int));
                        } else {
                            assert(r@[k1] == r0[k1] && r@[k2] == r0[k2]);
                        }
                    }
                }
            } else {
                proof {
                    assert forall|a2: int, b2: int|
                        machine_pair(js, a2, b2) && listed_before(a2, b2, i as int, j + 1) implies exists|k: int|
                            0 <= k < r@.len() && (#[trigger] r@[k]).first == a2 && r@[k].second == b2 by {
                        if a2 == i && b2 == j {
                            assert(js[i as int].machine_id == jobs@[i as int].machine_id@);
                            assert(js[j as int].machine_id == jobs@[j as int].machine_id@);
                            assert(false);
                        } else {
                            assert(listed_before(a2, b2, i as int, j as int));
                        }
                    }
                }
            }
            j = j + 1;
        }
        i = i + 1;
    }
    r
}


/// Sum of the jobs' durations.
fn duration_sum(jobs: &Vec<Job>) -> (r: u128)
    ensures
        r == total_duration(jobs_view(jobs@)),
{
    let ghost js = jobs_view(jobs@);
    let mut sum: u128 = 0;
    let mut k: usize = 0;
    assert(js.take(0) =~= Seq::<JobView>::empty());
    while k < jobs.len()
        invariant
            k <= jobs@.len(),
            js == jobs_view(jobs@),
            sum == total_duration(js.take(k as int)),
            sum <= k * 0xffff_ffff_ffff_ffffu128,
        decreases jobs@.len() - k,
    {
        assert(js.take(k + 1).drop_last() =~= js.take(k as int));
        assert((k + 1) * 0xffff_ffff_ffff_ffffu128 <= 0xffff_ffff_ffff_ffffu128 * 0xffff_ffff_ffff_ffffu128)
            by (nonlinear_arith)
            requires
                k + 1 <= 0xffff_ffff_ffff_ffffu128,
        ;
        sum = sum + jobs[k].duration as u128;
        k = k + 1;
    }
    assert(js.take(jobs@.len() as int) =~= js);
    sum
}

impl Scheduler {
    /// Every job that a job consumes is among the jobs, as `model` needs.
    pub fn can_model(&self) -> (r: bool)
        ensures
            r == consumed_known(self.jobs()),
    {
        let ghost js = self.jobs();
        let ghost ids = job_ids(js);
        let mut k: usize = 0;
        while k < self.jobs.len()
            invariant
                k <= self.jobs@.len(),
                js == jobs_view(self.jobs@),
                ids == job_ids(js),
                forall|i: int, c: int|
                    0 <= i < k && 0 <= c < js[i].consumes.len() ==> ids.contains(#[trigger] js[i].consumes[c]),
            decreases self.jobs@.len() - k,
        {
            let mut c: usize = 0;
            while c < self.jobs[k].consumes.len()
                invariant
                    k < self.jobs@.len(),
                    c <= self.jobs@[k as int].consumes@.len(),
                    js == jobs_view(self.jobs@),
                    ids == job_ids(js),
                    forall|i: int, c2: int|
                        0 <= i < k && 0 <= c2 < js[i].consumes.len() ==> ids.contains(#[trigger] js[i].consumes[c2]),
                    forall|c2: int| 0 <= c2 < c ==> ids.contains(#[trigger] js[k as int].consumes[c2]),
                decreases self.jobs@[k as int].consumes@.len() - c,
            {
                assert(js[k as int].consumes[c as int] == self.jobs@[k as int].consumes@[c as int]@);
                let mut found = false;
                let mut i: usize = 0;
                while i < self.jobs.len()
                    invariant
                        k < self.jobs@.len(),
                        c < self.jobs@[k as int].consumes@.len(),
                        i <= self.jobs@.len(),
                        js == jobs_view(self.jobs@),
                        ids == job_ids(js),
                        found ==> ids.contains(js[k as int].consumes[c as int]),
                        !found ==> forall|j: int| 0 <= j < i ==> ids[j] != js[k as int].consumes[c as int],
                    decreases self.jobs@.len() - i,
                {
                    assert(ids[i as int] == self.jobs@[i as int].job_id@);
                    if self.jobs[i].job_id.0 == self.jobs[k].consumes[c].0 {
                        found = true;
                    }
                    i = i + 1;
                }
                if !found {
                    proof {
                        assert(!ids.contains(js[k as int].consumes[c as int]));
                    }
                    return false;
                }
                c = c + 1;
            }
            k = k + 1;
        }
        true
    }

    /// The scheduling program for the jobs: start variables, end-by-makespan rows,
    /// consume precedences, same-machine pairs and the big constant.
    pub fn model(&self) -> (m: ScheduleModel)
        requires
            consumed_known(self.jobs()),
        ensures
            is_schedule_model(self.jobs(), m),
    {
        let vars = representatives(&self.jobs);
        let finish = finish_rows(&self.jobs, &vars);
        let after = after_rows(&self.jobs, &vars);
        let pairs = machine_pairs(&self.jobs, &vars, &finish);
        let ghost pairs_ghost = pairs@;
        let big_m = duration_sum(&self.jobs);
        let m = ScheduleModel { vars, finish, after, pairs, big_m };
        let ghost js = self.jobs();
        assert forall|a: int, b: int| machine_pair(js, a, b) implies exists|k: int|
            0 <= k < m.pairs@.len() && (#[trigger] m.pairs@[k]).first == a && m.pairs@[k].second == b by {
            let k = choose|k: int| 0 <= k < pairs_ghost.len() && (#[trigger] pairs_ghost[k]).first == a && pairs_ghost[k].second == b;
            assert(m.pairs@[k] == pairs_ghost[k]);
        }
        m
    }
}


proof fn lemma_distinct_ids_of_distinct(ids: Seq<Seq<char>>)
    requires
        ids.no_duplicates(),
    ensures
        distinct_ids(ids) == ids,
    decreases ids.len(),
{
    if ids.len() > 0 {
        let p = ids.drop_last();
        assert(p.no_duplicates());
        lemma_distinct_ids_of_distinct(p);
        assert(!p.contains(ids.last())) by {
            if p.contains(ids.last()) {
                let j = choose|j: int| 0 <= j < p.len() && p[j] == ids.last();
                assert(ids[j] == ids[ids.len() - 1]);
            }
        }
        assert(p.push(ids.last()) =~= ids);
    }
}

/// Where no two jobs share a name, each job has a start variable of its own: the
/// variables stand for the jobs themselves, in order, and job `k` ends by the makespan
/// through variable `k`.
pub proof fn law_distinct_jobs_own_variables(js: Seq<JobView>, m: ScheduleModel)
    requires
        is_schedule_model(js, m),
        job_ids(js).no_duplicates(),
    ensures
        jobs_view(m.vars@) == js,
        forall|k: int| 0 <= k < js.len() ==> #[trigger] m.finish@[k] == (k as usize, js[k].duration),
{
    let ids = job_ids(js);
    lemma_distinct_ids_of_distinct(ids);
    assert forall|k: int| 0 <= k < js.len() implies id_var(js, js[k].job_id) == k && id_job(js, js[k].job_id)
        == js[k] by {
        assert(ids[k] == js[k].job_id);
        lemma_first_index_unique(ids, k);
        lemma_last_index(ids, ids[k]);
        assert(ids.contains(ids[k]));
        let li = last_index(ids, ids[k]);
        if li != k {
            assert(ids[li] == ids[k]);
        }
    }
    assert(jobs_view(m.vars@) =~= js);
}


/// The variable of the name `x` of a job stands for the job that the name stands for.
proof fn lemma_name_variable(js: Seq<JobView>, m: ScheduleModel, a: int)
    requires
        is_schedule_model(js, m),
        0 <= a < js.len(),
    ensures
        0 <= id_var(js, js[a].job_id) < m.vars@.len() <= usize::MAX,
        jobs_view(m.vars@)[id_var(js, js[a].job_id)] == id_job(js, js[a].job_id),
{
    let ids = job_ids(js);
    let d = distinct_ids(ids);
    let x = js[a].job_id;
    assert(ids[a] == x);
    assert(ids.contains(x));
    lemma_distinct_ids(ids);
    assert(d.contains(x));
    lemma_first_index(d, x);
    let v = id_var(js, x);
    assert(d[v] == x);
    assert(jobs_view(m.vars@).len() == m.vars@.len());
    assert(m.vars.len() == m.vars@.len());
    assert(jobs_view(m.vars@)[v] == Seq::new(d.len(), |w: int| id_job(js, d[w]))[v]);
}

/// A machine pair is marked `same_good` exactly when the jobs that its two names stand
/// for make the same good, whatever their durations; where no two jobs share a name,
/// exactly when the two jobs themselves make the same good.
pub proof fn law_machine_pairs_same_good(js: Seq<JobView>, m: ScheduleModel)
    requires
        is_schedule_model(js, m),
    ensures
        forall|k: int|
            0 <= k < m.pairs@.len() ==> {
                &&& (#[trigger] m.pairs@[k]).first_var < m.vars@.len()
                &&& m.pairs@[k].second_var < m.vars@.len()
                &&& m.pairs@[k].same_good <==> jobs_view(m.vars@)[m.pairs@[k].first_var as int].good_id
                    == jobs_view(m.vars@)[m.pairs@[k].second_var as int].good_id
            },
        job_ids(js).no_duplicates() ==> forall|k: int|
            0 <= k < m.pairs@.len() ==> ((#[trigger] m.pairs@[k]).same_good <==> js[m.pairs@[k].first as int].good_id
                == js[m.pairs@[k].second as int].good_id),
{
    assert forall|k: int| 0 <= k < m.pairs@.len() implies {
        &&& (#[trigger] m.pairs@[k]).first_var < m.vars@.len()
        &&& m.pairs@[k].second_var < m.vars@.len()
        &&& m.pairs@[k].same_good <==> jobs_view(m.vars@)[m.pairs@[k].first_var as int].good_id
            == jobs_view(m.vars@)[m.pairs@[k].second_var as int].good_id
    } by {
        let a = m.pairs@[k].first as int;
        let b = m.pairs@[k].second as int;
        assert(machine_pair(js, a, b));
        assert(m.pairs@[k] == expected_pair(js, a, b));
        lemma_name_variable(js, m, a);
        lemma_name_variable(js, m, b);
        assert(m.pairs@[k].first_var as int == id_var(js, js[a].job_id));
        assert(m.pairs@[k].second_var as int == id_var(js, js[b].job_id));
    }
    if job_ids(js).no_duplicates() {
        let ids = job_ids(js);
        assert forall|k: int| 0 <= k < m.pairs@.len() implies ((#[trigger] m.pairs@[k]).same_good
            <==> js[m.pairs@[k].first as int].good_id == js[m.pairs@[k].second as int].good_id) by {
            let a = m.pairs@[k].first as int;
            let b = m.pairs@[k].second as int;
            assert(machine_pair(js, a, b));
            assert(ids[a] == js[a].job_id);
            assert(ids[b] == js[b].job_id);
            lemma_last_index(ids, ids[a]);
            lemma_last_index(ids, ids[b]);
            assert(ids.contains(ids[a]));
            assert(ids.contains(ids[b]));
            let la = last_index(ids, ids[a]);
            let lb = last_index(ids, ids[b]);
            if la != a {
                assert(ids[la] == ids[a]);
            }
            if lb != b {
                assert(ids[lb] == ids[b]);
            }
        }
    }
}


/// Each machine pair joins two jobs on one machine, the first before the second in the
/// job list, and names them by their start variables: the variable of each stands for a
/// job of that name, and the pair carries that job's duration.
pub proof fn law_machine_pairs_name_their_jobs(js: Seq<JobView>, m: ScheduleModel)
    requires
        is_schedule_model(js, m),
    ensures
        forall|k: int|
            0 <= k < m.pairs@.len() ==> {
                let pr = #[trigger] m.pairs@[k];
                let vs = jobs_view(m.vars@);
                &&& pr.first < pr.second < js.len()
                &&& js[pr.first as int].machine_id == js[pr.second as int].machine_id
                &&& pr.first_var < vs.len() && pr.second_var < vs.len()
                &&& vs[pr.first_var as int].job_id == js[pr.first as int].job_id
                &&& vs[pr.second_var as int].job_id == js[pr.second as int].job_id
                &&& pr.first_duration == vs[pr.first_var as int].duration
                &&& pr.second_duration == vs[pr.second_var as int].duration
            },
{
    let ids = job_ids(js);
    assert forall|k: int| 0 <= k < m.pairs@.len() implies {
        let pr = #[trigger] m.pairs@[k];
        let vs = jobs_view(m.vars@);
        &&& pr.first < pr.second < js.len()
        &&& js[pr.first as int].machine_id == js[pr.second as int].machine_id
        &&& pr.first_var < vs.len() && pr.second_var < vs.len()
        &&& vs[pr.first_var as int].job_id == js[pr.first as int].job_id
        &&& vs[pr.second_var as int].job_id == js[pr.second as int].job_id
        &&& pr.first_duration == vs[pr.first_var as int].duration
        &&& pr.second_duration == vs[pr.second_var as int].duration
    } by {
        let a = m.pairs@[k].first as int;
        let b = m.pairs@[k].second as int;
        assert(machine_pair(js, a, b));
        assert(m.pairs@[k] == expected_pair(js, a, b));
        lemma_name_variable(js, m, a);
        lemma_name_variable(js, m, b);
        assert(m.pairs@[k].first_var as int == id_var(js, js[a].job_id));
        assert(m.pairs@[k].second_var as int == id_var(js, js[b].job_id));
        assert(ids[a] == js[a].job_id);
        assert(ids[b] == js[b].job_id);
        assert(ids.contains(ids[a]));
        assert(ids.contains(ids[b]));
        lemma_last_index(ids, ids[a]);
        lemma_last_index(ids, ids[b]);
        assert(jobs_view(m.vars@).len() == m.vars@.len());
    }
}


// ---------------------------------------------------------------------------
// Job names
// ---------------------------------------------------------------------------

/// Two job names are equal only for the same good and the same number: a name ends in
/// digits, after the last underscore.
pub proof fn lemma_job_label_injective(g1: Seq<char>, i1: nat, g2: Seq<char>, i2: nat)
    requires
        job_label(g1, i1) == job_label(g2, i2),
    ensures
        g1 == g2,
        i1 == i2,
{
    lemma_decimal(i1);
    lemma_decimal(i2);
    let l1 = job_label(g1, i1);
    let l2 = job_label(g2, i2);
    assert(l1.len() == g1.len() + 1 + decimal(i1).len());
    assert(l2.len() == g2.len() + 1 + decimal(i2).len());
    if g1.len() < g2.len() {
        let p = g2.len() as int;
        assert(l2[p] == '_');
        assert(l1[p] == decimal(i1)[p - g1.len() - 1]);
        assert(is_digit(decimal(i1)[p - g1.len() - 1]));
        assert(false);
    } else if g2.len() < g1.len() {
        let p = g1.len() as int;
        assert(l1[p] == '_');
        assert(l2[p] == decimal(i2)[p - g2.len() - 1]);
        assert(is_digit(decimal(i2)[p - g2.len() - 1]));
        assert(false);
    }
    assert(g1 =~= l1.take(g1.len() as int));
    assert(g2 =~= l2.take(g2.len() as int));
    assert(decimal(i1) =~= l1.skip(g1.len() as int + 1));
    assert(decimal(i2) =~= l2.skip(g2.len() as int + 1));
    lemma_decimal_injective(i1, i2);
}

proof fn lemma_jobs_for_good(
    jobs: Seq<JobView>,
    taken: Seq<nat>,
    plan: Seq<(Seq<char>, u64)>,
    good: Seq<char>,
    machine: Seq<char>,
    duration: u64,
    recipe: Seq<(Seq<char>, nat)>,
    q: nat,
)
    ensures
        ({
            let js = jobs_for_good(jobs, taken, plan, good, machine, duration, recipe, q).0;
            &&& js.len() == jobs.len() + q
            &&& forall|j: int| 0 <= j < jobs.len() ==> #[trigger] js[j] == jobs[j]
            &&& forall|i: int|
                0 <= i < q ==> (#[trigger] js[jobs.len() + i]).job_id == job_label(good, (i + 1) as nat)
                    && js[jobs.len() + i].good_id == good && js[jobs.len() + i].machine_id == machine
                    && js[jobs.len() + i].duration == duration
        }),
    decreases q,
{
    if q > 0 {
        lemma_jobs_for_good(jobs, taken, plan, good, machine, duration, recipe, (q - 1) as nat);
    }
}

/// The name of job `j` is its good's name with a number of at least one.
pub open spec fn labelled(j: JobView) -> bool {
    exists|i: nat| i >= 1 && #[trigger] job_label(j.good_id, i) == j.job_id
}

/// The goods of the nodes in `order`.
pub open spec fn order_goods(st: GraphState, order: Seq<usize>) -> Seq<Seq<char>> {
    order.map_values(|i: usize| st.nodes[i as int])
}

proof fn lemma_jobs_in_order_names(reg: RegistryView, st: GraphState, plan: Seq<(Seq<char>, u64)>, order: Seq<usize>)
    requires
        st.nodes.no_duplicates(),
        order.no_duplicates(),
        forall|k: int| 0 <= k < order.len() ==> #[trigger] order[k] < st.nodes.len(),
    ensures
        ({
            let js = jobs_in_order(reg, st, plan, order).0;
            &&& job_ids(js).no_duplicates()
            &&& forall|j: int| 0 <= j < js.len() ==> order_goods(st, order).contains(#[trigger] js[j].good_id)
            &&& forall|j: int| 0 <= j < js.len() ==> labelled(#[trigger] js[j])
        }),
    decreases order.len(),
{
    if order.len() > 0 {
        let prev = order.drop_last();
        assert(prev.no_duplicates());
        lemma_jobs_in_order_names(reg, st, plan, prev);
        let (js0, t) = jobs_in_order(reg, st, plan, prev);
        let good = st.nodes[order.last() as int];
        let pi = first_index(plan_ids(plan), good);
        let og0 = order_goods(st, prev);
        let og = order_goods(st, order);
        assert(og =~= og0.push(good));
        assert forall|x: Seq<char>| og0.contains(x) implies og.contains(x) by {
            let k = choose|k: int| 0 <= k < og0.len() && og0[k] == x;
            assert(og[k] == x);
        }
        assert(og.contains(good)) by {
            assert(og[og.len() - 1] == good);
        }
        assert(!og0.contains(good)) by {
            if og0.contains(good) {
                let k = choose|k: int| 0 <= k < og0.len() && og0[k] == good;
                assert(st.nodes[prev[k] as int] == st.nodes[order.last() as int]);
                assert(prev[k] == order[k]);
                assert(order[k] == order[order.len() - 1]);
            }
        }
        if pi < plan.len() {
            let q = plan[pi].1 as nat;
            let machine = good_named(reg.goods, good)->0.source;
            let duration = process_named(reg.processes, good)->0.duration;
            let recipe = dependencies_of(st, good);
            lemma_jobs_for_good(js0, t, plan, good, machine, duration, recipe, q);
            let js = jobs_in_order(reg, st, plan, order).0;
            assert(js == jobs_for_good(js0, t, plan, good, machine, duration, recipe, q).0);
            let n0 = js0.len() as int;
            assert forall|j: int| #![trigger js[j]] 0 <= j < js.len() implies og.contains(js[j].good_id) && labelled(js[j]) by {
                if j < n0 {
                    assert(js[j] == js0[j]);
                    assert(og0.contains(js0[j].good_id));
                    assert(labelled(js0[j]));
                } else {
                    assert(js[n0 + (j - n0)].job_id == job_label(good, (j - n0 + 1) as nat));
                    assert(job_label(js[j].good_id, (j - n0 + 1) as nat) == js[j].job_id);
                }
            }
            assert forall|a: int, b: int| 0 <= a < b < js.len() implies job_ids(js)[a] != job_ids(js)[b] by {
                if b < n0 {
                    assert(js[a] == js0[a] && js[b] == js0[b]);
                    assert(job_ids(js0)[a] != job_ids(js0)[b]);
                } else if a < n0 {
                    assert(js[a] == js0[a]);
                    assert(labelled(js0[a]));
                    let i = choose|i: nat| i >= 1 && #[trigger] job_label(js0[a].good_id, i) == js0[a].job_id;
                    assert(js[n0 + (b - n0)].job_id == job_label(good, (b - n0 + 1) as nat));
                    if job_ids(js)[a] == job_ids(js)[b] {
                        lemma_job_label_injective(js0[a].good_id, i, good, (b - n0 + 1) as nat);
                        assert(og0.contains(js0[a].good_id));
                    }
                } else {
                    assert(js[n0 + (a - n0)].job_id == job_label(good, (a - n0 + 1) as nat));
                    assert(js[n0 + (b - n0)].job_id == job_label(good, (b - n0 + 1) as nat));
                    if job_ids(js)[a] == job_ids(js)[b] {
                        lemma_job_label_injective(good, (a - n0 + 1) as nat, good, (b - n0 + 1) as nat);
                    }
                }
            }
            assert forall|a: int, b: int| 0 <= a < js.len() && 0 <= b < js.len() && a != b implies job_ids(js)[a]
                != job_ids(js)[b] by {
                if b < a {
                    assert(job_ids(js)[b] != job_ids(js)[a]);
                }
            }
        } else {
            let js = jobs_in_order(reg, st, plan, order).0;
            assert(js == js0);
            assert forall|j: int| #![trigger js[j]] 0 <= j < js.len() implies og.contains(js[j].good_id) && labelled(js[j]) by {
                assert(og0.contains(js0[j].good_id));
                assert(labelled(js0[j]));
            }
        }
    }
}

/// Jobs made by walking distinct nodes of a graph whose node names are distinct have
/// distinct names: `good_1`, `good_2`, ... for each planned good, and no name is made twice.
pub proof fn law_job_names_distinct(reg: RegistryView, st: GraphState, plan: Seq<(Seq<char>, u64)>, order: Seq<usize>)
    requires
        st.nodes.no_duplicates(),
        order.no_duplicates(),
        forall|k: int| 0 <= k < order.len() ==> #[trigger] order[k] < st.nodes.len(),
    ensures
        job_ids(jobs_in_order(reg, st, plan, order).0).no_duplicates(),
{
    lemma_jobs_in_order_names(reg, st, plan, order);
}


// ---------------------------------------------------------------------------
// What the jobs consume
// ---------------------------------------------------------------------------

/// All the job names that the jobs consume, job by job.
pub open spec fn consumed(js: Seq<JobView>) -> Seq<Seq<char>>
    decreases js.len(),
{
    if js.len() == 0 {
        Seq::empty()
    } else {
        consumed(js.drop_last()) + js.last().consumes
    }
}

/// `x` names one of the first `t[pi]` jobs of some plan entry `pi`.
pub open spec fn taken_label(plan: Seq<(Seq<char>, u64)>, t: Seq<nat>, x: Seq<char>) -> bool {
    exists|pi: int, i: nat|
        0 <= pi < plan.len() && 1 <= i <= t[pi] && #[trigger] job_label(plan[pi].0, i) == x
}

/// The consumed names `c` are distinct, and each is one of the jobs that `t` counts as
/// taken, with no more taken of an entry than planned.
pub open spec fn supply_accounted(plan: Seq<(Seq<char>, u64)>, c: Seq<Seq<char>>, t: Seq<nat>) -> bool {
    &&& t.len() == plan.len()
    &&& forall|pi: int| 0 <= pi < plan.len() ==> #[trigger] t[pi] <= plan[pi].1
    &&& c.no_duplicates()
    &&& forall|x: Seq<char>| c.contains(x) ==> taken_label(plan, t, x)
}

pub open spec fn grows(t: Seq<nat>, t2: Seq<nat>) -> bool {
    t2.len() == t.len() && forall|pi: int| 0 <= pi < t.len() ==> #[trigger] t[pi] <= t2[pi]
}

proof fn lemma_taken_label_grows(plan: Seq<(Seq<char>, u64)>, t: Seq<nat>, t2: Seq<nat>, x: Seq<char>)
    requires
        t.len() == plan.len(),
        grows(t, t2),
        taken_label(plan, t, x),
    ensures
        taken_label(plan, t2, x),
{
    let (pi, i) = choose|pi: int, i: nat|
        0 <= pi < plan.len() && 1 <= i <= t[pi] && #[trigger] job_label(plan[pi].0, i) == x;
    assert(t[pi] <= t2[pi]);
}

proof fn lemma_take_ingredient(plan: Seq<(Seq<char>, u64)>, c: Seq<Seq<char>>, t: Seq<nat>, ing: Seq<char>, need: nat)
    requires
        plan_ids(plan).no_duplicates(),
        supply_accounted(plan, c, t),
    ensures
        supply_accounted(plan, c + take_ingredient(plan, t, ing, need).0, take_ingredient(plan, t, ing, need).1),
        grows(t, take_ingredient(plan, t, ing, need).1),
{
    let ids = plan_ids(plan);
    let pi = first_index(ids, ing);
    lemma_first_index(ids, ing);
    let (new, t2) = take_ingredient(plan, t, ing, need);
    broadcast use vstd::seq_lib::lemma_seq_concat_contains_all_elements;
    if pi < plan.len() {
        let tp = t[pi];
        assert(ids[pi] == plan[pi].0);
        let k: nat = if need <= plan[pi].1 - tp { need } else { (plan[pi].1 - tp) as nat };
        assert(new == labels(ing, tp, k));
        assert forall|a: int, b: int| 0 <= a < new.len() && 0 <= b < new.len() && a != b implies new[a] != new[b] by {
            if new[a] == new[b] {
                lemma_job_label_injective(ing, (tp + a + 1) as nat, ing, (tp + b + 1) as nat);
            }
        }
        assert forall|a: int, b: int| 0 <= a < c.len() && 0 <= b < new.len() implies c[a] != new[b] by {
            if c[a] == new[b] {
                assert(c.contains(c[a]));
                let (pj, i) = choose|pj: int, i: nat|
                    0 <= pj < plan.len() && 1 <= i <= t[pj] && #[trigger] job_label(plan[pj].0, i) == c[a];
                lemma_job_label_injective(plan[pj].0, i, ing, (tp + b + 1) as nat);
                assert(ids[pj] == plan[pj].0);
                if pj != pi {
                    assert(ids[pj] == ids[pi]);
                }
            }
        }
        vstd::seq_lib::lemma_no_dup_in_concat(c, new);
        assert forall|pj: int| 0 <= pj < t.len() implies #[trigger] t[pj] <= t2[pj] by {}
        assert forall|x: Seq<char>| (c + new).contains(x) implies taken_label(plan, t2, x) by {
            if c.contains(x) {
                lemma_taken_label_grows(plan, t, t2, x);
            } else {
                let m = choose|m: int| 0 <= m < new.len() && new[m] == x;
                assert(job_label(plan[pi].0, (tp + m + 1) as nat) == x);
            }
        }
        assert forall|pj: int| 0 <= pj < plan.len() implies #[trigger] t2[pj] <= plan[pj].1 by {
            if pj != pi {
                assert(t2[pj] == t[pj]);
            }
        }
    } else {
        assert(c + new =~= c);
        assert(t2 == t);
    }
}

proof fn lemma_take_recipe(
    plan: Seq<(Seq<char>, u64)>,
    c: Seq<Seq<char>>,
    t: Seq<nat>,
    recipe: Seq<(Seq<char>, nat)>,
)
    requires
        plan_ids(plan).no_duplicates(),
        supply_accounted(plan, c, t),
    ensures
        supply_accounted(plan, c + take_recipe(plan, t, recipe).0, take_recipe(plan, t, recipe).1),
        grows(t, take_recipe(plan, t, recipe).1),
    decreases recipe.len(),
{
    if recipe.len() > 0 {
        let (c1, t1) = take_recipe(plan, t, recipe.drop_last());
        lemma_take_recipe(plan, c, t, recipe.drop_last());
        lemma_take_ingredient(plan, c + c1, t1, recipe.last().0, recipe.last().1);
        let (c2, t2) = take_ingredient(plan, t1, recipe.last().0, recipe.last().1);
        assert(c + c1 + c2 =~= c + (c1 + c2));
        assert forall|pj: int| 0 <= pj < t.len() implies #[trigger] t[pj] <= t2[pj] by {
            assert(t1[pj] <= t2[pj]);
        }
    } else {
        assert(c + Seq::<Seq<char>>::empty() =~= c);
    }
}

proof fn lemma_jobs_for_good_consumed(
    jobs: Seq<JobView>,
    taken: Seq<nat>,
    plan: Seq<(Seq<char>, u64)>,
    good: Seq<char>,
    machine: Seq<char>,
    duration: u64,
    recipe: Seq<(Seq<char>, nat)>,
    q: nat,
)
    requires
        plan_ids(plan).no_duplicates(),
        supply_accounted(plan, consumed(jobs), taken),
    ensures
        ({
            let (js, t) = jobs_for_good(jobs, taken, plan, good, machine, duration, recipe, q);
            supply_accounted(plan, consumed(js), t)
        }),
    decreases q,
{
    if q > 0 {
        lemma_jobs_for_good_consumed(jobs, taken, plan, good, machine, duration, recipe, (q - 1) as nat);
        let (js, t1) = jobs_for_good(jobs, taken, plan, good, machine, duration, recipe, (q - 1) as nat);
        lemma_take_recipe(plan, consumed(js), t1, recipe);
        let (c, t2) = take_recipe(plan, t1, recipe);
        let job = JobView { job_id: job_label(good, q), good_id: good, machine_id: machine, duration, consumes: c };
        assert(js.push(job).drop_last() =~= js);
        assert(consumed(js.push(job)) == consumed(js) + c);
    }
}

proof fn lemma_jobs_in_order_consumed(reg: RegistryView, st: GraphState, plan: Seq<(Seq<char>, u64)>, order: Seq<usize>)
    requires
        plan_ids(plan).no_duplicates(),
    ensures
        ({
            let (js, t) = jobs_in_order(reg, st, plan, order);
            supply_accounted(plan, consumed(js), t)
        }),
    decreases order.len(),
{
    if order.len() == 0 {
        assert(consumed(Seq::<JobView>::empty()) =~= Seq::<Seq<char>>::empty());
    } else {
        lemma_jobs_in_order_consumed(reg, st, plan, order.drop_last());
        let (js, t) = jobs_in_order(reg, st, plan, order.drop_last());
        let good = st.nodes[order.last() as int];
        let pi = first_index(plan_ids(plan), good);
        if pi < plan.len() {
            lemma_jobs_for_good_consumed(
                js,
                t,
                plan,
                good,
                good_named(reg.goods, good)->0.source,
                process_named(reg.processes, good)->0.duration,
                dependencies_of(st, good),
                plan[pi].1 as nat,
            );
        }
    }
}

/// Each job that a plan makes is consumed at most once, and only planned jobs are
/// consumed: `good_i` with `i` no more than the good's planned count.
pub proof fn law_each_job_consumed_once(
    reg: RegistryView,
    st: GraphState,
    plan: Seq<(Seq<char>, u64)>,
    order: Seq<usize>,
)
    requires
        plan_ids(plan).no_duplicates(),
    ensures
        consumed(jobs_in_order(reg, st, plan, order).0).no_duplicates(),
        forall|x: Seq<char>|
            consumed(jobs_in_order(reg, st, plan, order).0).contains(x) ==> exists|pi: int, i: nat|
                0 <= pi < plan.len() && 1 <= i <= plan[pi].1 && #[trigger] job_label(plan[pi].0, i) == x,
{
    lemma_jobs_in_order_consumed(reg, st, plan, order);
    let (js, t) = jobs_in_order(reg, st, plan, order);
    assert forall|x: Seq<char>| consumed(js).contains(x) implies exists|pi: int, i: nat|
        0 <= pi < plan.len() && 1 <= i <= plan[pi].1 && #[trigger] job_label(plan[pi].0, i) == x by {
        assert(taken_label(plan, t, x));
        let (pi, i) = choose|pi: int, i: nat|
            0 <= pi < plan.len() && 1 <= i <= t[pi] && #[trigger] job_label(plan[pi].0, i) == x;
        assert(t[pi] <= plan[pi].1);
    }
}


// ---------------------------------------------------------------------------
// Consumed jobs are jobs
// ---------------------------------------------------------------------------

/// Only goods of the graph have had jobs taken from their supply.
pub open spec fn touched_are_nodes(plan: Seq<(Seq<char>, u64)>, t: Seq<nat>, nodes: Seq<Seq<char>>) -> bool {
    forall|pi: int| #![trigger t[pi]] 0 <= pi < t.len() && t[pi] > 0 ==> nodes.contains(plan[pi].0)
}

proof fn lemma_take_recipe_touched(
    plan: Seq<(Seq<char>, u64)>,
    t: Seq<nat>,
    recipe: Seq<(Seq<char>, nat)>,
    nodes: Seq<Seq<char>>,
)
    requires
        t.len() == plan.len(),
        touched_are_nodes(plan, t, nodes),
        forall|j: int| 0 <= j < recipe.len() ==> nodes.contains(#[trigger] recipe[j].0),
    ensures
        take_recipe(plan, t, recipe).1.len() == plan.len(),
        touched_are_nodes(plan, take_recipe(plan, t, recipe).1, nodes),
    decreases recipe.len(),
{
    if recipe.len() > 0 {
        let rest = recipe.drop_last();
        assert forall|j: int| 0 <= j < rest.len() implies nodes.contains(#[trigger] rest[j].0) by {
            assert(rest[j] == recipe[j]);
        }
        lemma_take_recipe_touched(plan, t, rest, nodes);
        let t1 = take_recipe(plan, t, rest).1;
        let ing = recipe.last().0;
        assert(nodes.contains(recipe[recipe.len() - 1].0));
        let ids = plan_ids(plan);
        let pi = first_index(ids, ing);
        lemma_first_index(ids, ing);
        let t2 = take_ingredient(plan, t1, ing, recipe.last().1).1;
        assert forall|pj: int| #![trigger t2[pj]] 0 <= pj < t2.len() && t2[pj] > 0 implies nodes.contains(plan[pj].0) by {
            if pi < plan.len() && pj == pi {
                assert(ids[pi] == plan[pi].0);
            } else {
                assert(t2[pj] == t1[pj]);
            }
        }
    }
}

proof fn lemma_jobs_for_good_touched(
    jobs: Seq<JobView>,
    taken: Seq<nat>,
    plan: Seq<(Seq<char>, u64)>,
    good: Seq<char>,
    machine: Seq<char>,
    duration: u64,
    recipe: Seq<(Seq<char>, nat)>,
    q: nat,
    nodes: Seq<Seq<char>>,
)
    requires
        taken.len() == plan.len(),
        touched_are_nodes(plan, taken, nodes),
        forall|j: int| 0 <= j < recipe.len() ==> nodes.contains(#[trigger] recipe[j].0),
    ensures
        jobs_for_good(jobs, taken, plan, good, machine, duration, recipe, q).1.len() == plan.len(),
        touched_are_nodes(plan, jobs_for_good(jobs, taken, plan, good, machine, duration, recipe, q).1, nodes),
    decreases q,
{
    if q > 0 {
        lemma_jobs_for_good_touched(jobs, taken, plan, good, machine, duration, recipe, (q - 1) as nat, nodes);
        let t1 = jobs_for_good(jobs, taken, plan, good, machine, duration, recipe, (q - 1) as nat).1;
        lemma_take_recipe_touched(plan, t1, recipe, nodes);
    }
}

proof fn lemma_jobs_in_order_touched(reg: RegistryView, st: GraphState, plan: Seq<(Seq<char>, u64)>, order: Seq<usize>)
    requires
        targets_in_range(st),
    ensures
        jobs_in_order(reg, st, plan, order).1.len() == plan.len(),
        touched_are_nodes(plan, jobs_in_order(reg, st, plan, order).1, st.nodes),
    decreases order.len(),
{
    if order.len() > 0 {
        lemma_jobs_in_order_touched(reg, st, plan, order.drop_last());
        let (js, t) = jobs_in_order(reg, st, plan, order.drop_last());
        let good = st.nodes[order.last() as int];
        let pi = first_index(plan_ids(plan), good);
        if pi < plan.len() {
            lemma_dependencies_are_nodes(st, good);
            lemma_jobs_for_good_touched(
                js,
                t,
                plan,
                good,
                good_named(reg.goods, good)->0.source,
                process_named(reg.processes, good)->0.duration,
                dependencies_of(st, good),
                plan[pi].1 as nat,
                st.nodes,
            );
        }
    }
}

proof fn lemma_jobs_in_order_covers(reg: RegistryView, st: GraphState, plan: Seq<(Seq<char>, u64)>, order: Seq<usize>)
    requires
        plan_ids(plan).no_duplicates(),
    ensures
        forall|pi: int, i: nat|
            0 <= pi < plan.len() && order_goods(st, order).contains(plan[pi].0) && 1 <= i <= plan[pi].1
                ==> job_ids(jobs_in_order(reg, st, plan, order).0).contains(#[trigger] job_label(plan[pi].0, i)),
    decreases order.len(),
{
    if order.len() > 0 {
        let prev = order.drop_last();
        lemma_jobs_in_order_covers(reg, st, plan, prev);
        let (js0, t) = jobs_in_order(reg, st, plan, prev);
        let js = jobs_in_order(reg, st, plan, order).0;
        let good = st.nodes[order.last() as int];
        let ids = plan_ids(plan);
        let pg = first_index(ids, good);
        let og0 = order_goods(st, prev);
        let og = order_goods(st, order);
        assert(og =~= og0.push(good));
        let n0 = js0.len() as int;
        if pg < plan.len() {
            let q = plan[pg].1 as nat;
            lemma_jobs_for_good(
                js0,
                t,
                plan,
                good,
                good_named(reg.goods, good)->0.source,
                process_named(reg.processes, good)->0.duration,
                dependencies_of(st, good),
                q,
            );
        } else {
            assert(js == js0);
        }
        assert forall|pi: int, i: nat|
            0 <= pi < plan.len() && og.contains(plan[pi].0) && 1 <= i <= plan[pi].1 implies job_ids(js).contains(
            #[trigger] job_label(plan[pi].0, i),
        ) by {
            if og0.contains(plan[pi].0) {
                assert(job_ids(js0).contains(job_label(plan[pi].0, i)));
                let j = choose|j: int| 0 <= j < job_ids(js0).len() && job_ids(js0)[j] == job_label(plan[pi].0, i);
                assert(js[j] == js0[j]);
                assert(job_ids(js)[j] == job_label(plan[pi].0, i));
            } else {
                let k = choose|k: int| 0 <= k < og.len() && og[k] == plan[pi].0;
                if k < og0.len() {
                    assert(og0[k] == og[k]);
                }
                assert(plan[pi].0 == good);
                assert(ids[pi] == plan[pi].0);
                lemma_first_index_unique(ids, pi);
                assert(pg == pi);
                let j = n0 + (i - 1);
                assert(js[n0 + (i - 1)].job_id == job_label(good, i));
                assert(job_ids(js)[j] == job_label(plan[pi].0, i));
            }
        }
    }
}

proof fn lemma_consumed_contains(js: Seq<JobView>, k: int, c: int)
    requires
        0 <= k < js.len(),
        0 <= c < js[k].consumes.len(),
    ensures
        consumed(js).contains(js[k].consumes[c]),
    decreases js.len(),
{
    broadcast use vstd::seq_lib::lemma_seq_concat_contains_all_elements;
    let rest = js.drop_last();
    if k < js.len() - 1 {
        assert(rest[k] == js[k]);
        lemma_consumed_contains(rest, k, c);
    } else {
        assert(js.last().consumes.contains(js[k].consumes[c]));
    }
}

/// Jobs made in an order that visits every planned good of the graph can be scheduled:
/// each job that a job consumes is one of the jobs.
pub proof fn law_consumed_jobs_are_jobs(
    reg: RegistryView,
    st: GraphState,
    plan: Seq<(Seq<char>, u64)>,
    order: Seq<usize>,
)
    requires
        plan_ids(plan).no_duplicates(),
        targets_in_range(st),
        forall|pi: int|
            0 <= pi < plan.len() && st.nodes.contains(#[trigger] plan[pi].0) ==> order_goods(st, order).contains(
                plan[pi].0,
            ),
    ensures
        consumed_known(jobs_in_order(reg, st, plan, order).0),
{
    let (js, t) = jobs_in_order(reg, st, plan, order);
    lemma_jobs_in_order_consumed(reg, st, plan, order);
    lemma_jobs_in_order_touched(reg, st, plan, order);
    lemma_jobs_in_order_covers(reg, st, plan, order);
    assert forall|k: int, c: int| 0 <= k < js.len() && 0 <= c < js[k].consumes.len() implies job_ids(js).contains(
        #[trigger] js[k].consumes[c],
    ) by {
        let x = js[k].consumes[c];
        lemma_consumed_contains(js, k, c);
        assert(taken_label(plan, t, x));
        let (pi, i) = choose|pi: int, i: nat|
            0 <= pi < plan.len() && 1 <= i <= t[pi] && #[trigger] job_label(plan[pi].0, i) == x;
        assert(t[pi] > 0);
        assert(st.nodes.contains(plan[pi].0));
        assert(t[pi] <= plan[pi].1);
        assert(job_ids(js).contains(job_label(plan[pi].0, i)));
    }
}


// ---------------------------------------------------------------------------
// Jobs along a topological walk
// ---------------------------------------------------------------------------

/// The jobs hold job `i` of `good`, made on the good's source with its process's
/// duration.
pub open spec fn holds_job(reg: RegistryView, js: Seq<JobView>, good: Seq<char>, i: nat) -> bool {
    exists|j: int|
        0 <= j < js.len() && #[trigger] js[j].job_id == job_label(good, i) && js[j].good_id == good
            && js[j].machine_id == good_named(reg.goods, good)->0.source
            && js[j].duration == process_named(reg.processes, good)->0.duration
}

/// `job` is job `i` of a planned good, with `i` no more than its planned count, made on
/// the good's source with its process's duration.
pub open spec fn planned_job(reg: RegistryView, plan: Seq<(Seq<char>, u64)>, job: JobView) -> bool {
    &&& exists|pi: int, i: nat|
        0 <= pi < plan.len() && plan[pi].0 == job.good_id && 1 <= i <= plan[pi].1
            && #[trigger] job_label(plan[pi].0, i) == job.job_id
    &&& job.machine_id == good_named(reg.goods, job.good_id)->0.source
    &&& job.duration == process_named(reg.processes, job.good_id)->0.duration
}

proof fn lemma_jobs_in_order_holds(reg: RegistryView, st: GraphState, plan: Seq<(Seq<char>, u64)>, order: Seq<usize>)
    requires
        plan_ids(plan).no_duplicates(),
    ensures
        forall|pi: int, i: nat|
            0 <= pi < plan.len() && order_goods(st, order).contains(plan[pi].0) && 1 <= i <= plan[pi].1
                ==> #[trigger] holds_job(reg, jobs_in_order(reg, st, plan, order).0, plan[pi].0, i),
        forall|j: int|
            0 <= j < jobs_in_order(reg, st, plan, order).0.len() ==> planned_job(
                reg,
                plan,
                #[trigger] jobs_in_order(reg, st, plan, order).0[j],
            ),
    decreases order.len(),
{
    if order.len() > 0 {
        let prev = order.drop_last();
        lemma_jobs_in_order_holds(reg, st, plan, prev);
        let (js0, t) = jobs_in_order(reg, st, plan, prev);
        let js = jobs_in_order(reg, st, plan, order).0;
        let good = st.nodes[order.last() as int];
        let ids = plan_ids(plan);
        let pg = first_index(ids, good);
        lemma_first_index(ids, good);
        let og0 = order_goods(st, prev);
        let og = order_goods(st, order);
        assert(og =~= og0.push(good));
        let n0 = js0.len() as int;
        let machine = good_named(reg.goods, good)->0.source;
        let duration = process_named(reg.processes, good)->0.duration;
        if pg < plan.len() {
            let q = plan[pg].1 as nat;
            lemma_jobs_for_good(js0, t, plan, good, machine, duration, dependencies_of(st, good), q);
            assert(ids[pg] == plan[pg].0);
        } else {
            assert(js == js0);
        }
        assert forall|pi: int, i: nat|
            0 <= pi < plan.len() && og.contains(plan[pi].0) && 1 <= i <= plan[pi].1 implies #[trigger] holds_job(
            reg,
            js,
            plan[pi].0,
            i,
        ) by {
            if og0.contains(plan[pi].0) {
                assert(holds_job(reg, js0, plan[pi].0, i));
                let j = choose|j: int|
                    0 <= j < js0.len() && #[trigger] js0[j].job_id == job_label(plan[pi].0, i) && js0[j].good_id
                        == plan[pi].0 && js0[j].machine_id == good_named(reg.goods, plan[pi].0)->0.source
                        && js0[j].duration == process_named(reg.processes, plan[pi].0)->0.duration;
                assert(js[j] == js0[j]);
            } else {
                let k = choose|k: int| 0 <= k < og.len() && og[k] == plan[pi].0;
                if k < og0.len() {
                    assert(og0[k] == og[k]);
                }
                assert(plan[pi].0 == good);
                assert(ids[pi] == plan[pi].0);
                lemma_first_index_unique(ids, pi);
                let j = n0 + (i - 1);
                assert(js[n0 + (i - 1)].job_id == job_label(good, i));
            }
        }
        assert forall|j: int| 0 <= j < js.len() implies planned_job(reg, plan, #[trigger] js[j]) by {
            if j < n0 {
                assert(js[j] == js0[j]);
                assert(planned_job(reg, plan, js0[j]));
            } else {
                let i = (j - n0 + 1) as nat;
                assert(js[n0 + (j - n0)].job_id == job_label(good, i));
                assert(job_label(plan[pg].0, i) == js[j].job_id);
            }
        }
    }
}

/// On a graph without cycles, the jobs made along a topological walk are exactly the
/// plan's: each planned good of the graph gets its jobs `good_1` to `good_q` (`q` its
/// planned count) on the good's source with its process's duration; every job is such
/// a planned job; job names are distinct; each job that a job consumes is one of the
/// jobs, with no job consumed twice; and the jobs of each planned good come in one block
/// (see `job_block`).
pub proof fn law_acyclic_plan_is_scheduled(
    reg: RegistryView,
    st: GraphState,
    plan: Seq<(Seq<char>, u64)>,
    order: Seq<usize>,
)
    requires
        st.nodes.no_duplicates(),
        st.nodes.len() <= usize::MAX,
        edges_in_range(st),
        acyclic(st),
        walks(st, order),
        plan_ids(plan).no_duplicates(),
    ensures
        forall|pi: int, i: nat|
            0 <= pi < plan.len() && st.nodes.contains(plan[pi].0) && 1 <= i <= plan[pi].1 ==> #[trigger] holds_job(
                reg,
                jobs_in_order(reg, st, plan, order).0,
                plan[pi].0,
                i,
            ),
        forall|j: int|
            0 <= j < jobs_in_order(reg, st, plan, order).0.len() ==> planned_job(
                reg,
                plan,
                #[trigger] jobs_in_order(reg, st, plan, order).0[j],
            ),
        job_ids(jobs_in_order(reg, st, plan, order).0).no_duplicates(),
        consumed_known(jobs_in_order(reg, st, plan, order).0),
        consumed(jobs_in_order(reg, st, plan, order).0).no_duplicates(),
        forall|pi: int|
            #![trigger plan[pi]]
            0 <= pi < plan.len() && st.nodes.contains(plan[pi].0) ==> exists|s: int|
                job_block(reg, jobs_in_order(reg, st, plan, order).0, plan[pi].0, plan[pi].1 as nat, s),
{
    law_walk_of_acyclic_graph_is_complete(st, order);
    let og = order_goods(st, order);
    assert forall|pi: int| 0 <= pi < plan.len() && st.nodes.contains(#[trigger] plan[pi].0) implies og.contains(
        plan[pi].0,
    ) by {
        let v = choose|v: int| 0 <= v < st.nodes.len() && st.nodes[v] == plan[pi].0;
        assert(order.contains(v as usize));
        let k = choose|k: int| 0 <= k < order.len() && order[k] == v as usize;
        assert(og[k] == plan[pi].0);
    }
    lemma_jobs_in_order_holds(reg, st, plan, order);
    law_job_names_distinct(reg, st, plan, order);
    law_consumed_jobs_are_jobs(reg, st, plan, order);
    law_each_job_consumed_once(reg, st, plan, order);
    law_jobs_come_in_blocks(reg, st, plan, order);
}

/// Goods on a cycle of the graph, or after one, get no job: no job is of the last node
/// of a path whose first node comes back on it.
pub proof fn law_no_jobs_after_cycles(
    reg: RegistryView,
    st: GraphState,
    plan: Seq<(Seq<char>, u64)>,
    order: Seq<usize>,
    p: Seq<usize>,
    j: int,
)
    requires
        st.nodes.no_duplicates(),
        walks(st, order),
        is_path(st, p),
        0 < j < p.len(),
        p[j] == p[0],
        p.last() < st.nodes.len(),
    ensures
        forall|k: int|
            0 <= k < jobs_in_order(reg, st, plan, order).0.len() ==> (#[trigger] jobs_in_order(
                reg,
                st,
                plan,
                order,
            ).0[k]).good_id != st.nodes[p.last() as int],
{
    law_walk_skips_cycles(st, order, p, j);
    lemma_jobs_in_order_names(reg, st, plan, order);
    let js = jobs_in_order(reg, st, plan, order).0;
    let og = order_goods(st, order);
    assert forall|k: int| 0 <= k < js.len() implies (#[trigger] js[k]).good_id != st.nodes[p.last() as int] by {
        if js[k].good_id == st.nodes[p.last() as int] {
            assert(og.contains(js[k].good_id));
            let m = choose|m: int| 0 <= m < og.len() && og[m] == js[k].good_id;
            assert(st.nodes[order[m] as int] == st.nodes[p.last() as int]);
            assert(order[m] == p.last());
            assert(order.contains(p.last()));
        }
    }
}


/// How a job takes one ingredient: where the ingredient is planned (entry `pi`), it
/// takes the next jobs of its supply, numbered after the `t[pi]` already taken, as many
/// as it needs while the supply lasts (`min(need, planned - taken)`), and the count taken
/// advances by as many; an unplanned ingredient takes nothing. A job takes its recipe's
/// ingredients in turn this way (`take_recipe`), and each job of a good in turn
/// (`jobs_for_good`).
pub proof fn law_take_next_from_supply(plan: Seq<(Seq<char>, u64)>, t: Seq<nat>, ing: Seq<char>, need: nat, pi: int)
    requires
        plan_ids(plan).no_duplicates(),
        t.len() == plan.len(),
        0 <= pi < plan.len(),
        t[pi] <= plan[pi].1,
        plan[pi].0 == ing,
    ensures
        ({
            let k: nat = if need <= plan[pi].1 - t[pi] { need } else { (plan[pi].1 - t[pi]) as nat };
            let (c, t2) = take_ingredient(plan, t, ing, need);
            &&& c == Seq::new(k, |m: int| job_label(ing, (t[pi] + m + 1) as nat))
            &&& t2 == t.update(pi, t[pi] + k)
        }),
{
    assert(plan_ids(plan)[pi] == ing);
    lemma_first_index_unique(plan_ids(plan), pi);
}

/// An ingredient that the plan does not list takes nothing.
pub proof fn law_unplanned_ingredient_takes_nothing(plan: Seq<(Seq<char>, u64)>, t: Seq<nat>, ing: Seq<char>, need: nat)
    requires
        !plan_ids(plan).contains(ing),
    ensures
        take_ingredient(plan, t, ing, need) == (Seq::<Seq<char>>::empty(), t),
{
    lemma_first_index(plan_ids(plan), ing);
}


/// Every one of the first `t[pi]` jobs of each plan entry `pi` is among the names `c`.
pub open spec fn supply_front_taken(plan: Seq<(Seq<char>, u64)>, c: Seq<Seq<char>>, t: Seq<nat>) -> bool {
    forall|pi: int, i: nat|
        0 <= pi < plan.len() && 1 <= i <= t[pi] ==> c.contains(#[trigger] job_label(plan[pi].0, i))
}

proof fn lemma_take_ingredient_front(plan: Seq<(Seq<char>, u64)>, c: Seq<Seq<char>>, t: Seq<nat>, ing: Seq<char>, need: nat)
    requires
        t.len() == plan.len(),
        supply_front_taken(plan, c, t),
    ensures
        take_ingredient(plan, t, ing, need).1.len() == t.len(),
        supply_front_taken(plan, c + take_ingredient(plan, t, ing, need).0, take_ingredient(plan, t, ing, need).1),
{
    broadcast use vstd::seq_lib::lemma_seq_concat_contains_all_elements;
    let ids = plan_ids(plan);
    let pi = first_index(ids, ing);
    lemma_first_index(ids, ing);
    let (new, t2) = take_ingredient(plan, t, ing, need);
    assert forall|pj: int, i: nat| 0 <= pj < plan.len() && 1 <= i <= t2[pj] implies (c + new).contains(
        #[trigger] job_label(plan[pj].0, i),
    ) by {
        if pi < plan.len() && pj == pi && i > t[pi] {
            assert(ids[pi] == plan[pi].0);
            let m = i - t[pi] - 1;
            assert(new[m] == job_label(ing, i));
            assert(new.contains(job_label(plan[pj].0, i)));
        } else {
            if pi < plan.len() && pj != pi {
                assert(t2[pj] == t[pj]);
            }
            assert(c.contains(job_label(plan[pj].0, i)));
        }
    }
}

proof fn lemma_take_recipe_front(plan: Seq<(Seq<char>, u64)>, c: Seq<Seq<char>>, t: Seq<nat>, recipe: Seq<(Seq<char>, nat)>)
    requires
        t.len() == plan.len(),
        supply_front_taken(plan, c, t),
    ensures
        take_recipe(plan, t, recipe).1.len() == plan.len(),
        supply_front_taken(plan, c + take_recipe(plan, t, recipe).0, take_recipe(plan, t, recipe).1),
    decreases recipe.len(),
{
    if recipe.len() > 0 {
        let (c1, t1) = take_recipe(plan, t, recipe.drop_last());
        lemma_take_recipe_front(plan, c, t, recipe.drop_last());
        lemma_take_ingredient_front(plan, c + c1, t1, recipe.last().0, recipe.last().1);
        let (c2, t2) = take_ingredient(plan, t1, recipe.last().0, recipe.last().1);
        assert(c + c1 + c2 =~= c + (c1 + c2));
    } else {
        assert(c + Seq::<Seq<char>>::empty() =~= c);
    }
}

proof fn lemma_jobs_for_good_front(
    jobs: Seq<JobView>,
    taken: Seq<nat>,
    plan: Seq<(Seq<char>, u64)>,
    good: Seq<char>,
    machine: Seq<char>,
    duration: u64,
    recipe: Seq<(Seq<char>, nat)>,
    q: nat,
)
    requires
        taken.len() == plan.len(),
        supply_front_taken(plan, consumed(jobs), taken),
    ensures
        ({
            let (js, t) = jobs_for_good(jobs, taken, plan, good, machine, duration, recipe, q);
            t.len() == plan.len() && supply_front_taken(plan, consumed(js), t)
        }),
    decreases q,
{
    if q > 0 {
        lemma_jobs_for_good_front(jobs, taken, plan, good, machine, duration, recipe, (q - 1) as nat);
        let (js, t1) = jobs_for_good(jobs, taken, plan, good, machine, duration, recipe, (q - 1) as nat);
        lemma_take_recipe_front(plan, consumed(js), t1, recipe);
        let (c, t2) = take_recipe(plan, t1, recipe);
        let job = JobView { job_id: job_label(good, q), good_id: good, machine_id: machine, duration, consumes: c };
        assert(js.push(job).drop_last() =~= js);
        assert(consumed(js.push(job)) == consumed(js) + c);
    }
}

proof fn lemma_jobs_in_order_front(reg: RegistryView, st: GraphState, plan: Seq<(Seq<char>, u64)>, order: Seq<usize>)
    ensures
        ({
            let (js, t) = jobs_in_order(reg, st, plan, order);
            t.len() == plan.len() && supply_front_taken(plan, consumed(js), t)
        }),
    decreases order.len(),
{
    if order.len() > 0 {
        lemma_jobs_in_order_front(reg, st, plan, order.drop_last());
        let (js, t) = jobs_in_order(reg, st, plan, order.drop_last());
        let good = st.nodes[order.last() as int];
        let pi = first_index(plan_ids(plan), good);
        if pi < plan.len() {
            lemma_jobs_for_good_front(
                js,
                t,
                plan,
                good,
                good_named(reg.goods, good)->0.source,
                process_named(reg.processes, good)->0.duration,
                dependencies_of(st, good),
                plan[pi].1 as nat,
            );
        }
    }
}

/// The jobs take each good's supply from the front: with `t` the count taken of each
/// plan entry (what `jobs_in_order` returns beside the jobs), the jobs consumed are
/// exactly the first `t[pi]` jobs `good_1 .. good_t` of each planned good, no more than
/// planned and each once.
pub proof fn law_supply_taken_from_front(
    reg: RegistryView,
    st: GraphState,
    plan: Seq<(Seq<char>, u64)>,
    order: Seq<usize>,
)
    requires
        plan_ids(plan).no_duplicates(),
    ensures
        ({
            let (js, t) = jobs_in_order(reg, st, plan, order);
            &&& t.len() == plan.len()
            &&& forall|pi: int| 0 <= pi < plan.len() ==> #[trigger] t[pi] <= plan[pi].1
            &&& consumed(js).no_duplicates()
            &&& forall|x: Seq<char>|
                #[trigger] consumed(js).contains(x) <==> exists|pi: int, i: nat|
                    0 <= pi < plan.len() && 1 <= i <= t[pi] && #[trigger] job_label(plan[pi].0, i) == x
        }),
{
    lemma_jobs_in_order_consumed(reg, st, plan, order);
    lemma_jobs_in_order_front(reg, st, plan, order);
    let (js, t) = jobs_in_order(reg, st, plan, order);
    assert forall|x: Seq<char>| #[trigger] consumed(js).contains(x) <==> exists|pi: int, i: nat|
        0 <= pi < plan.len() && 1 <= i <= t[pi] && #[trigger] job_label(plan[pi].0, i) == x by {
        if exists|pi: int, i: nat| 0 <= pi < plan.len() && 1 <= i <= t[pi] && #[trigger] job_label(plan[pi].0, i) == x {
            let (pi, i) = choose|pi: int, i: nat| 0 <= pi < plan.len() && 1 <= i <= t[pi] && #[trigger] job_label(plan[pi].0, i) == x;
            assert(consumed(js).contains(job_label(plan[pi].0, i)));
        }
        if consumed(js).contains(x) {
            assert(taken_label(plan, t, x));
        }
    }
}


/// On any graph, with or without cycles, a planned good whose node lies neither on a
/// cycle nor after one gets all its jobs along a topological walk: `good_1` to `good_q`
/// (`q` its planned count), on the good's source with its process's duration.
pub proof fn law_grounded_goods_get_their_jobs(
    reg: RegistryView,
    st: GraphState,
    plan: Seq<(Seq<char>, u64)>,
    order: Seq<usize>,
    pi: int,
    v: usize,
)
    requires
        edges_in_range(st),
        walks(st, order),
        plan_ids(plan).no_duplicates(),
        0 <= pi < plan.len(),
        v < st.nodes.len(),
        st.nodes[v as int] == plan[pi].0,
        grounded(st, v),
    ensures
        forall|i: nat| 1 <= i <= plan[pi].1 ==> #[trigger] holds_job(reg, jobs_in_order(reg, st, plan, order).0, plan[pi].0, i),
{
    law_walk_reaches_grounded_nodes(st, order, v);
    let k = choose|k: int| 0 <= k < order.len() && order[k] == v;
    assert(order_goods(st, order)[k] == plan[pi].0);
    lemma_jobs_in_order_holds(reg, st, plan, order);
}


/// `x` names a job of one of the recipe's ingredients.
pub open spec fn of_recipe(recipe: Seq<(Seq<char>, nat)>, x: Seq<char>) -> bool {
    exists|r: int, i: nat| 0 <= r < recipe.len() && i >= 1 && #[trigger] job_label(recipe[r].0, i) == x
}

proof fn lemma_take_recipe_of_recipe(plan: Seq<(Seq<char>, u64)>, t: Seq<nat>, recipe: Seq<(Seq<char>, nat)>)
    ensures
        forall|c: int|
            0 <= c < take_recipe(plan, t, recipe).0.len() ==> of_recipe(recipe, #[trigger] take_recipe(plan, t, recipe).0[c]),
    decreases recipe.len(),
{
    if recipe.len() > 0 {
        let rest = recipe.drop_last();
        lemma_take_recipe_of_recipe(plan, t, rest);
        let (c1, t1) = take_recipe(plan, t, rest);
        let ing = recipe.last().0;
        let (c2, t2) = take_ingredient(plan, t1, ing, recipe.last().1);
        let all = c1 + c2;
        assert forall|c: int| 0 <= c < all.len() implies of_recipe(recipe, #[trigger] all[c]) by {
            if c < c1.len() {
                assert(all[c] == c1[c]);
                assert(of_recipe(rest, c1[c]));
                let (r, i) = choose|r: int, i: nat| 0 <= r < rest.len() && i >= 1 && #[trigger] job_label(rest[r].0, i) == c1[c];
                assert(recipe[r] == rest[r]);
            } else {
                let m = c - c1.len();
                let pi = first_index(plan_ids(plan), ing);
                assert(all[c] == c2[m]);
                assert(c2[m] == job_label(ing, (t1[pi] + m + 1) as nat));
                assert(job_label(recipe[recipe.len() - 1].0, (t1[pi] + m + 1) as nat) == all[c]);
            }
        }
    }
}

proof fn lemma_jobs_for_good_of_recipe(
    st: GraphState,
    jobs: Seq<JobView>,
    taken: Seq<nat>,
    plan: Seq<(Seq<char>, u64)>,
    good: Seq<char>,
    machine: Seq<char>,
    duration: u64,
    q: nat,
)
    requires
        forall|j: int, c: int|
            0 <= j < jobs.len() && 0 <= c < jobs[j].consumes.len() ==> of_recipe(
                dependencies_of(st, jobs[j].good_id),
                #[trigger] jobs[j].consumes[c],
            ),
    ensures
        ({
            let js = jobs_for_good(jobs, taken, plan, good, machine, duration, dependencies_of(st, good), q).0;
            forall|j: int, c: int|
                0 <= j < js.len() && 0 <= c < js[j].consumes.len() ==> of_recipe(
                    dependencies_of(st, js[j].good_id),
                    #[trigger] js[j].consumes[c],
                )
        }),
    decreases q,
{
    if q > 0 {
        let recipe = dependencies_of(st, good);
        lemma_jobs_for_good_of_recipe(st, jobs, taken, plan, good, machine, duration, (q - 1) as nat);
        let (js0, t1) = jobs_for_good(jobs, taken, plan, good, machine, duration, recipe, (q - 1) as nat);
        lemma_take_recipe_of_recipe(plan, t1, recipe);
        let js = jobs_for_good(jobs, taken, plan, good, machine, duration, recipe, q).0;
        assert forall|j: int, c: int| 0 <= j < js.len() && 0 <= c < js[j].consumes.len() implies of_recipe(
            dependencies_of(st, js[j].good_id),
            #[trigger] js[j].consumes[c],
        ) by {
            if j < js0.len() {
                assert(js[j] == js0[j]);
            }
        }
    }
}

/// Each job consumes only jobs of the ingredients that its good's recipe lists in the
/// graph: every name it consumes is `y_i` for some ingredient `y` of
/// `dependencies(good)` and some `i >= 1`.
pub proof fn law_consumed_jobs_are_ingredients(
    reg: RegistryView,
    st: GraphState,
    plan: Seq<(Seq<char>, u64)>,
    order: Seq<usize>,
)
    ensures
        forall|j: int, c: int|
            0 <= j < jobs_in_order(reg, st, plan, order).0.len() && 0 <= c
                < jobs_in_order(reg, st, plan, order).0[j].consumes.len() ==> of_recipe(
                dependencies_of(st, jobs_in_order(reg, st, plan, order).0[j].good_id),
                #[trigger] jobs_in_order(reg, st, plan, order).0[j].consumes[c],
            ),
    decreases order.len(),
{
    if order.len() > 0 {
        law_consumed_jobs_are_ingredients(reg, st, plan, order.drop_last());
        let (js, t) = jobs_in_order(reg, st, plan, order.drop_last());
        let good = st.nodes[order.last() as int];
        let pi = first_index(plan_ids(plan), good);
        if pi < plan.len() {
            lemma_jobs_for_good_of_recipe(
                st,
                js,
                t,
                plan,
                good,
                good_named(reg.goods, good)->0.source,
                process_named(reg.processes, good)->0.duration,
                plan[pi].1 as nat,
            );
        }
    }
}


/// The jobs of `good` are `good_1` to `good_q`, one after another from position `s`, on
/// the good's source with its process's duration, and no other job is of `good`.
pub open spec fn job_block(reg: RegistryView, js: Seq<JobView>, good: Seq<char>, q: nat, s: int) -> bool {
    &&& 0 <= s && s + q <= js.len()
    &&& forall|i: int|
        0 <= i < q ==> {
            &&& (#[trigger] js[s + i]).job_id == job_label(good, (i + 1) as nat)
            &&& js[s + i].good_id == good
            &&& js[s + i].machine_id == good_named(reg.goods, good)->0.source
            &&& js[s + i].duration == process_named(reg.processes, good)->0.duration
        }
    &&& forall|j: int| 0 <= j < js.len() && (#[trigger] js[j]).good_id == good ==> s <= j < s + q
}

/// Along a walk of distinct nodes with distinct names, the jobs of each planned good
/// that the walk visits come in one block: `good_1` to `good_q` (`q` its planned count),
/// one after another, on the good's source with its process's duration, and no other
/// job is of that good.
pub proof fn law_jobs_come_in_blocks(reg: RegistryView, st: GraphState, plan: Seq<(Seq<char>, u64)>, order: Seq<usize>)
    requires
        st.nodes.no_duplicates(),
        order.no_duplicates(),
        forall|k: int| 0 <= k < order.len() ==> #[trigger] order[k] < st.nodes.len(),
        plan_ids(plan).no_duplicates(),
    ensures
        forall|pi: int|
            0 <= pi < plan.len() && #[trigger] order_goods(st, order).contains(plan[pi].0) ==> exists|s: int|
                job_block(reg, jobs_in_order(reg, st, plan, order).0, plan[pi].0, plan[pi].1 as nat, s),
    decreases order.len(),
{
    if order.len() > 0 {
        let prev = order.drop_last();
        assert(prev.no_duplicates());
        law_jobs_come_in_blocks(reg, st, plan, prev);
        lemma_jobs_in_order_names(reg, st, plan, prev);
        let (js0, t) = jobs_in_order(reg, st, plan, prev);
        let js = jobs_in_order(reg, st, plan, order).0;
        let good = st.nodes[order.last() as int];
        let ids = plan_ids(plan);
        let pg = first_index(ids, good);
        lemma_first_index(ids, good);
        let og0 = order_goods(st, prev);
        let og = order_goods(st, order);
        assert(og =~= og0.push(good));
        assert(!og0.contains(good)) by {
            if og0.contains(good) {
                let k = choose|k: int| 0 <= k < og0.len() && og0[k] == good;
                assert(st.nodes[prev[k] as int] == st.nodes[order.last() as int]);
                assert(prev[k] == order[k]);
                assert(order[k] == order[order.len() - 1]);
            }
        }
        let n0 = js0.len() as int;
        let machine = good_named(reg.goods, good)->0.source;
        let duration = process_named(reg.processes, good)->0.duration;
        if pg < plan.len() {
            lemma_jobs_for_good(js0, t, plan, good, machine, duration, dependencies_of(st, good), plan[pg].1 as nat);
            assert(ids[pg] == plan[pg].0);
        } else {
            assert(js == js0);
        }
        assert forall|pi: int|
            0 <= pi < plan.len() && #[trigger] og.contains(plan[pi].0) implies exists|s: int|
            job_block(reg, js, plan[pi].0, plan[pi].1 as nat, s) by {
            let q = plan[pi].1 as nat;
            if og0.contains(plan[pi].0) {
                let s0 = choose|s0: int| job_block(reg, js0, plan[pi].0, q, s0);
                assert forall|i: int| 0 <= i < q implies {
                    &&& (#[trigger] js[s0 + i]).job_id == job_label(plan[pi].0, (i + 1) as nat)
                    &&& js[s0 + i].good_id == plan[pi].0
                    &&& js[s0 + i].machine_id == good_named(reg.goods, plan[pi].0)->0.source
                    &&& js[s0 + i].duration == process_named(reg.processes, plan[pi].0)->0.duration
                } by {
                    assert(js[s0 + i] == js0[s0 + i]);
                }
                assert forall|j: int| 0 <= j < js.len() && (#[trigger] js[j]).good_id == plan[pi].0 implies s0 <= j < s0 + q by {
                    if j < n0 {
                        assert(js[j] == js0[j]);
                    } else {
                        assert(js[n0 + (j - n0)].good_id == good);
                    }
                }
                assert(job_block(reg, js, plan[pi].0, q, s0));
            } else {
                let k = choose|k: int| 0 <= k < og.len() && og[k] == plan[pi].0;
                if k < og0.len() {
                    assert(og0[k] == og[k]);
                }
                assert(plan[pi].0 == good);
                assert(ids[pi] == plan[pi].0);
                lemma_first_index_unique(ids, pi);
                assert forall|i: int| 0 <= i < q implies {
                    &&& (#[trigger] js[n0 + i]).job_id == job_label(plan[pi].0, (i + 1) as nat)
                    &&& js[n0 + i].good_id == plan[pi].0
                    &&& js[n0 + i].machine_id == good_named(reg.goods, plan[pi].0)->0.source
                    &&& js[n0 + i].duration == process_named(reg.processes, plan[pi].0)->0.duration
                } by {}
                assert forall|j: int| 0 <= j < js.len() && (#[trigger] js[j]).good_id == plan[pi].0 implies n0 <= j < n0 + q by {
                    if j < n0 {
                        assert(js[j] == js0[j]);
                        assert(og0.contains(js0[j].good_id));
                    }
                }
                assert(job_block(reg, js, plan[pi].0, q, n0));
            }
        }
    }
}


/// `t` counts, per plan entry, the jobs that the names `c` have taken from its supply:
/// `c` names exactly the first `t[pi]` jobs of each entry, and no more than planned.
pub open spec fn taken_before(plan: Seq<(Seq<char>, u64)>, c: Seq<Seq<char>>, t: Seq<nat>) -> bool {
    &&& t.len() == plan.len()
    &&& forall|pi: int| 0 <= pi < plan.len() ==> #[trigger] t[pi] <= plan[pi].1
    &&& forall|x: Seq<char>| #[trigger] c.contains(x) <==> taken_label(plan, t, x)
}

/// Each job takes its ingredients from the supply that the jobs before it have left:
/// with `t` what they took, its consumes are `take_recipe` of its good's recipe from `t`
/// (for each ingredient in turn, the next `min(need, left)` of its jobs, see
/// `law_take_next_from_supply`).
pub open spec fn takes_in_turn(st: GraphState, plan: Seq<(Seq<char>, u64)>, js: Seq<JobView>) -> bool {
    forall|j: int| 0 <= j < js.len() ==> #[trigger] has_supply_state(st, plan, js, j)
}

/// Job `j` of `js` takes its ingredients from the supply counts that the jobs before it
/// have taken.
pub open spec fn has_supply_state(st: GraphState, plan: Seq<(Seq<char>, u64)>, js: Seq<JobView>, j: int) -> bool {
    exists|t: Seq<nat>| #[trigger] takes_from(st, plan, js, j, t)
}

/// Job `j` of `js` takes its ingredients from the supply counts `t` that the jobs
/// before it have taken.
pub open spec fn takes_from(st: GraphState, plan: Seq<(Seq<char>, u64)>, js: Seq<JobView>, j: int, t: Seq<nat>) -> bool {
    &&& taken_before(plan, consumed(js.take(j)), t)
    &&& js[j].consumes == take_recipe(plan, t, dependencies_of(st, js[j].good_id)).0
}

proof fn lemma_takes_in_turn_push(st: GraphState, plan: Seq<(Seq<char>, u64)>, js0: Seq<JobView>, job: JobView, t1: Seq<nat>)
    requires
        takes_in_turn(st, plan, js0),
        taken_before(plan, consumed(js0), t1),
        job.consumes == take_recipe(plan, t1, dependencies_of(st, job.good_id)).0,
    ensures
        takes_in_turn(st, plan, js0.push(job)),
{
    let js = js0.push(job);
    assert forall|j: int| 0 <= j < js.len() implies #[trigger] has_supply_state(st, plan, js, j) by {
        if j < js0.len() {
            assert(js[j] == js0[j]);
            assert(js.take(j) =~= js0.take(j));
            assert(has_supply_state(st, plan, js0, j));
            let t = choose|t: Seq<nat>| #[trigger] takes_from(st, plan, js0, j, t);
            assert(takes_from(st, plan, js, j, t));
        } else {
            assert(js.take(j) =~= js0);
            assert(takes_from(st, plan, js, j, t1));
        }
    }
}

proof fn lemma_accounted_taken_before(plan: Seq<(Seq<char>, u64)>, c: Seq<Seq<char>>, t: Seq<nat>)
    requires
        supply_accounted(plan, c, t),
        supply_front_taken(plan, c, t),
    ensures
        taken_before(plan, c, t),
{
    assert forall|x: Seq<char>| #[trigger] c.contains(x) <==> taken_label(plan, t, x) by {
        if taken_label(plan, t, x) {
            let (pi, i) = choose|pi: int, i: nat| 0 <= pi < plan.len() && 1 <= i <= t[pi] && #[trigger] job_label(plan[pi].0, i) == x;
            assert(c.contains(job_label(plan[pi].0, i)));
        }
    }
}

proof fn lemma_jobs_for_good_in_turn(
    st: GraphState,
    jobs: Seq<JobView>,
    taken: Seq<nat>,
    plan: Seq<(Seq<char>, u64)>,
    good: Seq<char>,
    machine: Seq<char>,
    duration: u64,
    q: nat,
)
    requires
        plan_ids(plan).no_duplicates(),
        taken.len() == plan.len(),
        supply_accounted(plan, consumed(jobs), taken),
        supply_front_taken(plan, consumed(jobs), taken),
        takes_in_turn(st, plan, jobs),
    ensures
        takes_in_turn(st, plan, jobs_for_good(jobs, taken, plan, good, machine, duration, dependencies_of(st, good), q).0),
    decreases q,
{
    if q > 0 {
        let recipe = dependencies_of(st, good);
        lemma_jobs_for_good_in_turn(st, jobs, taken, plan, good, machine, duration, (q - 1) as nat);
        lemma_jobs_for_good_consumed(jobs, taken, plan, good, machine, duration, recipe, (q - 1) as nat);
        lemma_jobs_for_good_front(jobs, taken, plan, good, machine, duration, recipe, (q - 1) as nat);
        let (js0, t1) = jobs_for_good(jobs, taken, plan, good, machine, duration, recipe, (q - 1) as nat);
        lemma_accounted_taken_before(plan, consumed(js0), t1);
        let c = take_recipe(plan, t1, recipe).0;
        let job = JobView { job_id: job_label(good, q), good_id: good, machine_id: machine, duration, consumes: c };
        lemma_takes_in_turn_push(st, plan, js0, job, t1);
    }
}

proof fn lemma_jobs_in_order_in_turn(reg: RegistryView, st: GraphState, plan: Seq<(Seq<char>, u64)>, order: Seq<usize>)
    requires
        plan_ids(plan).no_duplicates(),
    ensures
        takes_in_turn(st, plan, jobs_in_order(reg, st, plan, order).0),
    decreases order.len(),
{
    if order.len() > 0 {
        let prev = order.drop_last();
        lemma_jobs_in_order_in_turn(reg, st, plan, prev);
        lemma_jobs_in_order_consumed(reg, st, plan, prev);
        lemma_jobs_in_order_front(reg, st, plan, prev);
        let (js, t) = jobs_in_order(reg, st, plan, prev);
        let good = st.nodes[order.last() as int];
        let pi = first_index(plan_ids(plan), good);
        if pi < plan.len() {
            lemma_jobs_for_good_in_turn(
                st,
                js,
                t,
                plan,
                good,
                good_named(reg.goods, good)->0.source,
                process_named(reg.processes, good)->0.duration,
                plan[pi].1 as nat,
            );
        }
    }
}

/// Each job of the result takes its ingredients from the supply that the jobs before
/// it left: with `t` the count of each planned good's jobs that they consumed (they
/// consumed exactly its first `t` jobs), the job's consumes are, ingredient by ingredient
/// of its good's recipe, the next `min(need, left)` jobs of that ingredient
/// (`take_recipe` from `t`; one step is `law_take_next_from_supply`).
pub proof fn law_each_job_takes_next_supply(
    reg: RegistryView,
    st: GraphState,
    plan: Seq<(Seq<char>, u64)>,
    order: Seq<usize>,
)
    requires
        plan_ids(plan).no_duplicates(),
    ensures
        takes_in_turn(st, plan, jobs_in_order(reg, st, plan, order).0),
{
    lemma_jobs_in_order_in_turn(reg, st, plan, order);
}

} // verus!
