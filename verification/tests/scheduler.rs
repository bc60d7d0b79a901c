use hayday_planner::dependency_graph::DependencyGraph;
use hayday_planner::domain::{Good, GoodId, Process, ProcessId, ProductionPlan, Registry, Source, SourceId};
use hayday_planner::planner::production_model;
use hayday_planner::scheduler::{generate_jobs, generate_jobs_checked, Job, JobId, Scheduler};

fn good(name: &str, source: &str, price: u64) -> Good {
    Good {
        id: GoodId(name.to_string()),
        level: 1,
        xp: 1,
        source: SourceId(source.to_string()),
        price,
        image_url: None,
    }
}

fn process(name: &str, source: &str, secs: u64, needs: &[(&str, u64)]) -> Process {
    Process {
        id: ProcessId(name.to_string()),
        source_id: SourceId(source.to_string()),
        duration: secs,
        goods: vec![good(name, source, 1)],
        product: (GoodId(name.to_string()), 1),
        needs: needs.iter().map(|(n, a)| (GoodId(n.to_string()), *a)).collect(),
    }
}

fn bakery() -> Registry {
    Registry {
        goods: vec![good("Wheat", "Field", 1), good("Bread", "Bakery", 21)],
        processes: vec![process("Wheat", "Field", 120, &[]), process("Bread", "Bakery", 300, &[("Wheat", 3)])],
        sources: vec![
            Source { id: SourceId("Field".to_string()), capacity: 1000 },
            Source { id: SourceId("Bakery".to_string()), capacity: 2000 },
        ],
    }
}

fn plan(entries: &[(&str, u64)]) -> ProductionPlan {
    ProductionPlan { counts: entries.iter().map(|(n, c)| (ProcessId(n.to_string()), *c)).collect() }
}

fn ids(v: &[JobId]) -> Vec<String> {
    v.iter().map(|j| j.0.clone()).collect()
}

fn job(id: &str, good: &str, machine: &str, duration: u64, consumes: &[&str]) -> Job {
    Job {
        job_id: JobId(id.to_string()),
        good_id: GoodId(good.to_string()),
        machine_id: SourceId(machine.to_string()),
        duration,
        consumes: consumes.iter().map(|c| JobId(c.to_string())).collect(),
    }
}

#[test]
fn jobs_take_their_ingredients_from_the_supply() {
    let reg = bakery();
    let graph = DependencyGraph::with_processes(&reg.processes);
    let jobs = generate_jobs(&reg, &graph, plan(&[("Wheat", 6), ("Bread", 2)]));
    let names: Vec<String> = jobs.iter().map(|j| j.job_id.0.clone()).collect();
    assert_eq!(names, vec!["Bread_1", "Bread_2", "Wheat_1", "Wheat_2", "Wheat_3", "Wheat_4", "Wheat_5", "Wheat_6"]);
    assert_eq!(ids(&jobs[0].consumes), vec!["Wheat_1", "Wheat_2", "Wheat_3"]);
    assert_eq!(ids(&jobs[1].consumes), vec!["Wheat_4", "Wheat_5", "Wheat_6"]);
    assert_eq!(jobs[0].machine_id.0, "Bakery");
    assert_eq!(jobs[0].duration, 300);
    assert_eq!(jobs[2].machine_id.0, "Field");
    assert_eq!(jobs[2].duration, 120);
    assert!(jobs[2..].iter().all(|j| j.consumes.is_empty()));
}

#[test]
fn jobs_take_what_the_supply_has_left() {
    let reg = bakery();
    let graph = DependencyGraph::with_processes(&reg.processes);
    let jobs = generate_jobs(&reg, &graph, plan(&[("Bread", 3), ("Wheat", 4)]));
    assert_eq!(ids(&jobs[0].consumes), vec!["Wheat_1", "Wheat_2", "Wheat_3"]);
    assert_eq!(ids(&jobs[1].consumes), vec!["Wheat_4"]);
    assert!(jobs[2].consumes.is_empty());
    let mut all: Vec<String> = jobs.iter().flat_map(|j| ids(&j.consumes)).collect();
    let n = all.len();
    all.sort();
    all.dedup();
    assert_eq!(all.len(), n);
}

#[test]
fn unplanned_goods_get_no_jobs() {
    let reg = bakery();
    let graph = DependencyGraph::with_processes(&reg.processes);
    let jobs = generate_jobs(&reg, &graph, plan(&[("Bread", 1)]));
    assert_eq!(jobs.len(), 1);
    assert!(jobs[0].consumes.is_empty());
}

#[test]
fn a_good_missing_from_the_registry_stops_job_generation() {
    let mut reg = bakery();
    let graph = DependencyGraph::with_processes(&reg.processes);
    reg.goods.truncate(1);
    assert!(generate_jobs_checked(&reg, &graph, plan(&[("Bread", 1)])).is_none());
    assert!(generate_jobs_checked(&reg, &graph, plan(&[("Wheat", 1)])).is_some());
}

#[test]
fn job_names_are_distinct() {
    let reg = bakery();
    let graph = DependencyGraph::with_processes(&reg.processes);
    let jobs = generate_jobs(&reg, &graph, plan(&[("Wheat", 12), ("Bread", 11)]));
    let mut names: Vec<String> = jobs.iter().map(|j| j.job_id.0.clone()).collect();
    let n = names.len();
    names.sort();
    names.dedup();
    assert_eq!(n, 23);
    assert_eq!(names.len(), n);
}

#[test]
fn schedule_model_of_generated_jobs() {
    let reg = bakery();
    let graph = DependencyGraph::with_processes(&reg.processes);
    let jobs = generate_jobs(&reg, &graph, plan(&[("Wheat", 6), ("Bread", 2)]));
    let s = Scheduler::new(jobs);
    assert!(s.can_model());
    let m = s.model();
    assert_eq!(m.vars.len(), 8);
    assert_eq!(m.finish, vec![(0, 300), (1, 300), (2, 120), (3, 120), (4, 120), (5, 120), (6, 120), (7, 120)]);
    assert_eq!(m.after[0], vec![(2, 120), (3, 120), (4, 120)]);
    assert_eq!(m.after[1], vec![(5, 120), (6, 120), (7, 120)]);
    assert!(m.after[2..].iter().all(|r| r.is_empty()));
    assert_eq!(m.pairs.len(), 1 + 15);
    assert!(m.pairs.iter().all(|p| p.same_good && p.first < p.second));
    let bread = m.pairs.iter().find(|p| p.first == 0).unwrap();
    assert_eq!((bread.second, bread.first_var, bread.second_var), (1, 0, 1));
    assert_eq!((bread.first_duration, bread.second_duration), (300, 300));
    assert_eq!(m.big_m, 2 * 300 + 6 * 120);
}

#[test]
fn schedule_model_pairs_different_goods_on_one_machine() {
    let jobs = vec![
        job("Bread_1", "Bread", "Bakery", 300, &[]),
        job("Cookie_1", "Cookie", "Bakery", 600, &["Bread_1"]),
        job("Wheat_1", "Wheat", "Field", 120, &[]),
    ];
    let s = Scheduler::new(jobs);
    let m = s.model();
    assert_eq!(m.pairs.len(), 1);
    let p = &m.pairs[0];
    assert_eq!((p.first, p.second, p.first_var, p.second_var), (0, 1, 0, 1));
    assert_eq!((p.first_duration, p.second_duration, p.same_good), (300, 600, false));
    assert_eq!(m.after[1], vec![(0, 300)]);
    assert_eq!(m.big_m, 1020);
}

#[test]
fn repeated_job_names_share_a_variable() {
    let jobs = vec![
        job("A_1", "A", "M", 10, &[]),
        job("B_1", "B", "N", 20, &["A_1"]),
        job("A_1", "A", "M", 30, &[]),
    ];
    let s = Scheduler::new(jobs);
    let m = s.model();
    assert_eq!(m.vars.len(), 2);
    assert_eq!(m.vars[0].duration, 30);
    assert_eq!(m.finish, vec![(0, 10), (1, 20), (0, 30)]);
    assert_eq!(m.after[1], vec![(0, 30)]);
    assert_eq!(m.pairs.len(), 1);
    assert_eq!((m.pairs[0].first_var, m.pairs[0].second_var, m.pairs[0].same_good), (0, 0, true));
}

#[test]
fn unknown_consumed_jobs_cannot_be_modelled() {
    let s = Scheduler::new(vec![job("B_1", "B", "N", 20, &["A_1"])]);
    assert!(!s.can_model());
}

#[test]
fn production_model_rows() {
    let reg = bakery();
    let m = production_model(&reg.processes, &reg.sources, &[(GoodId("Wheat".to_string()), 40)], &[]);
    let vars: Vec<String> = m.vars.iter().map(|p| p.0.clone()).collect();
    assert_eq!(vars, vec!["Wheat", "Bread"]);
    assert_eq!(m.process_vars, vec![0, 1]);
    assert_eq!(m.capacity.len(), 2);
    assert_eq!(m.capacity[0].terms, vec![(0, 120)]);
    assert_eq!(m.capacity[0].limit, 1000);
    assert_eq!(m.capacity[1].terms, vec![(1, 300)]);
    assert_eq!(m.capacity[1].limit, 2000);
    assert_eq!(m.balance.len(), 2);
    assert_eq!(m.balance[0].good.0, "Wheat");
    assert_eq!(m.balance[0].terms, vec![(0, 1), (1, -3)]);
    assert_eq!(m.balance[0].requirement, None);
    assert_eq!(m.balance[0].initial, 40);
    assert_eq!(m.balance[1].good.0, "Bread");
    assert_eq!(m.balance[1].terms, vec![(0, 0), (1, 1)]);
    assert_eq!(m.balance[1].initial, 0);
}

#[test]
fn production_model_requirements_and_shared_variables() {
    let procs = vec![
        process("Egg", "Coop", 10, &[("Feed", 1)]),
        process("Feed", "Mill", 5, &[("Corn", 2), ("Feed", 1)]),
        process("Egg", "Coop", 12, &[]),
    ];
    let m = production_model(&procs, &[], &[], &[(GoodId("Egg".to_string()), 9)]);
    assert_eq!(m.vars.len(), 2);
    assert_eq!(m.process_vars, vec![0, 1, 0]);
    assert!(m.capacity.is_empty());
    let goods: Vec<String> = m.balance.iter().map(|b| b.good.0.clone()).collect();
    assert_eq!(goods, vec!["Feed", "Egg", "Corn"]);
    assert_eq!(m.balance[0].terms, vec![(0, -1), (1, 0), (0, 0)]);
    assert_eq!(m.balance[1].terms, vec![(0, 1), (1, 0), (0, 1)]);
    assert_eq!(m.balance[1].requirement, Some(9));
    assert_eq!(m.balance[2].terms, vec![(0, 0), (1, -2), (0, 0)]);
}

#[test]
fn plan_from_a_solution() {
    let reg = bakery();
    let m = production_model(&reg.processes, &reg.sources, &[], &[]);
    let p = m.plan_from(&vec![6, 2]);
    let counts: Vec<(String, u64)> = p.counts.iter().map(|(id, c)| (id.0.clone(), *c)).collect();
    assert_eq!(counts, vec![("Wheat".to_string(), 6), ("Bread".to_string(), 2)]);
    let graph = DependencyGraph::with_processes(&reg.processes);
    assert!(generate_jobs_checked(&reg, &graph, p).is_some());
}

fn cyclic_registry() -> Registry {
    Registry {
        goods: vec![good("A", "M", 1), good("B", "M", 1), good("C", "N", 1), good("D", "N", 1), good("E", "N", 1)],
        processes: vec![
            process("A", "M", 10, &[("B", 1)]),
            process("B", "M", 10, &[("A", 1)]),
            process("C", "N", 10, &[("A", 1)]),
            process("D", "N", 10, &[]),
            process("E", "N", 10, &[("B", 1)]),
        ],
        sources: vec![],
    }
}

#[test]
fn goods_on_or_after_a_cycle_get_no_jobs() {
    let reg = cyclic_registry();
    let graph = DependencyGraph::with_processes(&reg.processes);
    let jobs = generate_jobs(&reg, &graph, plan(&[("A", 2), ("B", 2), ("C", 1), ("D", 1), ("E", 1)]));
    let mut goods: Vec<String> = jobs.iter().map(|j| j.good_id.0.clone()).collect();
    goods.sort();
    assert_eq!(goods, vec!["C", "D", "E"]);
    // C and E take units of A and B that no job makes, so the schedule cannot be built.
    assert_eq!(ids(&jobs.iter().find(|j| j.good_id.0 == "C").unwrap().consumes), vec!["A_1"]);
    assert!(!Scheduler::new(jobs).can_model());
}

#[test]
fn acyclic_plans_get_every_planned_job() {
    let reg = bakery();
    let graph = DependencyGraph::with_processes(&reg.processes);
    let jobs = generate_jobs(&reg, &graph, plan(&[("Wheat", 5), ("Bread", 1)]));
    for i in 1..=5 {
        let name = format!("Wheat_{}", i);
        let j = jobs.iter().find(|j| j.job_id.0 == name).unwrap();
        assert_eq!((j.machine_id.0.as_str(), j.duration), ("Field", 120));
    }
    let b = jobs.iter().find(|j| j.job_id.0 == "Bread_1").unwrap();
    assert_eq!((b.machine_id.0.as_str(), b.duration), ("Bakery", 300));
    assert_eq!(jobs.len(), 6);
    assert!(Scheduler::new(jobs).can_model());
}

#[test]
fn jobs_of_a_good_come_in_one_block_and_consume_their_recipe() {
    let reg = bakery();
    let graph = DependencyGraph::with_processes(&reg.processes);
    let jobs = generate_jobs(&reg, &graph, plan(&[("Wheat", 7), ("Bread", 3)]));
    let goods: Vec<String> = jobs.iter().map(|j| j.good_id.0.clone()).collect();
    assert_eq!(goods, vec!["Bread", "Bread", "Bread", "Wheat", "Wheat", "Wheat", "Wheat", "Wheat", "Wheat", "Wheat"]);
    for (i, j) in jobs[..3].iter().enumerate() {
        assert_eq!(j.job_id.0, format!("Bread_{}", i + 1));
        assert!(j.consumes.iter().all(|c| c.0.starts_with("Wheat_")));
    }
    // The third loaf gets the one unit of wheat that is left.
    assert_eq!(ids(&jobs[2].consumes), vec!["Wheat_7"]);
}
