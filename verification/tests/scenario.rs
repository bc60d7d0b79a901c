use hayday_planner::dependency_graph::{build_dependency_graph, DependencyGraph};
use hayday_planner::domain::{Good, GoodId, Process, ProcessId, Registry, Scenario, Source, SourceId};

fn good(name: &str, level: u64, source: &str, price: u64) -> Good {
    Good {
        id: GoodId(name.to_string()),
        level,
        xp: 1,
        source: SourceId(source.to_string()),
        price,
        image_url: None,
    }
}

fn process(name: &str, source: &str, secs: u64, needs: &[(&str, u64)]) -> Process {
    Process {
        id: ProcessId(name.to_string()),
        source_id: SourceId(source.to_string()),
        duration: secs,
        goods: vec![good(name, 1, source, 1)],
        product: (GoodId(name.to_string()), 1),
        needs: needs.iter().map(|(n, a)| (GoodId(n.to_string()), *a)).collect(),
    }
}

fn source(name: &str, capacity: u64) -> Source {
    Source { id: SourceId(name.to_string()), capacity }
}

fn farm() -> Registry {
    Registry {
        goods: vec![
            good("Wheat", 1, "Field", 1),
            good("Corn", 2, "Field", 2),
            good("Bread", 2, "Bakery", 21),
            good("Corn bread", 5, "Bakery", 72),
            good("Cookie", 10, "Bakery", 100),
            good("Chicken feed", 3, "Feed mill", 7),
        ],
        processes: vec![
            process("Wheat", "Field", 120, &[]),
            process("Corn", "Field", 300, &[]),
            process("Bread", "Bakery", 300, &[("Wheat", 3)]),
            process("Corn bread", "Bakery", 1200, &[("Corn", 2), ("Wheat", 2)]),
            process("Cookie", "Bakery", 3600, &[("Wheat", 2), ("Corn", 1)]),
            process("Chicken feed", "Feed mill", 300, &[("Wheat", 2), ("Corn", 1)]),
        ],
        sources: vec![source("Field", 1000), source("Bakery", 2000), source("Feed mill", 3000)],
    }
}

fn names(ps: &[Process]) -> Vec<String> {
    ps.iter().map(|p| p.id.0.clone()).collect()
}

#[test]
fn new_scenario_selects_nothing() {
    let reg = farm();
    let (ps, ss) = Scenario::new(&reg).collect();
    assert!(ps.is_empty());
    assert!(ss.is_empty());
}

#[test]
fn collect_follows_ingredients() {
    let reg = farm();
    let (ps, ss) = Scenario::new(&reg).with_sources(&["Field", "Bakery"]).for_products(&["Corn bread"]).collect();
    assert_eq!(names(&ps), vec!["Wheat", "Corn", "Corn bread"]);
    let mut s: Vec<String> = ss.iter().map(|s| s.id.0.clone()).collect();
    s.sort();
    assert_eq!(s, vec!["Bakery", "Field"]);
}

#[test]
fn collect_skips_disabled_sources() {
    let reg = farm();
    let (ps, _) = Scenario::new(&reg).with_sources(&["Bakery"]).for_products(&["Bread"]).collect();
    assert_eq!(names(&ps), vec!["Bread"]);
}

#[test]
fn collect_respects_the_level_limit() {
    let reg = farm();
    let (ps, _) = Scenario::new(&reg)
        .limit_level(4)
        .with_sources(&["Field", "Bakery"])
        .for_products(&["Corn bread", "Bread"])
        .collect();
    assert_eq!(names(&ps), vec!["Wheat", "Bread"]);
}

#[test]
fn collect_lists_unknown_sources_not() {
    let reg = farm();
    let (_, ss) = Scenario::new(&reg).with_sources(&["Field", "Moon"]).collect();
    assert_eq!(ss.len(), 1);
    assert_eq!(ss[0].id.0, "Field");
    assert_eq!(ss[0].capacity, 1000);
}

#[test]
fn filtered_builders_take_what_the_filter_accepts() {
    let reg = farm();
    let scen = Scenario::new(&reg)
        .limit_level(39)
        .with_all_products_filtered(|_| true)
        .with_all_sources_filtered(|s| s.id != SourceId("Field".to_string()));
    assert_eq!(scen.target_goods.len(), 6);
    let mut enabled: Vec<String> = scen.enabled_sources.iter().map(|s| s.0.clone()).collect();
    enabled.sort();
    assert_eq!(enabled, vec!["Bakery", "Feed mill"]);
    let (ps, _) = scen.collect();
    assert_eq!(names(&ps), vec!["Bread", "Corn bread", "Cookie", "Chicken feed"]);
}

#[test]
fn adding_a_source_twice_keeps_one() {
    let reg = farm();
    let scen = Scenario::new(&reg).with_sources(&["Field", "Field"]).with_sources(&["Field"]);
    assert_eq!(scen.enabled_sources.len(), 1);
}

#[test]
fn widening_keeps_what_was_selected() {
    let reg = farm();
    let narrow = Scenario::new(&reg).limit_level(4).with_sources(&["Bakery"]).for_products(&["Bread"]);
    let wide = narrow.clone().limit_level(20).with_sources(&["Field"]).for_products(&["Cookie"]);
    let (a, _) = narrow.collect();
    let (b, _) = wide.collect();
    for p in names(&a) {
        assert!(names(&b).contains(&p));
    }
    assert_eq!(names(&b), vec!["Wheat", "Corn", "Bread", "Cookie"]);
}

#[test]
fn dependencies_add_up_per_ingredient() {
    let procs = vec![
        process("Cake", "Bakery", 10, &[("Egg", 2), ("Milk", 1)]),
        process("Cake", "Bakery", 10, &[("Egg", 3)]),
        process("Egg", "Coop", 5, &[]),
    ];
    let g = DependencyGraph::with_processes(&procs);
    let mut deps: Vec<(String, u64)> =
        g.dependencies(&GoodId("Cake".to_string())).into_iter().map(|(id, n)| (id.0.clone(), n)).collect();
    deps.sort();
    assert_eq!(deps, vec![("Egg".to_string(), 5), ("Milk".to_string(), 1)]);
    assert!(g.dependencies(&GoodId("Egg".to_string())).is_empty());
    assert!(g.dependencies(&GoodId("Unknown".to_string())).is_empty());
}

#[test]
fn graph_has_one_node_per_good() {
    let procs = vec![
        process("Bread", "Bakery", 10, &[("Wheat", 3)]),
        process("Cookie", "Bakery", 10, &[("Wheat", 2), ("Egg", 1)]),
    ];
    let g = DependencyGraph::with_processes(&procs);
    let names: Vec<String> = g.node_map.iter().map(|(id, _)| id.0.clone()).collect();
    assert_eq!(names, vec!["Bread", "Cookie", "Wheat", "Egg"]);
    for (i, (_, ix)) in g.node_map.iter().enumerate() {
        assert_eq!(*ix, i);
    }
    assert_eq!(g.inner.node_count(), 4);
    assert_eq!(g.inner.edge_count(), 3);
}

#[test]
fn dependents_only_see_edges_that_leave_and_arrive_at_a_node() {
    let procs = vec![
        process("Bread", "Bakery", 10, &[("Wheat", 3)]),
        process("Wheat", "Field", 10, &[("Wheat", 1)]),
    ];
    let g = DependencyGraph::with_processes(&procs);
    assert!(g.dependents(&GoodId("Bread".to_string())).is_empty());
    let d: Vec<(String, u64)> =
        g.dependents(&GoodId("Wheat".to_string())).into_iter().map(|(id, n)| (id.0.clone(), n)).collect();
    assert_eq!(d, vec![("Wheat".to_string(), 1)]);
}

#[test]
fn every_need_is_a_dependency() {
    let reg = farm();
    let g = DependencyGraph::with_processes(&reg.processes);
    for p in &reg.processes {
        let deps = g.dependencies(&p.product.0);
        for (n, a) in &p.needs {
            assert!(deps.iter().any(|(id, total)| *id == n && total >= a));
        }
    }
}

#[test]
fn scenario_graph_matches_collected_processes() {
    let reg = farm();
    let scen = Scenario::new(&reg).with_sources(&["Field", "Bakery"]).for_products(&["Bread"]);
    let g = build_dependency_graph(scen.clone());
    let (ps, _) = scen.collect();
    let h = DependencyGraph::with_processes(&ps);
    let a: Vec<String> = g.node_map.iter().map(|(id, _)| id.0.clone()).collect();
    let b: Vec<String> = h.node_map.iter().map(|(id, _)| id.0.clone()).collect();
    assert_eq!(a, b);
    assert_eq!(a, vec!["Wheat", "Bread"]);
    assert_eq!(g.inner.edge_count(), 1);
}

#[test]
fn good_id_displays_its_text() {
    assert_eq!(GoodId("Corn bread".to_string()).to_display_string(), "Corn bread");
}

#[test]
fn each_selected_process_is_a_target_or_an_ingredient() {
    let reg = farm();
    let (ps, _) = Scenario::new(&reg).with_sources(&["Field", "Bakery"]).for_products(&["Cookie", "Bread"]).collect();
    let mut ids: Vec<String> = names(&ps);
    for p in &ps {
        let target = p.id.0 == "Cookie" || p.id.0 == "Bread";
        let needed = ps.iter().any(|q| q.needs.iter().any(|(n, _)| n.0 == p.id.0));
        assert!(target || needed);
    }
    let n = ids.len();
    ids.sort();
    ids.dedup();
    assert_eq!(ids.len(), n);
}
