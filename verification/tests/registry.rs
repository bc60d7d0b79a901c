use hayday_planner::domain::{GoodId, SourceId};
use hayday_planner::goods_table::{raw_goods_from_cells, raw_goods_from_html};
use hayday_planner::registry::{create_registry, parse_entry, RawGood};

fn raw(title: &str, level: &str, price: &str, time: &str, xp: &str, needs: &str, source: &str) -> RawGood {
    RawGood {
        title: title.to_string(),
        level: level.to_string(),
        price: price.to_string(),
        time: time.to_string(),
        experience: xp.to_string(),
        needs: needs.to_string(),
        source: source.to_string(),
    }
}

#[test]
fn parse_entry_reads_a_row() {
    let r = raw("Bread", "2", "21", "5 min", "3", "Wheat (3)", "Bakery");
    let (g, p) = parse_entry(&r).unwrap();
    assert_eq!(g.id, GoodId("Bread".to_string()));
    assert_eq!(g.level, 2);
    assert_eq!(g.price, 21);
    assert_eq!(g.xp, 3);
    assert_eq!(g.source, SourceId("Bakery".to_string()));
    assert_eq!(g.image_url, None);
    assert_eq!(p.id.0, "Bread");
    assert_eq!(p.source_id.0, "Bakery");
    assert_eq!(p.duration, 300);
    assert_eq!(p.product, (GoodId("Bread".to_string()), 1));
    assert_eq!(p.needs, vec![(GoodId("Wheat".to_string()), 3)]);
    assert_eq!(p.goods.len(), 1);
    assert_eq!(p.goods[0].id.0, "Bread");
}

#[test]
fn parse_entry_skips_rows_that_do_not_read() {
    assert!(parse_entry(&raw("Bread", "two", "21", "5 min", "3", "Wheat (3)", "Bakery")).is_none());
    assert!(parse_entry(&raw("Bread", "2", "", "5 min", "3", "Wheat (3)", "Bakery")).is_none());
    assert!(parse_entry(&raw("Bread", "2", "21", "soon", "3", "Wheat (3)", "Bakery")).is_none());
    assert!(parse_entry(&raw("Bread", "2", "21", "5 min", "3", "Wheat (3)", "(Bakery)")).is_none());
    assert!(parse_entry(&raw("Bread", "2", "21", "5 min", "x", "Wheat (3)", "Bakery")).is_none());
}

#[test]
fn parse_entry_takes_the_source_before_a_bracket() {
    let (g, _) = parse_entry(&raw("Wheat", "1", "1", "2 min", "1", "", " Field (x2)")).unwrap();
    assert_eq!(g.source.0, "Field");
}

#[test]
fn create_registry_keeps_the_last_row_of_a_name() {
    let rows = vec![
        raw("Wheat", "1", "1", "2 min", "1", "", "Field"),
        raw("Bread", "2", "21", "5 min", "3", "Wheat (3)", "Bakery"),
        raw("Broken", "x", "1", "1 min", "1", "", "Field"),
        raw("Bread", "3", "25", "6 min", "4", "Wheat (2)", "Oven"),
    ];
    let reg = create_registry(rows, |_| 10_800);
    assert_eq!(reg.goods.len(), 2);
    assert_eq!(reg.processes.len(), 2);
    let bread = reg.goods.iter().find(|g| g.id.0 == "Bread").unwrap();
    assert_eq!(bread.level, 3);
    assert_eq!(bread.source.0, "Oven");
    let bake = reg.processes.iter().find(|p| p.id.0 == "Bread").unwrap();
    assert_eq!(bake.duration, 360);
    assert_eq!(bake.needs, vec![(GoodId("Wheat".to_string()), 2)]);
    let mut sources: Vec<String> = reg.sources.iter().map(|s| s.id.0.clone()).collect();
    sources.sort();
    // Every row that reads names a source, the earlier "Bread" row's too.
    assert_eq!(sources, vec!["Bakery".to_string(), "Field".to_string(), "Oven".to_string()]);
    assert!(reg.sources.iter().all(|s| s.capacity == 10_800));
}

#[test]
fn created_registry_pairs_goods_with_processes() {
    let rows = vec![
        raw("Wheat", "1", "1", "2 min", "1", "", "Field"),
        raw("Corn", "2", "2", "5 min", "1", "", "Field"),
        raw("Bread", "2", "21", "5 min", "3", "Wheat (3)", "Bakery"),
        raw("Popcorn", "8", "32", "30 min", "6", "Corn (2)", "Popcorn pot"),
    ];
    let reg = create_registry(rows, |s| if s.0 == "Field" { 100 } else { 200 });
    for g in &reg.goods {
        let p = reg.processes.iter().find(|p| p.id.0 == g.id.0).unwrap();
        assert_eq!(p.source_id, g.source);
        assert_eq!(p.product, (g.id.clone(), 1));
        assert!(reg.sources.iter().any(|s| s.id == p.source_id));
    }
    assert_eq!(reg.goods.len(), reg.processes.len());
    let field = reg.sources.iter().find(|s| s.id.0 == "Field").unwrap();
    assert_eq!(field.capacity, 100);
    let pot = reg.sources.iter().find(|s| s.id.0 == "Popcorn pot").unwrap();
    assert_eq!(pot.capacity, 200);
}

#[test]
fn raw_goods_from_cells_joins_and_trims() {
    let cell = |parts: &[&str]| parts.iter().map(|p| p.to_string()).collect::<Vec<String>>();
    let rows = vec![
        vec![cell(&["Name"]), cell(&["Level"])],
        vec![
            cell(&[" Bread", "\n"]),
            cell(&["2"]),
            cell(&["21"]),
            cell(&["5", "min"]),
            cell(&["3"]),
            cell(&["Wheat", "(3)"]),
            cell(&["Bakery "]),
        ],
        vec![],
    ];
    let goods = raw_goods_from_cells(&rows);
    assert_eq!(goods.len(), 1);
    assert_eq!(goods[0].title, "Bread");
    assert_eq!(goods[0].time, "5 min");
    assert_eq!(goods[0].needs, "Wheat (3)");
    assert_eq!(goods[0].source, "Bakery");
}

#[test]
fn raw_goods_from_html_reads_table_rows() {
    let html = "<html><body><table>\
        <tr><th>Name</th><th>Level</th></tr>\
        <tr><td><a href=\"/Bread\">Bread</a></td><td>2</td><td>21</td><td>5 min</td><td>3</td>\
        <td>Wheat (3)</td><td><b>Bakery</b></td></tr>\
        <tr><td>Short</td><td>1</td></tr>\
        <tr><td>Cream</td><td>6</td><td>50</td><td>20 min</td><td>6</td><td>Milk (1)</td><td>Dairy</td><td>extra</td></tr>\
        </table></body></html>";
    let goods = raw_goods_from_html(html);
    assert_eq!(goods.len(), 2);
    assert_eq!(goods[0].title, "Bread");
    assert_eq!(goods[0].level, "2");
    assert_eq!(goods[0].price, "21");
    assert_eq!(goods[0].time, "5 min");
    assert_eq!(goods[0].experience, "3");
    assert_eq!(goods[0].needs, "Wheat (3)");
    assert_eq!(goods[0].source, "Bakery");
    assert_eq!(goods[1].title, "Cream");
    assert_eq!(goods[1].source, "Dairy");
}

#[test]
fn an_unreadable_row_changes_nothing() {
    let good_rows = || {
        vec![
            raw("Wheat", "1", "1", "2 min", "1", "", "Field"),
            raw("Bread", "2", "21", "5 min", "3", "Wheat (3)", "Bakery"),
        ]
    };
    let mut with_bad = good_rows();
    with_bad.insert(1, raw("Bread", "2", "21", "forever", "3", "Wheat (9)", "Oven"));
    let a = create_registry(good_rows(), |_| 7);
    let b = create_registry(with_bad, |_| 7);
    assert_eq!(format!("{:?}", a), format!("{:?}", b));
}
