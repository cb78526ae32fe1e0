use argus::spending::{
    children, gap_line, grand_total, merchant_line, money, month_front, overview, parent_front,
    rank, roll_up, total_line, truncate, CategoryRow,
};

fn row(top: Option<&str>, category: Option<&str>, spent: i64, n: i64) -> CategoryRow {
    CategoryRow {
        top: top.map(str::to_string),
        category: category.map(str::to_string),
        spent,
        n,
    }
}

#[test]
fn columns() {
    assert_eq!(money(-123456), "  -1234.56");
    assert_eq!(truncate("coffee", 6), "coffee");
    assert_eq!(truncate("coffees", 6), "coffe…");
    assert_eq!(truncate("", 0), "");
}

#[test]
fn an_overview() {
    assert_eq!(
        overview("2026-01-01", "2026-03-31", 3, 40, 1000, 2500),
        vec![
            "  2026-01-01 to 2026-03-31   (3 months, 40 transactions)".to_string(),
            "  Spent           10.00".to_string(),
            "  Received        25.00".to_string(),
            "  Net             15.00".to_string(),
            "  Per month        3.33".to_string(),
        ]
    );
    assert_eq!(overview("", "", 0, 0, 0, 0)[0], "   to    (1 months, 0 transactions)");
}

#[test]
fn months_of_spending() {
    assert_eq!(
        month_front("2026-03", 1000, 250, 7),
        "  2026-03       10.00       2.50      -7.50     7  "
    );
}

#[test]
fn children_are_counted_in_their_parents() {
    let rows = [
        row(Some("Eating out"), Some("Coffee"), 300, 3),
        row(Some("Eating out"), Some("Eating out"), 100, 1),
        row(Some("Rent"), Some("Rent"), 900, 1),
        row(None, None, 50, 2),
        row(Some("Eating out"), Some("Drinks"), 600, 2),
    ];
    let parents = rank(roll_up(&rows));
    let shown: Vec<(&str, i64, i64)> = parents
        .iter()
        .map(|p| (p.name.as_str(), p.spent, p.n))
        .collect();
    assert_eq!(
        shown,
        vec![("Eating out", 1000, 6), ("Rent", 900, 1), ("Uncategorised", 50, 2)]
    );
    // Nothing is lost in rolling up.
    assert_eq!(grand_total(&parents), rows.iter().map(|r| r.spent).sum::<i64>());
    assert_eq!(
        children(&rows, "Eating out"),
        vec![
            format!("    └ {:<14} {:>10} {:>19}", "Coffee", "3.00", "(3)"),
            format!("    └ {:<14} {:>10} {:>19}", "Drinks", "6.00", "(2)"),
        ]
    );
    assert!(children(&rows, "Rent").is_empty());
    assert!(children(&rows, "Uncategorised").is_empty());
    assert_eq!(
        parent_front(&parents[0], 12),
        format!("  {:<18} {:>10} {:>10} ", "Eating out", "10.00", "0.83")
    );
    assert_eq!(total_line(1950), format!("  {:<18} {:>10}", "TOTAL", "19.50"));
}

#[test]
fn equal_totals_keep_their_order() {
    let rows = [
        row(Some("B"), Some("B"), 5, 1),
        row(Some("A"), Some("A"), 5, 1),
        row(Some("C"), Some("C"), 9, 1),
    ];
    let names: Vec<String> = rank(roll_up(&rows)).into_iter().map(|p| p.name).collect();
    assert_eq!(names, vec!["C".to_string(), "B".to_string(), "A".to_string()]);
}

#[test]
fn merchants_and_gaps() {
    assert_eq!(
        merchant_line(1250, 3, "A merchant whose name is long", "Food"),
        "       12.50    3x  A merchant whose name is lo… Food"
    );
    assert_eq!(gap_line(1250, 3, "Shop"), "       12.50    3x  Shop");
}
