use crafting_helper::amount::{effective_amount, Amount};
use crafting_helper::catalog::{Catalog, Recipe};
use crafting_helper::expand::{expand, ExpandError};
use crafting_helper::ledger::{CraftingData, Ledger};
use crafting_helper::search::find_matching;
use crafting_helper::strutil::indent_lines;
use crafting_helper::summary::{render_summary, sort_entries, total_time};
use crafting_helper::time::CraftingTime;

fn time_secs(seconds: u64) -> CraftingTime {
    CraftingTime {
        weeks: None,
        days: None,
        hours: None,
        minutes: None,
        seconds: Some(seconds),
    }
}

fn recipe(id: &str, name: &str, tier: i32, batch: Option<u64>, secs: Option<u64>,
    reqs: &[(&str, u64)]) -> Recipe {
    Recipe {
        id: id.to_string(),
        name: name.to_string(),
        tier,
        batch_size: batch.map(Amount::whole),
        time: secs.map(time_secs),
        requirements: reqs
            .iter()
            .map(|(r, q)| (r.to_string(), Amount::whole(*q)))
            .collect(),
    }
}

#[test]
fn test_calc_count() {
    let e = effective_amount(Amount::whole(1), Some(Amount::whole(4))).unwrap();
    assert_eq!((e.num, e.den), (4, 1));
    let e = effective_amount(Amount::whole(4), Some(Amount::whole(4))).unwrap();
    assert_eq!((e.num, e.den), (4, 1));
    let half = Amount::new(1, 2).unwrap();
    let e = effective_amount(half, None).unwrap();
    assert_eq!((e.num, e.den), (1, 2));
}

#[test]
fn batch_rounding_examples() {
    // ceil(5/4)*4 = 8: covered by more than one whole batch never happens.
    let e = effective_amount(Amount::whole(5), Some(Amount::whole(4))).unwrap();
    assert_eq!((e.num, e.den), (8, 1));
    // fractional batch size: ceil(1 / (5/2)) * 5/2 = 5/2.
    let b = Amount::new(5, 2).unwrap();
    let e = effective_amount(Amount::whole(1), Some(b)).unwrap();
    assert_eq!(e.num * 2, 5 * e.den);
}

#[test]
fn ledger_additivity_two_branches() {
    let mut ledger = Ledger::new();
    let id = "bolt".to_string();
    let name = "Bolt".to_string();
    let x = Amount::new(3, 2).unwrap();
    let y = Amount::new(5, 2).unwrap();
    assert!(ledger.accumulate(&id, &name, 1, x, 7));
    assert!(ledger.accumulate(&id, &name, 1, y, 7));
    assert_eq!(ledger.rows.len(), 1);
    let a = ledger.rows[0].amount;
    // 3/2 + 5/2 == 4
    assert_eq!(a.num, 4 * a.den);
}

#[test]
fn ledger_amount_overflow_is_refused() {
    let mut ledger = Ledger::new();
    let id = "x".to_string();
    let name = "X".to_string();
    assert!(ledger.accumulate(&id, &name, 0, Amount::whole(u64::MAX), 0));
    assert!(!ledger.accumulate(&id, &name, 0, Amount::whole(1), 0));
    assert_eq!(ledger.rows[0].amount.num, u64::MAX);
}

#[test]
fn duration_round_trip_boundaries() {
    // exactly one hour stays expressed as 60 minutes (strict greater-than).
    let t = CraftingTime::from_secs(3600);
    assert_eq!(t.hours, None);
    assert_eq!(t.minutes, Some(60));
    assert_eq!(t.seconds, None);
    assert_eq!(t.to_secs(), 3600);
    // zero decomposes to nothing at all.
    let z = CraftingTime::from_secs(0);
    assert_eq!(
        (z.weeks, z.days, z.hours, z.minutes, z.seconds),
        (None, None, None, None, None)
    );
    assert_eq!(z.to_secs(), 0);
    // a mixed value round-trips too.
    for s in [1, 59, 60, 61, 3599, 3601, 86400, 604800, 604801, 987654321] {
        assert_eq!(CraftingTime::from_secs(s).to_secs(), s);
    }
}

#[test]
fn duration_one_week_boundary() {
    let t = CraftingTime::from_secs(604800);
    assert_eq!(t.weeks, None);
    assert_eq!(t.days, Some(7));
    assert_eq!(t.to_secs(), 604800);
}

fn row(name: &str, tier: i32) -> CraftingData {
    CraftingData {
        id: name.to_lowercase(),
        name: name.to_string(),
        tier,
        amount: Amount::whole(1),
        time_per_part: 0,
    }
}

#[test]
fn sort_swaps_operands_for_descending() {
    let rows = vec![row("Cog", 2), row("Axle", 1), row("Bolt", 2)];
    let asc = sort_entries(&rows, true);
    let asc_names: Vec<&str> = asc.iter().map(|r| r.name.as_str()).collect();
    assert_eq!(asc_names, ["Axle", "Bolt", "Cog"]);
    // descending swaps the comparison operands: within the shared tier the
    // names come out reversed as well, not only the tiers.
    let desc = sort_entries(&rows, false);
    let desc_names: Vec<&str> = desc.iter().map(|r| r.name.as_str()).collect();
    assert_eq!(desc_names, ["Cog", "Bolt", "Axle"]);
}

#[test]
fn sort_is_stable_on_equal_keys() {
    let mut first = row("Bolt", 2);
    first.id = "bolt_a".to_string();
    let mut second = row("Bolt", 2);
    second.id = "bolt_b".to_string();
    let rows = vec![first, second, row("Axle", 1)];
    let asc = sort_entries(&rows, true);
    assert_eq!(asc[0].name, "Axle");
    assert_eq!(asc[1].id, "bolt_a");
    assert_eq!(asc[2].id, "bolt_b");
    let desc = sort_entries(&rows, false);
    assert_eq!(desc[0].id, "bolt_a");
    assert_eq!(desc[1].id, "bolt_b");
    assert_eq!(desc[2].name, "Axle");
}

#[test]
fn shared_sub_item_sums_over_branches() {
    // D is reached through B (needing 2) and through C (needing 5): its
    // ledger amount is the sum of both contributions.
    let mut cat = Catalog::new();
    assert!(cat.push(recipe("A", "Alpha", 0, None, None, &[("B", 1), ("C", 1)])));
    assert!(cat.push(recipe("B", "Beta", 0, None, None, &[("D", 2)])));
    assert!(cat.push(recipe("C", "Gamma", 0, None, None, &[("D", 5)])));
    assert!(cat.push(recipe("D", "Delta", 0, None, None, &[])));
    let (ledger, _) = expand(&cat, &"A".to_string(), Amount::whole(1)).unwrap();
    let d = ledger.rows.iter().find(|r| r.id == "D").unwrap();
    assert_eq!(d.amount.num, 7 * d.amount.den);
}

fn scenario_catalog() -> Catalog {
    let mut cat = Catalog::new();
    assert!(cat.push(recipe("A", "Alpha", 0, Some(2), Some(10), &[("B", 3)])));
    assert!(cat.push(recipe("B", "Beta", 0, None, Some(5), &[])));
    cat
}

#[test]
fn end_to_end_scenario() {
    let cat = scenario_catalog();
    let (ledger, tree) = expand(&cat, &"A".to_string(), Amount::whole(1)).unwrap();
    assert_eq!(ledger.rows.len(), 2);
    let a = &ledger.rows[0];
    let b = &ledger.rows[1];
    assert_eq!(a.id, "A");
    assert_eq!(a.amount.num, 2 * a.amount.den);
    assert_eq!(a.time_per_part, 10);
    assert_eq!(b.id, "B");
    assert_eq!(b.amount.num, 3 * b.amount.den);
    assert_eq!(b.time_per_part, 5);
    // total time: ceil(2)*10 + ceil(3)*5 = 35 seconds.
    assert_eq!(total_time(&ledger.rows), Some(35));
    assert!(tree.contains("Alpha"));
    assert!(tree.contains("Beta"));
    let report = render_summary(&"Alpha".to_string(), &ledger, true, false).unwrap();
    assert!(report.ends_with("Total time for \"Alpha\"\nseconds = 35\n"));
}

#[test]
fn tree_output_shape() {
    let cat = scenario_catalog();
    let (_, tree) = expand(&cat, &"A".to_string(), Amount::whole(1)).unwrap();
    let lines: Vec<&str> = tree.lines().collect();
    assert_eq!(lines[0], "Alpha               : 2 part(s) [Tier: Unknown]");
    assert_eq!(lines[1], "");
    assert_eq!(lines[2], "-  Beta                : 3 part(s) [Tier: Unknown]");
}

#[test]
fn fractional_amounts_pass_through() {
    let mut cat = Catalog::new();
    let mut r = recipe("oil", "Oil", 3, None, None, &[]);
    r.requirements = vec![];
    assert!(cat.push(r));
    let half = Amount::new(1, 2).unwrap();
    let (ledger, tree) = expand(&cat, &"oil".to_string(), half).unwrap();
    assert_eq!(ledger.rows[0].amount.num * 2, ledger.rows[0].amount.den);
    assert!(tree.starts_with("Oil: 0.5000 part(s) [Tier: 3]"));
}

#[test]
fn unknown_requirement_aborts() {
    let mut cat = Catalog::new();
    assert!(cat.push(recipe("A", "Alpha", 0, None, None, &[("C", 1)])));
    let err = expand(&cat, &"A".to_string(), Amount::whole(1)).unwrap_err();
    match err {
        ExpandError::ItemNotFound(id) => assert_eq!(id, "C"),
        _ => panic!("expected an unknown-item failure"),
    }
}

#[test]
fn unknown_root_aborts() {
    let cat = scenario_catalog();
    let err = expand(&cat, &"Z".to_string(), Amount::whole(1)).unwrap_err();
    assert!(matches!(err, ExpandError::ItemNotFound(_)));
}

#[test]
fn cyclic_catalog_aborts() {
    let mut cat = Catalog::new();
    assert!(cat.push(recipe("A", "Alpha", 0, None, None, &[("B", 1)])));
    assert!(cat.push(recipe("B", "Beta", 0, None, None, &[("A", 1)])));
    let err = expand(&cat, &"A".to_string(), Amount::whole(1)).unwrap_err();
    assert!(matches!(err, ExpandError::CycleDetected(_)));
}

#[test]
fn duplicate_identifier_refused() {
    let mut cat = Catalog::new();
    assert!(cat.push(recipe("A", "Alpha", 0, None, None, &[])));
    assert!(!cat.push(recipe("A", "Other", 1, None, None, &[])));
    assert_eq!(cat.len(), 1);
}

#[test]
fn search_is_case_insensitive() {
    let mut cat = Catalog::new();
    assert!(cat.push(recipe("iron_ingot", "Iron Ingot", 1, None, None, &[])));
    assert!(cat.push(recipe("gear", "Gear", 1, None, None, &[])));
    assert_eq!(find_matching(&"IRON".to_string(), &cat), vec![0]);
    assert_eq!(find_matching(&"ingot".to_string(), &cat), vec![0]);
    assert_eq!(find_matching(&"GeAr".to_string(), &cat), vec![1]);
    assert_eq!(find_matching(&"r".to_string(), &cat), vec![0, 1]);
    assert!(find_matching(&"zzz".to_string(), &cat).is_empty());
}

#[test]
fn indent_lines_filters_and_indents() {
    let text = "seconds = 35\n\n  minutes = 1  \n".to_string();
    assert_eq!(
        indent_lines(text),
        "        - seconds = 35\n        - minutes = 1"
    );
    assert_eq!(indent_lines("\n\n".to_string()), "");
}

#[test]
fn summary_details_include_times() {
    let cat = scenario_catalog();
    let (ledger, _) = expand(&cat, &"A".to_string(), Amount::whole(1)).unwrap();
    let report = render_summary(&"Alpha".to_string(), &ledger, true, true).unwrap();
    assert!(report.contains("========================= DETAILS ========================="));
    assert!(report.contains("2      part(s)  Alpha               : [Tier: Unknown]"));
    assert!(report.contains("       total:\n        - seconds = 20\n"));
    assert!(report.contains("       per part:\n        - seconds = 10\n"));
    assert!(report.contains("       total:\n        - seconds = 15\n"));
}

#[test]
fn time_overflow_is_reported() {
    let t = CraftingTime {
        weeks: Some(u64::MAX),
        days: None,
        hours: None,
        minutes: None,
        seconds: Some(3),
    };
    assert_eq!(t.checked_to_secs(), None);
    let small = time_secs(35);
    assert_eq!(small.checked_to_secs(), Some(35));
}
