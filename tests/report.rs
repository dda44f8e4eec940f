use libdrcr::report::{
    CalculatedRow, DynamicReport, DynamicReportEntry, FormulaTerm, LiteralRow, Section,
};

fn row(text: &str, id: Option<&str>, quantity: Vec<i64>, auto_hide: bool) -> DynamicReportEntry {
    DynamicReportEntry::LiteralRow(LiteralRow {
        text: text.to_string(),
        quantity,
        id: id.map(|s| s.to_string()),
        visible: true,
        auto_hide,
        link: None,
        heading: false,
        bordered: false,
    })
}

fn columns(n: usize) -> Vec<String> {
    (0..n).map(|i| format!("Column {}", i)).collect()
}

fn section(id: Option<&str>, auto_hide: bool, entries: Vec<DynamicReportEntry>) -> Section {
    Section::new(
        "Section".to_string(),
        id.map(|s| s.to_string()),
        true,
        auto_hide,
        entries,
    )
}

fn quantities(entry: Option<&DynamicReportEntry>) -> Vec<i64> {
    match entry {
        Some(DynamicReportEntry::LiteralRow(r)) => r.quantity.clone(),
        _ => panic!("expected a literal row"),
    }
}

#[test]
fn subtotal_nested_sections() {
    let inner = section(Some("inner"), false, vec![row("c", None, vec![5], false)]);
    let outer = section(
        Some("outer"),
        false,
        vec![
            row("a", None, vec![10], false),
            row("b", None, vec![-3], false),
            DynamicReportEntry::Section(inner),
        ],
    );
    let report = DynamicReport::new(
        "Report".to_string(),
        columns(1),
        vec![DynamicReportEntry::Section(outer)],
    );
    assert_eq!(report.subtotal_for_id("outer"), vec![12]);
    assert_eq!(report.subtotal_for_id("inner"), vec![5]);
    match report.by_id("outer") {
        Some(DynamicReportEntry::Section(s)) => assert_eq!(s.subtotal(&report), vec![12]),
        _ => panic!("expected a section"),
    }
}

#[test]
fn subtotal_short_rows_and_spacers() {
    let s = section(
        Some("s"),
        false,
        vec![
            row("a", None, vec![1, 2], false),
            DynamicReportEntry::Spacer,
            row("b", None, vec![4], false),
        ],
    );
    let report = DynamicReport::new("R".to_string(), columns(2), vec![DynamicReportEntry::Section(s)]);
    assert_eq!(report.subtotal_for_id("s"), vec![5, 2]);
}

#[test]
fn auto_hide_removes_zero_row_keeps_section() {
    let s = section(
        Some("s"),
        true,
        vec![row("zero", Some("z"), vec![0, 0], true), row("nonzero", Some("n"), vec![0, 7], true)],
    );
    let mut report =
        DynamicReport::new("R".to_string(), columns(2), vec![DynamicReportEntry::Section(s)]);
    report.auto_hide();
    assert!(report.by_id("z").is_none());
    assert!(report.by_id("n").is_some());
    match report.by_id("s") {
        Some(DynamicReportEntry::Section(s)) => assert_eq!(s.entries.len(), 1),
        _ => panic!("section should survive"),
    }
}

#[test]
fn auto_hide_removes_all_zero_section() {
    let inner = section(Some("inner"), true, vec![row("zero", None, vec![0], true), DynamicReportEntry::Spacer]);
    let keep = row("kept", Some("k"), vec![0], false);
    let mut report = DynamicReport::new(
        "R".to_string(),
        columns(1),
        vec![DynamicReportEntry::Section(inner), keep],
    );
    report.auto_hide();
    assert!(report.by_id("inner").is_none());
    assert!(report.by_id("k").is_some());
    assert_eq!(report.entries.len(), 1);
}

#[test]
fn auto_hide_keeps_section_without_flag() {
    let inner = section(Some("inner"), false, vec![row("zero", None, vec![0], true)]);
    let mut report = DynamicReport::new("R".to_string(), columns(1), vec![DynamicReportEntry::Section(inner)]);
    report.auto_hide();
    match report.by_id("inner") {
        Some(DynamicReportEntry::Section(s)) => assert!(s.entries.is_empty()),
        _ => panic!("section without auto-hide should stay"),
    }
}

#[test]
fn row_can_auto_hide() {
    let r = LiteralRow {
        text: "r".to_string(),
        quantity: vec![0, 0],
        id: None,
        visible: true,
        auto_hide: true,
        link: None,
        heading: false,
        bordered: false,
    };
    assert!(r.can_auto_hide());
    let mut r2 = r;
    r2.quantity = vec![0, 1];
    assert!(!r2.can_auto_hide());
}

fn total_row(terms: Vec<(&str, bool)>) -> DynamicReportEntry {
    DynamicReportEntry::CalculatedRow(CalculatedRow {
        text: "Total".to_string(),
        id: Some("total".to_string()),
        visible: true,
        auto_hide: false,
        link: None,
        heading: true,
        bordered: true,
        terms: terms
            .into_iter()
            .map(|(id, negate)| FormulaTerm { id: id.to_string(), negate })
            .collect(),
    })
}

#[test]
fn calculate_replaces_formula_rows() {
    let income = section(Some("income"), false, vec![row("sales", None, vec![100, 50], false)]);
    let expenses = section(Some("expenses"), false, vec![row("rent", Some("rent"), vec![30, 20], false)]);
    let mut report = DynamicReport::new(
        "Income statement".to_string(),
        columns(2),
        vec![
            DynamicReportEntry::Section(income),
            DynamicReportEntry::Section(expenses),
            total_row(vec![("income", false), ("expenses", true), ("missing", false)]),
        ],
    );
    report.calculate();
    assert_eq!(quantities(report.by_id("total")), vec![70, 30]);
    assert_eq!(report.quantity_for_id("total"), Some(&vec![70, 30]));
    assert_eq!(report.quantity_for_id("rent"), Some(&vec![30, 20]));
    assert_eq!(report.quantity_for_id("nothing"), None);
}

#[test]
fn calculate_nested_formula_sees_whole_report() {
    let a = row("a", Some("a"), vec![7], false);
    let s = section(Some("s"), false, vec![total_row(vec![("a", false), ("a", false)])]);
    let mut report = DynamicReport::new("R".to_string(), columns(1), vec![a, DynamicReportEntry::Section(s)]);
    report.calculate();
    assert_eq!(quantities(report.by_id("total")), vec![14]);
}

#[test]
fn calculate_twice_is_noop() {
    let a = row("a", Some("a"), vec![3, 4], false);
    let mut report = DynamicReport::new(
        "R".to_string(),
        columns(2),
        vec![a, total_row(vec![("a", true)])],
    );
    report.calculate();
    let first = quantities(report.by_id("total"));
    report.calculate();
    assert_eq!(quantities(report.by_id("total")), first);
    assert_eq!(first, vec![-3, -4]);
    assert_eq!(report.entries.len(), 2);
}

#[test]
fn section_calculate_against_report() {
    let report = DynamicReport::new(
        "R".to_string(),
        columns(1),
        vec![row("a", Some("a"), vec![9], false)],
    );
    let mut s = section(Some("s"), false, vec![total_row(vec![("a", false)])]);
    s.calculate(&report);
    match &s.entries[0] {
        DynamicReportEntry::LiteralRow(r) => assert_eq!(r.quantity, vec![9]),
        _ => panic!("expected a literal row"),
    }
    assert!(s.by_id("total").is_some());
}

#[test]
fn by_id_is_depth_first() {
    let inner = section(Some("inner"), false, vec![row("first", Some("dup"), vec![1], false)]);
    let report = DynamicReport::new(
        "R".to_string(),
        columns(1),
        vec![DynamicReportEntry::Section(inner), row("second", Some("dup"), vec![2], false)],
    );
    assert_eq!(quantities(report.by_id("dup")), vec![1]);
}
