use trade_journal::import::{
    draft_from, existing_mt_tickets, parse_mt_statement, plan_import, statement_format,
    ticket_from_note, StatementFormat, StoredTrade,
};
use trade_journal::mt_import::parse_mt_row;

fn imported(note: &str) -> StoredTrade {
    StoredTrade { imported_from_mt: 1, notes: Some(note.to_string()) }
}

fn trade(ticket: &str, close: &str) -> trade_journal::mt_import::MTTrade {
    let cells: Vec<String> = [ticket, "EURUSD", "buy", "1.1", "1.2", "0.5", "2024-01-15 10:30:00", close, "1.0", "", "3.5"]
        .iter()
        .map(|s| s.to_string())
        .collect();
    parse_mt_row(&cells).unwrap()
}

#[test]
fn statement_format_follows_the_extension() {
    assert_eq!(statement_format("/a/report.html"), Ok(StatementFormat::Html));
    assert_eq!(statement_format("report.csv"), Ok(StatementFormat::Csv));
    assert_eq!(
        statement_format("report.htm"),
        Err("فرمت فایل پشتیبانی نمی‌شود. لطفاً HTML یا CSV استفاده کنید.".to_string())
    );
    assert!(statement_format("report.CSV").is_err());
}

#[test]
fn statement_is_read_in_its_format() {
    let csv = "header\n1\tA\tbuy\t1\t2\t1\tt\tu\n";
    assert_eq!(parse_mt_statement("s.csv", csv).unwrap().len(), 1);
    assert_eq!(parse_mt_statement("s.html", csv).unwrap_err(), "No valid trades found in HTML file");
    assert!(parse_mt_statement("s.txt", csv).is_err());
}

#[test]
fn notes_give_back_tickets() {
    assert_eq!(ticket_from_note("MT:123"), Some("123".to_string()));
    assert_eq!(ticket_from_note("MT:"), Some("".to_string()));
    assert_eq!(ticket_from_note("mt:123"), None);
    assert_eq!(ticket_from_note("note"), None);
    let stored = vec![
        imported("MT:1"),
        StoredTrade { imported_from_mt: 1, notes: None },
        imported("free text"),
        imported("MT:2"),
        imported("MT:1"),
        // a trade entered by hand does not count, whatever its note says
        StoredTrade { imported_from_mt: 0, notes: Some("MT:3".to_string()) },
    ];
    let known = existing_mt_tickets(&stored);
    assert_eq!(known.len(), 2);
    assert!(known.contains("1") && known.contains("2"));
    assert!(!known.contains("3"));
}

#[test]
fn draft_carries_dates_and_note() {
    let d = draft_from(&trade("77", "2024-01-16 09:00:00"));
    assert_eq!(d.entry_date, "2024-01-15");
    assert_eq!(d.entry_time, "2024-01-15 10:30:00");
    assert_eq!(d.exit_date.as_deref(), Some("2024-01-16"));
    assert_eq!(d.exit_time.as_deref(), Some("2024-01-16 09:00:00"));
    assert_eq!(d.direction, "long");
    assert_eq!(d.position_size, "0.5");
    assert_eq!(d.stop_loss.as_deref(), Some("1.0"));
    assert_eq!(d.take_profit, None);
    assert_eq!(d.fees.as_deref(), Some("3.5"));
    assert_eq!(d.notes, "MT:77");
    assert!(d.followed_plan && d.imported_from_mt);
    // the note gives the ticket back
    assert_eq!(ticket_from_note(&d.notes), Some("77".to_string()));
    let open = draft_from(&trade("78", ""));
    assert_eq!(open.exit_date, None);
}

#[test]
fn plan_skips_known_tickets_and_reimport_stores_nothing() {
    let trades = vec![trade("1", ""), trade("2", ""), trade("3", ""), trade("2", "")];
    let known = existing_mt_tickets(&vec![imported("MT:2")]);
    let plan = plan_import(&trades, &known);
    assert_eq!(plan.duplicates.len(), 1);
    assert_eq!(plan.skipped, 2);
    let tickets: Vec<&str> = plan.drafts.iter().map(|d| d.ticket.as_str()).collect();
    assert_eq!(tickets, vec!["1", "3"]);
    // store the drafts' notes, then import again
    let mut stored = vec![imported("MT:2")];
    stored.extend(plan.drafts.iter().map(|d| imported(&d.notes)));
    let again = plan_import(&trades, &existing_mt_tickets(&stored));
    assert!(again.drafts.is_empty());
    assert_eq!(again.duplicates.len(), 3);
    assert_eq!(again.skipped, 4);
}
