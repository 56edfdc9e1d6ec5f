use trade_journal::backup::{
    backup_file_name, has_db_extension, pre_restore_extension, select_backups, BackupEntry,
};
use trade_journal::calendar::calendar_month_pattern;
use trade_journal::csv_export::journal_csv_text;
use trade_journal::journal::{followed_plan_flag, trade_status};
use trade_journal::ordering::{sort_descending, stable_order};

fn strings(texts: &[&str]) -> Vec<String> {
    texts.iter().map(|s| s.to_string()).collect()
}

#[test]
fn month_pattern_matches_format() {
    for (y, m) in [(2024, 1), (2024, 12), (987, 3), (12345, 7), (-5, 2), (0, 0), (-1234, -1), (i64::MIN, i64::MAX), (i64::MAX, 100)] {
        assert_eq!(calendar_month_pattern(y, m), format!("{:04}-{:02}%", y, m));
    }
    assert_eq!(calendar_month_pattern(2024, 1), "2024-01%");
}

#[test]
fn backup_names() {
    assert_eq!(backup_file_name("20240115_153045"), "trade_journal_backup_20240115_153045.db");
    assert_eq!(pre_restore_extension("20240115_153045"), "db.pre_restore_20240115_153045");
}

/// The entries of a folder `/b` with the given file names.
fn entries_named(names: &[&str]) -> Vec<BackupEntry> {
    names.iter().map(|n| BackupEntry::new(format!("/b/{}", n), n.to_string())).collect()
}

#[test]
fn db_extension_matches_path_extension() {
    let names = [
        "trade_journal_backup_1.db", "x.db", ".db", "x.DB", "x.db.pre_restore_1", "x", "a.b.db",
        "..", ".", "x.", "db", "..db", "x\\.db", "x\\y.db", "dir.db\\file", "\\.db", ".x.db", "é.db",
    ];
    for name in names {
        let expected = std::path::Path::new(name).extension().and_then(|e| e.to_str()) == Some("db");
        assert_eq!(has_db_extension(name), expected, "{:?}", name);
    }
}

#[test]
fn backslash_is_part_of_a_file_name() {
    assert!(has_db_extension("x\\.db"));
    assert!(has_db_extension("\\.db"));
    assert!(!has_db_extension("dir.db\\file"));
    assert_eq!(select_backups(&entries_named(&["x\\.db"])), vec!["/b/x\\.db".to_string()]);
}

#[test]
fn backups_are_listed_newest_first() {
    let entries = entries_named(&[
        "trade_journal_backup_20240101_000000.db",
        "notes.txt",
        "trade_journal_backup_20240301_000000.db",
        "trade_journal.db.pre_restore_20240201_000000",
        "trade_journal_backup_20240201_000000.db",
    ]);
    assert_eq!(
        select_backups(&entries),
        strings(&[
            "/b/trade_journal_backup_20240301_000000.db",
            "/b/trade_journal_backup_20240201_000000.db",
            "/b/trade_journal_backup_20240101_000000.db",
        ])
    );
    assert!(select_backups(&Vec::new()).is_empty());
}

#[test]
fn descending_sort_matches_std() {
    let items = strings(&["b", "a", "ab", "", "é", "z", "ab", "B"]);
    let mut expected = items.clone();
    expected.sort();
    expected.reverse();
    assert_eq!(sort_descending(&items), expected);
}

#[test]
fn stable_order_matches_std_stable_sort() {
    let dates = strings(&["2024-02-01", "2024-01-01", "2024-02-01", "2023-12-31", "2024-01-01"]);
    let mut expected: Vec<usize> = (0..dates.len()).collect();
    expected.sort_by(|a, b| dates[*a].cmp(&dates[*b]));
    assert_eq!(stable_order(&dates), expected);
    assert_eq!(stable_order(&dates), vec![3, 1, 4, 0, 2]);
}

#[test]
fn status_and_plan_flag() {
    assert_eq!(trade_status(true), "closed");
    assert_eq!(trade_status(false), "open");
    assert_eq!(followed_plan_flag(None), 1);
    assert_eq!(followed_plan_flag(Some(true)), 1);
    assert_eq!(followed_plan_flag(Some(false)), 0);
}

#[test]
fn csv_export_quotes_every_field() {
    assert_eq!(journal_csv_text(&Vec::new()), "");
    let rows = vec![strings(&["a", "say \"hi\"", ""]), strings(&["x,y"])];
    let csv = journal_csv_text(&rows);
    let header = "id,symbol,direction,strategy_tag,entry_date,entry_time,exit_date,exit_time,entry_price,exit_price,stop_loss,take_profit,position_size,fees,planned_rr,actual_rr,pnl_gross,pnl_net,pnl_percent,plan_setup_reason,plan_market_condition,plan_confidence,emotion_entry,emotion_exit,followed_plan,mistake_tags,lesson_learned,notes,screenshot_entry_path,screenshot_exit_path,status,created_at,updated_at";
    assert_eq!(csv, format!("{}\n\"a\",\"say \"\"hi\"\"\",\"\"\n\"x,y\"\n", header));
    assert_eq!(header.split(',').count(), 33);
}

#[test]
fn a_written_backup_is_listed() {
    let name = backup_file_name("20240115_153045");
    assert!(has_db_extension(&name));
    let path = format!("/home/u/backups/{}", name);
    let entries = vec![BackupEntry::new(path.clone(), name)];
    assert_eq!(select_backups(&entries), vec![path]);
    // the copy kept before a restore is not a backup
    assert!(!has_db_extension(&format!("trade_journal.{}", pre_restore_extension("20240115_153045"))));
}

/// A reader of comma-separated text with quoted fields (RFC 4180).
fn read_csv(text: &str) -> Vec<Vec<String>> {
    let mut records = Vec::new();
    let mut record = Vec::new();
    let mut field = String::new();
    let mut quoted = false;
    let mut chars = text.chars().peekable();
    while let Some(c) = chars.next() {
        if quoted {
            if c == '"' {
                if chars.peek() == Some(&'"') {
                    chars.next();
                    field.push('"');
                } else {
                    quoted = false;
                }
            } else {
                field.push(c);
            }
        } else if c == '"' {
            quoted = true;
        } else if c == ',' {
            record.push(std::mem::take(&mut field));
        } else if c == '\n' {
            record.push(std::mem::take(&mut field));
            records.push(std::mem::take(&mut record));
        } else {
            field.push(c);
        }
    }
    records
}

#[test]
fn csv_export_reads_back() {
    let rows = vec![
        strings(&["1", "EURUSD", "a \"quoted\" note,\nover two lines", ""]),
        strings(&["\"", ",", "\n", "\"\""]),
    ];
    let records = read_csv(&journal_csv_text(&rows));
    assert_eq!(records.len(), 3);
    assert_eq!(records[0].len(), 33);
    assert_eq!(records[0][0], "id");
    assert_eq!(records[0][32], "updated_at");
    assert_eq!(records[1..].to_vec(), rows);
}
