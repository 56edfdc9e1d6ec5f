use trade_journal::mt_import::{
    find_duplicates, mt_trade_from_cells, parse_mt_csv, parse_mt_html, parse_mt_row,
    ImportSummary,
};
use trade_journal::ticket_set::TicketSet;

fn price(text: &str) -> f64 {
    text.parse::<f64>().unwrap()
}

#[test]
fn test_parse_mt_row_valid() {
    let cells = vec![
        "123456".to_string(),
        "EURUSD".to_string(),
        "buy".to_string(),
        "1.0850".to_string(),
        "1.0900".to_string(),
        "1.0".to_string(),
        "2024-01-15 10:30:00".to_string(),
        "2024-01-15 11:00:00".to_string(),
        "1.0800".to_string(),
        "1.0950".to_string(),
        "10.0".to_string(),
        "0.0".to_string(),
        "50.0".to_string(),
    ];

    let result = parse_mt_row(&cells);
    assert!(result.is_ok());
    let trade = result.unwrap();
    assert_eq!(trade.ticket, "123456");
    assert_eq!(trade.symbol, "EURUSD");
    assert_eq!(trade.trade_type, "long");
    assert_eq!(price(&trade.open_price), 1.0850);
    assert_eq!(trade.close_price.as_deref().map(price), Some(1.0900));
}

#[test]
fn test_parse_mt_row_sell() {
    let cells = vec![
        "789012".to_string(),
        "GBPUSD".to_string(),
        "sell".to_string(),
        "1.2650".to_string(),
        "1.2600".to_string(),
        "0.5".to_string(),
        "2024-01-15 14:00:00".to_string(),
        "2024-01-15 14:30:00".to_string(),
        "1.2700".to_string(),
        "1.2550".to_string(),
        "5.0".to_string(),
        "0.0".to_string(),
        "25.0".to_string(),
    ];

    let result = parse_mt_row(&cells);
    assert!(result.is_ok());
    let trade = result.unwrap();
    assert_eq!(trade.trade_type, "short");
}

#[test]
fn test_parse_mt_row_incomplete() {
    let cells = vec!["123456".to_string(), "EURUSD".to_string()];
    let result = parse_mt_row(&cells);
    assert!(result.is_err());
}

#[test]
fn test_find_duplicates() {
    let new_tickets = vec!["111".to_string(), "222".to_string(), "333".to_string()];
    let mut existing = TicketSet::new();
    existing.insert("222".to_string());

    let duplicates = find_duplicates(&new_tickets, &existing);
    assert_eq!(duplicates.len(), 1);
    assert!(duplicates.contains("222"));
}

#[test]
fn test_find_no_duplicates() {
    let new_tickets = vec!["111".to_string(), "222".to_string()];
    let existing = TicketSet::new();

    let duplicates = find_duplicates(&new_tickets, &existing);
    assert!(duplicates.is_empty());
}

fn cells(texts: &[&str]) -> Vec<String> {
    texts.iter().map(|s| s.to_string()).collect()
}

fn err_of(cs: &[&str]) -> String {
    parse_mt_row(&cells(cs)).unwrap_err()
}

#[test]
fn row_errors_name_their_cause() {
    assert_eq!(err_of(&["1", "A", "buy", "1", "1", "1", "t"]), "Insufficient cells in row");
    assert_eq!(err_of(&["  ", "A", "buy", "1", "1", "1", "t", ""]), "Invalid or header row");
    assert_eq!(err_of(&["Ticket", "Symbol", "Type", "Price", "Price", "Size", "Time", "Time"]), "Invalid or header row");
    assert_eq!(err_of(&["1", "A", "balance", "1", "1", "1", "t", ""]), "Invalid trade type");
    assert_eq!(err_of(&["1", "A", "buy", "1,5", "1", "1", "t", ""]), "Invalid open price");
    assert_eq!(err_of(&["1", "A", "sell", "1.5", "x", "lots", "t", ""]), "Invalid volume");
}

#[test]
fn row_type_is_read_in_any_case() {
    // "BUY LIMIT" only mentions "buy" once lower-cased.
    let t = parse_mt_row(&cells(&["7", "XAUUSD", " BUY LIMIT ", "2000", "", "0.1", "t1", ""])).unwrap();
    assert_eq!(t.trade_type, "long");
    assert_eq!(t.close_price, None);
    assert_eq!(t.close_time, None);
    assert_eq!(t.stop_loss, None);
    // a ticket cell saying "TICKET" is a header whatever its case
    assert!(parse_mt_row(&cells(&["TICKET", "A", "sell", "1", "1", "1", "t", ""])).is_err());
}

#[test]
fn row_cells_are_trimmed_and_optional_numbers_checked() {
    let t = parse_mt_row(&cells(&[
        " 42 ", "\tEURUSD ", "Sell", " 1.25 ", "n/a", " 2 ", " 2024-01-01 10:00 ", "  ", "1e-3", "bad",
    ]))
    .unwrap();
    assert_eq!(t.ticket, "42");
    assert_eq!(t.symbol, "EURUSD");
    assert_eq!(t.trade_type, "short");
    assert_eq!(t.open_price, "1.25");
    assert_eq!(t.close_price, None);
    assert_eq!(t.volume, "2");
    assert_eq!(t.open_time, "2024-01-01 10:00");
    assert_eq!(t.close_time, None);
    assert_eq!(t.stop_loss.as_deref(), Some("1e-3"));
    assert_eq!(t.take_profit, None);
    assert_eq!(t.commission, None);
}

#[test]
fn row_reading_from_given_lower_case_forms() {
    let cs = cells(&["5", "A", "ignored", "1", "1", "1", "t", ""]);
    let t = mt_trade_from_cells(&cs, "5", "buy stop").unwrap();
    assert_eq!(t.trade_type, "long");
    assert_eq!(mt_trade_from_cells(&cs, "ticket", "buy").unwrap_err(), "Invalid or header row");
    assert_eq!(mt_trade_from_cells(&cs, "5", "deposit").unwrap_err(), "Invalid trade type");
}

#[test]
fn csv_statement_skips_header_and_bad_lines() {
    let content = "Ticket\tSymbol\tType\tOpen\tClose\tVolume\tOpen Time\tClose Time\n\
                   1001\tEURUSD\tbuy\t1.1\t1.2\t1\t2024-01-01 10:00\t2024-01-01 11:00\r\n\
                   short\tline\n\
                   1002\tGBPUSD\tsell\t1.3\t\t0.5\t2024-01-02 09:00\t\n";
    let trades = parse_mt_csv(content).unwrap();
    assert_eq!(trades.len(), 2);
    assert_eq!(trades[0].ticket, "1001");
    assert_eq!(trades[0].close_time.as_deref(), Some("2024-01-01 11:00"));
    assert_eq!(trades[1].ticket, "1002");
    assert_eq!(trades[1].trade_type, "short");
    assert_eq!(trades[1].close_price, None);
}

#[test]
fn csv_statement_without_trades_is_an_error() {
    assert_eq!(parse_mt_csv("").unwrap_err(), "No valid trades found in CSV file");
    // the only trade line is the first line, which is taken as the header
    assert_eq!(
        parse_mt_csv("1\tA\tbuy\t1\t1\t1\tt\tu").unwrap_err(),
        "No valid trades found in CSV file"
    );
}

#[test]
fn html_statement_rows_and_cells() {
    let html = "<table>\n\
        <tr align=right><td>Ticket</td><td>Symbol</td><td>Type</td><td>Open</td><td>Close</td><td>Size</td><td>Open Time</td><td>Close Time</td></tr>\n\
        <tr bgcolor=#E0E0E0><td>2001</td><td>EURUSD</td><td>buy</td><td>1.0850</td><td>1.0900</td><td>1.00</td><td>2024.01.15&nbsp;10:30</td><td>2024.01.15<br>11:00</td><td>1.08</td></tr>\n\
        <tr><td>2002</td><td>USDJPY</td><td>sell</td><td>150.5</td>\n<td>150.0</td><td>2</td><td>t</td><td>u</td></tr>\n\
        <tr><td colspan=3>2003</td><td>GBPUSD</td><td>sell limit</td><td>1.27</td><td></td><td>0.1</td><td>t</td><td></td></tr>\n\
        </table>";
    let trades = parse_mt_html(html).unwrap();
    assert_eq!(trades.len(), 3);
    assert_eq!(trades[0].ticket, "2001");
    assert_eq!(trades[0].open_time, "2024.01.15 10:30");
    assert_eq!(trades[0].close_time.as_deref(), Some("2024.01.15 11:00"));
    assert_eq!(trades[0].stop_loss.as_deref(), Some("1.08"));
    // a row written over two lines is read too
    assert_eq!(trades[1].ticket, "2002");
    assert_eq!(trades[1].close_price.as_deref(), Some("150.0"));
    assert_eq!(trades[2].ticket, "2003");
    assert_eq!(trades[2].trade_type, "short");
}

#[test]
fn html_statement_in_the_documented_layout() {
    let html = "<table>
  <tr>
    <td>Ticket</td><td>Symbol</td><td>Type</td><td>Open Price</td>
    <td>Close Price</td><td>Volume</td><td>Open Time</td><td>Close Time</td>
    <td>Stop Loss</td><td>Take Profit</td><td>Commission</td><td>Swap</td><td>Profit</td>
  </tr>
  <tr>
    <td>123456</td><td>EURUSD</td><td>buy</td><td>1.0850</td>
    <td>1.0900</td><td>1.0</td><td>2024-01-15 10:30:00</td><td>2024-01-15 11:00:00</td>
    <td>1.0800</td><td>1.0950</td><td>10.0</td><td>0.0</td><td>50.0</td>
  </tr>
</table>";
    let trades = parse_mt_html(html).unwrap();
    assert_eq!(trades.len(), 1);
    let t = &trades[0];
    assert_eq!(t.ticket, "123456");
    assert_eq!(t.symbol, "EURUSD");
    assert_eq!(t.trade_type, "long");
    assert_eq!(price(&t.open_price), 1.085);
    assert_eq!(t.close_price.as_deref().map(price), Some(1.09));
    assert_eq!(t.stop_loss.as_deref().map(price), Some(1.08));
    assert_eq!(t.commission.as_deref().map(price), Some(10.0));
    assert_eq!(t.profit.as_deref().map(price), Some(50.0));
}

#[test]
fn html_cell_tags_are_removed() {
    let html = "<tr><td><b>42</b></td><td>EURUSD</td><td>sell</td><td>1.1</td><td>1.0</td><td>1</td><td>2024-01-01 00:00:00</td><td></td></tr>";
    let trades = parse_mt_html(html).unwrap();
    assert_eq!(trades.len(), 1);
    assert_eq!(trades[0].ticket, "42");
    assert_eq!(trades[0].trade_type, "short");
    assert_eq!(price(&trades[0].volume), 1.0);
    assert_eq!(trades[0].close_time, None);
    let html = "<tr><td><font color=red>7</font></td><td>A<>B</td><td><i>buy</i></td><td>1</td><td>2</td><td>3</td><td>t &lt; u</td><td></td></tr>";
    let t = &parse_mt_html(html).unwrap()[0];
    assert_eq!(t.ticket, "7");
    assert_eq!(t.symbol, "A<>B");
    assert_eq!(t.trade_type, "long");
}

#[test]
fn html_statement_without_trades_is_an_error() {
    assert_eq!(parse_mt_html("<p>nothing</p>").unwrap_err(), "No valid trades found in HTML file");
}

#[test]
fn ticket_set_counts_each_ticket_once() {
    let mut s = TicketSet::new();
    assert!(s.is_empty());
    assert!(s.insert("1".to_string()));
    assert!(!s.insert("1".to_string()));
    assert!(s.insert("2".to_string()));
    assert_eq!(s.len(), 2);
    assert!(s.contains("2"));
    assert!(!s.contains("3"));
}

#[test]
fn duplicates_are_counted_once_per_ticket() {
    let new_tickets = vec!["5".to_string(), "5".to_string(), "6".to_string()];
    let mut existing = TicketSet::new();
    existing.insert("5".to_string());
    existing.insert("9".to_string());
    let d = find_duplicates(&new_tickets, &existing);
    assert_eq!(d.len(), 1);
    assert!(d.contains("5"));
    assert!(!d.contains("9"));
}

#[test]
fn summary_records_successes_and_failures() {
    let mut s = ImportSummary::new(3);
    s.record("11", Ok(()));
    s.record("12", Err("disk full".to_string()));
    s.record("13", Ok(()));
    assert_eq!(s.total_imported, 2);
    assert_eq!(s.duplicates_skipped, 3);
    assert_eq!(s.errors, vec!["خطا در وارد کردن معامله 12: disk full".to_string()]);
}
