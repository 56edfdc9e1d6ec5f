//! The statement readers compared with a direct implementation over the
//! `regex` crate and `str::parse::<f64>`.
use trade_journal::mt_import::{parse_mt_csv, parse_mt_html, MTTrade};

#[derive(Debug, PartialEq)]
struct Row {
    ticket: String,
    symbol: String,
    trade_type: String,
    open_price: f64,
    close_price: Option<f64>,
    volume: f64,
    open_time: String,
    close_time: Option<String>,
    extra: Vec<Option<f64>>,
}

fn reference_row(cells: &[String]) -> Option<Row> {
    if cells.len() < 8 {
        return None;
    }
    let ticket = cells[0].trim().to_string();
    if ticket.is_empty() || ticket.to_lowercase().contains("ticket") {
        return None;
    }
    let trade_type = cells[2].trim().to_lowercase();
    if !trade_type.contains("buy") && !trade_type.contains("sell") {
        return None;
    }
    let open_price: f64 = cells[3].trim().parse().ok()?;
    let close_price: Option<f64> = cells[4].trim().parse().ok();
    let volume: f64 = cells[5].trim().parse().ok()?;
    let close_time = if !cells[7].trim().is_empty() { Some(cells[7].trim().to_string()) } else { None };
    let extra = (8..13).map(|i| cells.get(i).and_then(|s| s.trim().parse().ok())).collect();
    Some(Row {
        ticket,
        symbol: cells[1].trim().to_string(),
        trade_type: if trade_type.contains("buy") { "long".to_string() } else { "short".to_string() },
        open_price,
        close_price,
        volume,
        open_time: cells[6].trim().to_string(),
        close_time,
        extra,
    })
}

fn number(t: &str) -> f64 {
    t.parse().unwrap()
}

fn row_of(t: &MTTrade) -> Row {
    Row {
        ticket: t.ticket.clone(),
        symbol: t.symbol.clone(),
        trade_type: t.trade_type.clone(),
        open_price: number(&t.open_price),
        close_price: t.close_price.as_deref().map(number),
        volume: number(&t.volume),
        open_time: t.open_time.clone(),
        close_time: t.close_time.clone(),
        extra: [&t.stop_loss, &t.take_profit, &t.commission, &t.swap, &t.profit]
            .iter()
            .map(|o| o.as_deref().map(number))
            .collect(),
    }
}

fn reference_html(html: &str) -> Vec<Row> {
    let row_pattern = regex::Regex::new(r#"(?s)<tr[^>]*>(.*?)</tr>"#).unwrap();
    let cell_pattern = regex::Regex::new(r#"(?s)<td[^>]*>(.*?)</td>"#).unwrap();
    let tag_pattern = regex::Regex::new("<[^>]+>").unwrap();
    let mut rows = Vec::new();
    for row_match in row_pattern.captures_iter(html) {
        let cells: Vec<String> = cell_pattern
            .captures_iter(&row_match[1])
            .map(|m| {
                let text = m[1].to_string().replace("<br>", " ").replace("&nbsp;", " ");
                tag_pattern.replace_all(&text, "").trim().to_string()
            })
            .collect();
        if let Some(r) = reference_row(&cells) {
            rows.push(r);
        }
    }
    rows
}

fn reference_csv(content: &str) -> Vec<Row> {
    let mut lines = content.lines();
    lines.next();
    lines
        .filter_map(|line| {
            let cells: Vec<String> = line.split('\t').map(|s| s.to_string()).collect();
            reference_row(&cells)
        })
        .collect()
}

const HTML: &str = "<html><body><table>\n\
<tr align=left><td colspan=13><b>Closed Transactions:</b></td></tr>\n\
<tr bgcolor=\"#C0C0C0\"><td>Ticket</td><td>Open Time</td><td>Type</td><td>Size</td><td>Item</td><td>Price</td><td>S / L</td><td>T / P</td></tr>\n\
<tr><td><b>123456</b></td><td>EURUSD</td><td>buy</td><td>1.0850</td><td>1.0900</td><td>1.0</td><td>2024-01-15 10:30:00</td><td>2024-01-15 11:00:00</td><td>1.0800</td><td>1.0950</td><td>10.0</td><td>0.0</td><td>50.0</td></tr>\n\
<tr class=odd><td> 123457 </td><td>GBPUSD</td><td>SELL</td><td>1.2650</td><td>&nbsp;</td><td>0.5</td><td>2024-01-15&nbsp;14:00:00</td><td></td><td>-</td><td>1.25<br></td></tr>\n\
<tr><td>123458</td><td>XAUUSD</td><td>balance</td><td>0</td><td>0</td><td>0</td><td>t</td><td>t</td></tr>\n\
<tr><td>123459</td><td>USDJPY</td><td>buy limit</td><td>150</td><td>151</td><td>2</td><td>a</td><td>b</td></tr><tr><td>123460</td><td>USDCHF</td><td>sell</td><td>inf</td><td>nan</td><td>1e2</td><td>a</td><td>b</td></tr>\n\
<tr><td>123461</td><td>AUDUSD</td><td>buy</td><td>0.66</td>\n<td>0.67</td><td>1</td><td>a</td><td>b</td></tr>\n\
</table></body></html>";

#[test]
fn html_statement_matches_reference() {
    let ours: Vec<Row> = parse_mt_html(HTML).unwrap().iter().map(row_of).collect();
    let reference = reference_html(HTML);
    assert_eq!(reference.len(), 5);
    assert_eq!(ours.len(), reference.len());
    for (a, b) in ours.iter().zip(reference.iter()) {
        assert_eq!(a.ticket, b.ticket);
        assert_eq!(a.symbol, b.symbol);
        assert_eq!(a.trade_type, b.trade_type);
        assert_eq!(a.open_time, b.open_time);
        assert_eq!(a.close_time, b.close_time);
        assert_eq!(format!("{:?}", a), format!("{:?}", b));
    }
}

#[test]
fn csv_statement_matches_reference() {
    let csv = "Ticket\tSymbol\tType\tOpen Price\tClose Price\tVolume\tOpen Time\tClose Time\tStop Loss\tTake Profit\tCommission\tSwap\tProfit\r\n\
123456\tEURUSD\tbuy\t1.0850\t1.0900\t1.0\t2024-01-15 10:30:00\t2024-01-15 11:00:00\t1.0800\t1.0950\t10.0\t0.0\t50.0\r\n\
\r\n\
123457\tGBPUSD\tsell\t1.2650\t\t0.5\t2024-01-15 14:00:00\t\t\t\t-2\r\n\
ticket\tx\tbuy\t1\t1\t1\tt\tt\n\
123458\tGBPUSD\tsell stop\t+1.5\t.5\t5.\t t \t u \t1E3\n";
    let ours: Vec<Row> = parse_mt_csv(csv).unwrap().iter().map(row_of).collect();
    let reference = reference_csv(csv);
    assert_eq!(reference.len(), 3);
    assert_eq!(format!("{:?}", ours), format!("{:?}", reference));
}
