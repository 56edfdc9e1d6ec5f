//! Reading MetaTrader 4/5 account statements (HTML or tab-separated text)
//! into trade records, and finding the tickets that are already known.
use vstd::prelude::*;
use crate::markup::{elements, find_elements, remove_tags, strip_tags};
use crate::number::{is_float, is_float_text};
use crate::ticket_set::TicketSet;
use crate::text::{
    chars_of, chars_view, contains, contains_text, lines_of, lowercase_of, replace, replace_all,
    split_at_char, split_lines, split_on, string_of, texts_view, trim, trimmed, strip_cr,
    is_white_space, lemma_lines_first, lemma_lines_end_last, lemma_lines_final_newline,
    lemma_split_push, lemma_trimmed_white_end,
};

verus! {

/// One trade of a statement.  The numeric columns keep the text of the cell
/// (with surrounding white space removed); every such text is accepted by
/// `str::parse::<f64>`, so turning it into a number cannot fail.
#[derive(Debug)]
pub struct MTTrade {
    pub ticket: String,
    pub symbol: String,
    /// `"long"` for a buy, `"short"` for a sell.
    pub trade_type: String,
    pub open_price: String,
    pub close_price: Option<String>,
    pub volume: String,
    pub open_time: String,
    pub close_time: Option<String>,
    pub stop_loss: Option<String>,
    pub take_profit: Option<String>,
    pub commission: Option<String>,
    pub swap: Option<String>,
    pub profit: Option<String>,
}

/// The mathematical value of an [`MTTrade`].
pub struct MTTradeView {
    pub ticket: Seq<char>,
    pub symbol: Seq<char>,
    pub trade_type: Seq<char>,
    pub open_price: Seq<char>,
    pub close_price: Option<Seq<char>>,
    pub volume: Seq<char>,
    pub open_time: Seq<char>,
    pub close_time: Option<Seq<char>>,
    pub stop_loss: Option<Seq<char>>,
    pub take_profit: Option<Seq<char>>,
    pub commission: Option<Seq<char>>,
    pub swap: Option<Seq<char>>,
    pub profit: Option<Seq<char>>,
}

/// The text of an optional string.
pub open spec fn opt_view(o: Option<String>) -> Option<Seq<char>> {
    match o {
        Some(s) => Some(s@),
        None => None,
    }
}

impl View for MTTrade {
    type V = MTTradeView;

    open spec fn view(&self) -> MTTradeView {
        MTTradeView {
            ticket: self.ticket@,
            symbol: self.symbol@,
            trade_type: self.trade_type@,
            open_price: self.open_price@,
            close_price: opt_view(self.close_price),
            volume: self.volume@,
            open_time: self.open_time@,
            close_time: opt_view(self.close_time),
            stop_loss: opt_view(self.stop_loss),
            take_profit: opt_view(self.take_profit),
            commission: opt_view(self.commission),
            swap: opt_view(self.swap),
            profit: opt_view(self.profit),
        }
    }
}

pub open spec fn trades_view(v: Seq<MTTrade>) -> Seq<MTTradeView> {
    v.map_values(|t: MTTrade| t@)
}

// ---------------------------------------------------------------------------
// One row
// ---------------------------------------------------------------------------

/// The trimmed text of cell `i` when it is a number, as the optional columns
/// (close price, stop loss, take profit, commission, swap, profit) read it.
pub open spec fn optional_number(cells: Seq<Seq<char>>, i: int) -> Option<Seq<char>> {
    if 0 <= i < cells.len() && is_float_text(trimmed(cells[i])) {
        Some(trimmed(cells[i]))
    } else {
        None
    }
}

/// What a row of cells gives, where `ticket_lower` and `type_lower` are the
/// lower-case forms of the trimmed first and third cells.
///
/// Columns: ticket, symbol, type, open price, close price, volume, open time,
/// close time, then optionally stop loss, take profit, commission, swap and
/// profit.
pub open spec fn row_outcome(
    cells: Seq<Seq<char>>,
    ticket_lower: Seq<char>,
    type_lower: Seq<char>,
) -> Result<MTTradeView, Seq<char>> {
    if cells.len() < 8 {
        Err("Insufficient cells in row"@)
    } else if trimmed(cells[0]).len() == 0 || contains_text(ticket_lower, "ticket"@) {
        Err("Invalid or header row"@)
    } else if !contains_text(type_lower, "buy"@) && !contains_text(type_lower, "sell"@) {
        Err("Invalid trade type"@)
    } else if !is_float_text(trimmed(cells[3])) {
        Err("Invalid open price"@)
    } else if !is_float_text(trimmed(cells[5])) {
        Err("Invalid volume"@)
    } else {
        Ok(
            MTTradeView {
                ticket: trimmed(cells[0]),
                symbol: trimmed(cells[1]),
                trade_type: if contains_text(type_lower, "buy"@) {
                    "long"@
                } else {
                    "short"@
                },
                open_price: trimmed(cells[3]),
                close_price: optional_number(cells, 4),
                volume: trimmed(cells[5]),
                open_time: trimmed(cells[6]),
                close_time: if trimmed(cells[7]).len() > 0 {
                    Some(trimmed(cells[7]))
                } else {
                    None
                },
                stop_loss: optional_number(cells, 8),
                take_profit: optional_number(cells, 9),
                commission: optional_number(cells, 10),
                swap: optional_number(cells, 11),
                profit: optional_number(cells, 12),
            },
        )
    }
}

/// What a row of cells gives.
pub open spec fn parse_row(cells: Seq<Seq<char>>) -> Result<MTTradeView, Seq<char>> {
    row_outcome(cells, lowercase_of(trimmed(cells[0])), lowercase_of(trimmed(cells[2])))
}

pub open spec fn row_result_view(r: Result<MTTrade, String>) -> Result<MTTradeView, Seq<char>> {
    match r {
        Ok(t) => Ok(t@),
        Err(e) => Err(e@),
    }
}

/// The trimmed characters of cell `i`.
fn trimmed_cell(cells: &[String], i: usize) -> (res: Vec<char>)
    requires
        i < cells@.len(),
    ensures
        res@ == trimmed(texts_view(cells@)[i as int]),
{
    trim(&chars_of(cells[i].as_str()))
}

/// The trimmed text of cell `i` when it is a number.
fn optional_number_at(cells: &[String], i: usize) -> (res: Option<String>)
    ensures
        opt_view(res) == optional_number(texts_view(cells@), i as int),
{
    if i < cells.len() {
        let t = trimmed_cell(cells, i);
        if is_float(&t) {
            return Some(string_of(&t));
        }
    }
    None
}

/// The trade a row describes, given the lower-case forms of its trimmed first
/// and third cells (which is where the row's ticket and type are read).
pub fn mt_trade_from_cells(cells: &[String], ticket_lower: &str, type_lower: &str) -> (res: Result<
    MTTrade,
    String,
>)
    ensures
        row_result_view(res) == row_outcome(texts_view(cells@), ticket_lower@, type_lower@),
{
    let ghost cs = texts_view(cells@);
    if cells.len() < 8 {
        return Err("Insufficient cells in row".to_string());
    }
    let ticket = trimmed_cell(cells, 0);
    if ticket.len() == 0 || contains(&chars_of(ticket_lower), &chars_of("ticket")) {
        return Err("Invalid or header row".to_string());
    }
    let kind = chars_of(type_lower);
    let is_buy = contains(&kind, &chars_of("buy"));
    let is_sell = contains(&kind, &chars_of("sell"));
    if !is_buy && !is_sell {
        return Err("Invalid trade type".to_string());
    }
    let open_price = trimmed_cell(cells, 3);
    if !is_float(&open_price) {
        return Err("Invalid open price".to_string());
    }
    let close_price = optional_number_at(cells, 4);
    let volume = trimmed_cell(cells, 5);
    if !is_float(&volume) {
        return Err("Invalid volume".to_string());
    }
    let open_time = trimmed_cell(cells, 6);
    let close_cell = trimmed_cell(cells, 7);
    let close_time = if close_cell.len() > 0 {
        Some(string_of(&close_cell))
    } else {
        None
    };
    let trade = MTTrade {
        ticket: string_of(&ticket),
        symbol: string_of(&trimmed_cell(cells, 1)),
        trade_type: if is_buy {
            "long".to_string()
        } else {
            "short".to_string()
        },
        open_price: string_of(&open_price),
        close_price,
        volume: string_of(&volume),
        open_time: string_of(&open_time),
        close_time,
        stop_loss: optional_number_at(cells, 8),
        take_profit: optional_number_at(cells, 9),
        commission: optional_number_at(cells, 10),
        swap: optional_number_at(cells, 11),
        profit: optional_number_at(cells, 12),
    };
    Ok(trade)
}

/// Reads one row of a statement.
///
/// Fails with "Insufficient cells in row" for fewer than 8 cells, with
/// "Invalid or header row" when the ticket is empty or mentions "ticket",
/// with "Invalid trade type" when the type mentions neither "buy" nor "sell",
/// and with "Invalid open price" or "Invalid volume" when those cells are not
/// numbers.
pub fn parse_mt_row(cells: &[String]) -> (res: Result<MTTrade, String>)
    ensures
        row_result_view(res) == parse_row(texts_view(cells@)),
{
    if cells.len() < 8 {
        return Err("Insufficient cells in row".to_string());
    }
    let ticket = string_of(&trimmed_cell(cells, 0));
    let ticket_lower = ticket.as_str().to_lowercase();
    let kind = string_of(&trimmed_cell(cells, 2));
    let type_lower = kind.as_str().to_lowercase();
    mt_trade_from_cells(cells, ticket_lower.as_str(), type_lower.as_str())
}

/// A trade read from a row always has a ticket, is `"long"` or `"short"`,
/// and every price, volume and amount it keeps is a number.
pub proof fn lemma_row_trade_well_formed(cells: Seq<Seq<char>>)
    ensures
        parse_row(cells) matches Ok(t) ==> {
            &&& t.ticket.len() > 0
            &&& (t.trade_type == "long"@ || t.trade_type == "short"@)
            &&& is_float_text(t.open_price)
            &&& is_float_text(t.volume)
            &&& (t.close_price matches Some(p) ==> is_float_text(p))
            &&& (t.stop_loss matches Some(p) ==> is_float_text(p))
            &&& (t.take_profit matches Some(p) ==> is_float_text(p))
            &&& (t.commission matches Some(p) ==> is_float_text(p))
            &&& (t.swap matches Some(p) ==> is_float_text(p))
            &&& (t.profit matches Some(p) ==> is_float_text(p))
        },
{
}

/// A trade read from a row keeps the row's trimmed cells: the ticket is the
/// first cell, the symbol the second, the open price the fourth, the volume
/// the sixth, the open time the seventh and the close time the eighth when it
/// is not empty; each optional amount is its cell when that is a number.
pub proof fn lemma_row_trade_cells(cells: Seq<Seq<char>>)
    ensures
        parse_row(cells) matches Ok(t) ==> {
            &&& cells.len() >= 8
            &&& t.ticket == trimmed(cells[0])
            &&& t.symbol == trimmed(cells[1])
            &&& t.open_price == trimmed(cells[3])
            &&& t.volume == trimmed(cells[5])
            &&& t.open_time == trimmed(cells[6])
            &&& (trimmed(cells[7]).len() > 0 ==> t.close_time == Some(trimmed(cells[7])))
            &&& (trimmed(cells[7]).len() == 0 ==> t.close_time is None)
            &&& (is_float_text(trimmed(cells[4])) ==> t.close_price == Some(trimmed(cells[4])))
            &&& (!is_float_text(trimmed(cells[4])) ==> t.close_price is None)
            &&& (cells.len() > 10 && is_float_text(trimmed(cells[10])) ==> t.commission == Some(
                trimmed(cells[10]),
            ))
            &&& (cells.len() > 12 && is_float_text(trimmed(cells[12])) ==> t.profit == Some(
                trimmed(cells[12]),
            ))
        },
{
}

/// The symbol cell is carried over and decides nothing else: putting another
/// text in it gives the same outcome, with the new cell, trimmed, as the
/// trade's symbol.
pub proof fn lemma_row_symbol_carried(cells: Seq<Seq<char>>, symbol: Seq<char>)
    requires
        cells.len() > 1,
    ensures
        parse_row(cells.update(1, symbol)) == match parse_row(cells) {
            Ok(t) => Ok(MTTradeView { symbol: trimmed(symbol), ..t }),
            Err(e) => Err(e),
        },
{
    let c2 = cells.update(1, symbol);
    assert(c2.len() == cells.len());
    assert forall|i: int| 0 <= i < cells.len() && i != 1 implies c2[i] == cells[i] by {}
    assert(c2[1] == symbol);
    if cells.len() >= 8 {
        assert(c2[0] == cells[0]);
        assert(c2[2] == cells[2]);
        assert(c2[3] == cells[3]);
        assert(c2[4] == cells[4]);
        assert(c2[5] == cells[5]);
        assert(c2[6] == cells[6]);
        assert(c2[7] == cells[7]);
        assert forall|i: int| i != 1 implies optional_number(c2, i) == optional_number(cells, i) by {
            if 0 <= i < cells.len() {
                assert(c2[i] == cells[i]);
            }
        }
    }
}

// ---------------------------------------------------------------------------
// Whole statements
// ---------------------------------------------------------------------------

/// The trades that the rows give, in order; rows that give none are skipped.
pub open spec fn collect_trades(rows: Seq<Seq<Seq<char>>>) -> Seq<MTTradeView>
    decreases rows.len(),
{
    if rows.len() == 0 {
        seq![]
    } else {
        let before = collect_trades(rows.drop_last());
        match parse_row(rows.last()) {
            Ok(t) => before.push(t),
            Err(_) => before,
        }
    }
}

/// Reading rows one part after another gives the trades of each part in
/// turn; a single row gives its trade, or nothing when it is refused.
pub proof fn lemma_collect_trades_append(r1: Seq<Seq<Seq<char>>>, r2: Seq<Seq<Seq<char>>>)
    ensures
        collect_trades(r1 + r2) == collect_trades(r1) + collect_trades(r2),
        r2.len() == 1 ==> collect_trades(r2) == match parse_row(r2[0]) {
            Ok(t) => seq![t],
            Err(_) => Seq::<MTTradeView>::empty(),
        },
    decreases r2.len(),
{
    if r2.len() == 0 {
        assert(r1 + r2 =~= r1);
        assert(collect_trades(r1) + collect_trades(r2) =~= collect_trades(r1));
    } else {
        lemma_collect_trades_append(r1, r2.drop_last());
        assert((r1 + r2).drop_last() =~= r1 + r2.drop_last());
        assert((r1 + r2).last() == r2.last());
        let a = collect_trades(r1);
        let b = collect_trades(r2.drop_last());
        match parse_row(r2.last()) {
            Ok(t) => {
                assert((a + b).push(t) =~= a + b.push(t));
            },
            Err(_) => {},
        }
        if r2.len() == 1 {
            assert(r2.drop_last() =~= Seq::<Seq<Seq<char>>>::empty());
            assert(r2.last() == r2[0]);
            match parse_row(r2[0]) {
                Ok(t) => {
                    assert(Seq::<MTTradeView>::empty().push(t) =~= seq![t]);
                },
                Err(_) => {},
            }
        }
    }
}

/// The trades, or `message` when there are none.
pub open spec fn trades_or(ts: Seq<MTTradeView>, message: Seq<char>) -> Result<
    Seq<MTTradeView>,
    Seq<char>,
> {
    if ts.len() == 0 {
        Err(message)
    } else {
        Ok(ts)
    }
}

pub open spec fn trades_result_view(r: Result<Vec<MTTrade>, String>) -> Result<
    Seq<MTTradeView>,
    Seq<char>,
> {
    match r {
        Ok(v) => Ok(trades_view(v@)),
        Err(e) => Err(e@),
    }
}

/// The rows of a tab-separated statement: every line after the first (the
/// header), split at tabs.
pub open spec fn tsv_rows(content: Seq<char>) -> Seq<Seq<Seq<char>>> {
    let ls = lines_of(content);
    if ls.len() == 0 {
        seq![]
    } else {
        ls.drop_first().map_values(|l: Seq<char>| split_on(l, '\t'))
    }
}

/// The rows of a tab-separated statement are the lines after the first line
/// feed, each split at tabs, whatever the header line holds.
pub proof fn lemma_tsv_rows_after_header(header: Seq<char>, body: Seq<char>)
    requires
        !header.contains('\n'),
    ensures
        tsv_rows(header + seq!['\n'] + body) == lines_of(body).map_values(
            |l: Seq<char>| split_on(l, '\t'),
        ),
{
    lemma_lines_first(header, body);
    let ls = seq![strip_cr(header)] + lines_of(body);
    assert(ls.drop_first() =~= lines_of(body));
}

/// A line feed at the end of a statement that does not end a line adds no
/// row and changes none.
pub proof fn lemma_tsv_final_newline(content: Seq<char>)
    requires
        content.len() > 0,
        content.last() != '\n',
        content.last() != '\r',
    ensures
        tsv_rows(content + seq!['\n']) == tsv_rows(content),
{
    lemma_lines_final_newline(content);
}

/// A white-space character added at the end of a cell changes nothing that
/// the row gives.
proof fn lemma_row_white_end(cells: Seq<Seq<char>>, i: int, w: char)
    requires
        0 <= i < cells.len(),
        is_white_space(w),
    ensures
        parse_row(cells.update(i, cells[i].push(w))) == parse_row(cells),
{
    let c2 = cells.update(i, cells[i].push(w));
    lemma_trimmed_white_end(cells[i], w);
    assert forall|j: int| 0 <= j < cells.len() implies trimmed(#[trigger] c2[j]) == trimmed(
        cells[j],
    ) by {}
    assert forall|j: int| #[trigger] optional_number(c2, j) == optional_number(cells, j) by {
        if 0 <= j < cells.len() {
            assert(trimmed(c2[j]) == trimmed(cells[j]));
        }
    }
    if cells.len() >= 8 {
        assert(trimmed(c2[0]) == trimmed(cells[0]));
        assert(trimmed(c2[1]) == trimmed(cells[1]));
        assert(trimmed(c2[2]) == trimmed(cells[2]));
        assert(trimmed(c2[3]) == trimmed(cells[3]));
        assert(trimmed(c2[5]) == trimmed(cells[5]));
        assert(trimmed(c2[6]) == trimmed(cells[6]));
        assert(trimmed(c2[7]) == trimmed(cells[7]));
    }
}

/// The trades read from a tab-separated statement do not depend on whether
/// its last line is ended by a line feed.
pub proof fn lemma_csv_trades_final_newline(content: Seq<char>)
    requires
        content.len() > 0,
        content.last() != '\n',
    ensures
        collect_trades(tsv_rows(content + seq!['\n'])) == collect_trades(tsv_rows(content)),
{
    lemma_lines_end_last(content);
    let ls = lines_of(content);
    let l = ls.last();
    if l.last() != '\r' {
        lemma_lines_final_newline(content);
    } else if ls.len() > 1 {
        let f = |x: Seq<char>| split_on(x, '\t');
        let ls2 = ls.drop_last().push(strip_cr(l));
        let rows = tsv_rows(content);
        let rows2 = tsv_rows(content + seq!['\n']);
        assert(rows =~= ls.drop_first().map_values(f));
        assert(rows2 =~= ls2.drop_first().map_values(f));
        assert(rows2.drop_last() =~= rows.drop_last());
        let m = l.drop_last();
        assert(m.push('\r') =~= l);
        assert(strip_cr(l) == m);
        lemma_split_push(m, '\t', '\r');
        let p = split_on(m, '\t');
        assert(rows.last() == split_on(l, '\t'));
        assert(rows2.last() == p);
        assert(split_on(l, '\t') == p.update(p.len() - 1, p.last().push('\r')));
        lemma_row_white_end(p, p.len() - 1, '\r');
    } else {
        assert(tsv_rows(content) =~= Seq::<Seq<Seq<char>>>::empty());
        assert(tsv_rows(content + seq!['\n']) =~= Seq::<Seq<Seq<char>>>::empty());
    }
}

/// The text of a table cell: `<br>` and `&nbsp;` become spaces, every
/// remaining tag is removed, and surrounding white space is trimmed.
pub open spec fn cell_text(v: Seq<char>) -> Seq<char> {
    trimmed(strip_tags(replace_all(replace_all(v, "<br>"@, " "@), "&nbsp;"@, " "@)))
}

/// The cells of an HTML table row.
pub open spec fn row_cells(row: Seq<char>) -> Seq<Seq<char>> {
    elements(row, "<td"@, "</td>"@).map_values(|v: Seq<char>| cell_text(v))
}

/// The rows of an HTML statement: the cells of each `<tr ...>...</tr>`
/// element, whose content may span lines.
pub open spec fn html_rows(html: Seq<char>) -> Seq<Seq<Seq<char>>> {
    elements(html, "<tr"@, "</tr>"@).map_values(|row: Seq<char>| row_cells(row))
}

/// Strings holding the given character sequences.
fn strings_of(v: &Vec<Vec<char>>) -> (res: Vec<String>)
    ensures
        texts_view(res@) == chars_view(v@),
{
    let mut out: Vec<String> = Vec::new();
    let mut i: usize = 0;
    while i < v.len()
        invariant
            i <= v.len(),
            out@.len() == i,
            texts_view(out@) == chars_view(v@).take(i as int),
        decreases v.len() - i,
    {
        let s = string_of(&v[i]);
        out.push(s);
        i = i + 1;
        assert(texts_view(out@) =~= chars_view(v@).take(i as int));
    }
    assert(chars_view(v@).take(v.len() as int) =~= chars_view(v@));
    out
}

/// Reads the trades of the given rows, skipping the rows that give none.
fn trades_of_rows(rows: &Vec<Vec<String>>) -> (res: Vec<MTTrade>)
    ensures
        trades_view(res@) == collect_trades(rows@.map_values(|r: Vec<String>| texts_view(r@))),
{
    let ghost all = rows@.map_values(|r: Vec<String>| texts_view(r@));
    let mut trades: Vec<MTTrade> = Vec::new();
    let mut i: usize = 0;
    while i < rows.len()
        invariant
            i <= rows.len(),
            all == rows@.map_values(|r: Vec<String>| texts_view(r@)),
            trades_view(trades@) == collect_trades(all.take(i as int)),
        decreases rows.len() - i,
    {
        let r = parse_mt_row(rows[i].as_slice());
        assert(all.take(i + 1).drop_last() =~= all.take(i as int));
        assert(all.take(i + 1).last() == texts_view(rows@[i as int]@));
        match r {
            Ok(t) => {
                let ghost before = trades@;
                trades.push(t);
                assert(trades_view(trades@) =~= trades_view(before).push(t@));
            },
            Err(_) => {},
        }
        i = i + 1;
    }
    assert(all.take(rows.len() as int) =~= all);
    trades
}

/// Reads an HTML statement from MetaTrader 4/5.
///
/// Every table row (`<tr ...>...</tr>`, which may span several lines) is split
/// into its cells (`<td ...>...</td>`, whose text is read as `cell_text` says); a row with at least 8 cells that reads as a trade
/// gives one.  Fails with "No valid trades found in HTML file" when no row does.
pub fn parse_mt_html(html_content: &str) -> (res: Result<Vec<MTTrade>, String>)
    ensures
        trades_result_view(res) == trades_or(
            collect_trades(html_rows(html_content@)),
            "No valid trades found in HTML file"@,
        ),
{
    proof {
        reveal_strlit("<br>");
        reveal_strlit("&nbsp;");
    }
    let html = chars_of(html_content);
    let found_rows = find_elements(&html, &chars_of("<tr"), &chars_of("</tr>"));
    let br = chars_of("<br>");
    let nbsp = chars_of("&nbsp;");
    let space = chars_of(" ");
    let mut rows: Vec<Vec<String>> = Vec::new();
    let mut i: usize = 0;
    while i < found_rows.len()
        invariant
            i <= found_rows.len(),
            rows@.len() == i,
            chars_view(found_rows@) == elements(html@, "<tr"@, "</tr>"@),
            br@ == "<br>"@,
            nbsp@ == "&nbsp;"@,
            space@ == " "@,
            br.len() > 0 && nbsp.len() > 0,
            rows@.map_values(|r: Vec<String>| texts_view(r@)) == html_rows(html@).take(i as int),
        decreases found_rows.len() - i,
    {
        let raw_cells = find_elements(&found_rows[i], &chars_of("<td"), &chars_of("</td>"));
        let mut cells: Vec<String> = Vec::new();
        let mut j: usize = 0;
        let ghost row = chars_view(found_rows@)[i as int];
        assert(found_rows[i as int]@ =~= row);
        while j < raw_cells.len()
            invariant
                j <= raw_cells.len(),
                cells@.len() == j,
                chars_view(raw_cells@) == elements(row, "<td"@, "</td>"@),
                br@ == "<br>"@,
                nbsp@ == "&nbsp;"@,
                    space@ == " "@,
                    br.len() > 0 && nbsp.len() > 0,
                texts_view(cells@) == row_cells(row).take(j as int),
            decreases raw_cells.len() - j,
        {
            assert(raw_cells[j as int]@ =~= chars_view(raw_cells@)[j as int]);
            let a = replace(&raw_cells[j], &br, &space);
            let b = replace(&a, &nbsp, &space);
            let c = remove_tags(&b);
            let text = string_of(&trim(&c));
            cells.push(text);
            j = j + 1;
            assert(texts_view(cells@) =~= row_cells(row).take(j as int));
        }
        assert(row_cells(row).take(raw_cells.len() as int) =~= row_cells(row));
        let ghost before = rows@.map_values(|r: Vec<String>| texts_view(r@));
        rows.push(cells);
        i = i + 1;
        assert(rows@.map_values(|r: Vec<String>| texts_view(r@)) =~= html_rows(html@).take(
            i as int,
        ));
    }
    assert(html_rows(html@).take(found_rows.len() as int) =~= html_rows(html@));
    let trades = trades_of_rows(&rows);
    if trades.len() == 0 {
        return Err("No valid trades found in HTML file".to_string());
    }
    Ok(trades)
}

/// Reads a tab-separated statement from MetaTrader 4/5.
///
/// The first line is a header; every later line is split at tabs, and a line
/// with at least 8 cells that reads as a trade gives one.  Fails with
/// "No valid trades found in CSV file" when no line does.
pub fn parse_mt_csv(csv_content: &str) -> (res: Result<Vec<MTTrade>, String>)
    ensures
        trades_result_view(res) == trades_or(
            collect_trades(tsv_rows(csv_content@)),
            "No valid trades found in CSV file"@,
        ),
{
    let text = chars_of(csv_content);
    let lines = split_lines(&text);
    let mut rows: Vec<Vec<String>> = Vec::new();
    let ghost ls = lines_of(text@);
    assert(ls.len() == lines@.len());
    if lines.len() > 0 {
        let mut i: usize = 1;
        while i < lines.len()
            invariant
                1 <= i <= lines.len(),
                rows@.len() == i - 1,
                chars_view(lines@) == ls,
                ls == lines_of(text@),
                ls.len() == lines@.len(),
                ls.len() > 0,
                rows@.map_values(|r: Vec<String>| texts_view(r@)) == tsv_rows(text@).take(i - 1),
            decreases lines.len() - i,
        {
            assert(lines[i as int]@ =~= ls[i as int]);
            let cells = strings_of(&split_at_char(&lines[i], '\t'));
            let ghost cv = texts_view(cells@);
            let ghost before = rows@.map_values(|r: Vec<String>| texts_view(r@));
            rows.push(cells);
            assert(ls.drop_first()[i - 1] == ls[i as int]);
            assert(tsv_rows(text@)[i - 1] == split_on(ls[i as int], '\t'));
            assert(texts_view(rows@[i - 1]@) == cv);
            i = i + 1;
            assert(rows@.map_values(|r: Vec<String>| texts_view(r@)) =~= tsv_rows(text@).take(
                i - 1,
            ));
        }
        assert(tsv_rows(text@).take(lines.len() - 1) =~= tsv_rows(text@));
    } else {
        assert(rows@.map_values(|r: Vec<String>| texts_view(r@)) =~= tsv_rows(text@));
    }
    let trades = trades_of_rows(&rows);
    if trades.len() == 0 {
        return Err("No valid trades found in CSV file".to_string());
    }
    Ok(trades)
}

// ---------------------------------------------------------------------------
// Duplicates and the summary of an import
// ---------------------------------------------------------------------------

/// Finds the tickets of `tickets` that are already in `existing_tickets`.
pub fn find_duplicates(tickets: &[String], existing_tickets: &TicketSet) -> (res: TicketSet)
    ensures
        res@ == texts_view(tickets@).to_set().intersect(existing_tickets@),
{
    let mut res = TicketSet::new();
    let mut i: usize = 0;
    while i < tickets.len()
        invariant
            i <= tickets@.len(),
            res@ == texts_view(tickets@).take(i as int).to_set().intersect(existing_tickets@),
        decreases tickets@.len() - i,
    {
        let ghost before = texts_view(tickets@).take(i as int);
        let ghost t = tickets@[i as int]@;
        assert(texts_view(tickets@).take(i + 1) =~= before.push(t));
        proof {
            before.lemma_push_to_set_commute(t);
        }
        if existing_tickets.contains(tickets[i].as_str()) {
            res.insert(tickets[i].clone());
        }
        i = i + 1;
        assert(res@ =~= texts_view(tickets@).take(i as int).to_set().intersect(existing_tickets@));
    }
    assert(texts_view(tickets@).take(tickets@.len() as int) =~= texts_view(tickets@));
    res
}

/// What an import did: how many trades were stored, how many tickets were
/// already known, and a message for each trade that could not be stored.
#[derive(Debug)]
pub struct ImportSummary {
    pub total_imported: usize,
    pub duplicates_skipped: usize,
    pub errors: Vec<String>,
}

impl ImportSummary {
    /// The summary before any trade is stored.
    pub fn new(duplicates_skipped: usize) -> (res: ImportSummary)
        ensures
            res.total_imported == 0,
            res.duplicates_skipped == duplicates_skipped,
            res.errors@.len() == 0,
    {
        ImportSummary { total_imported: 0, duplicates_skipped, errors: Vec::new() }
    }

    /// Records how storing the trade with `ticket` went: a success counts as
    /// imported, a failure adds the message
    /// "خطا در وارد کردن معامله {ticket}: {reason}".
    pub fn record(&mut self, ticket: &str, outcome: Result<(), String>)
        requires
            old(self).total_imported < usize::MAX,
        ensures
            final(self).duplicates_skipped == old(self).duplicates_skipped,
            match outcome {
                Ok(()) => {
                    &&& final(self).total_imported == old(self).total_imported + 1
                    &&& final(self).errors@ == old(self).errors@
                },
                Err(reason) => {
                    &&& final(self).total_imported == old(self).total_imported
                    &&& final(self).errors@.len() == old(self).errors@.len() + 1
                    &&& final(self).errors@.take(old(self).errors@.len() as int)
                        == old(self).errors@
                    &&& final(self).errors@.last()@ == "خطا در وارد کردن معامله "@ + ticket@
                        + ": "@ + reason@
                },
            },
    {
        match outcome {
            Ok(()) => {
                self.total_imported = self.total_imported + 1;
            },
            Err(reason) => {
                let mut message = "خطا در وارد کردن معامله ".to_string();
                message.append(ticket);
                message.append(": ");
                message.append(reason.as_str());
                let ghost before = self.errors@;
                self.errors.push(message);
                assert(self.errors@.take(before.len() as int) =~= before);
            },
        }
    }
}

} // verus!
