//! Deciding what an import of a MetaTrader statement stores.
//!
//! The caller reads the file and the journal, hands the texts to this module,
//! stores each planned trade and reports each outcome to an
//! [`ImportSummary`](crate::mt_import::ImportSummary).
use vstd::prelude::*;
use crate::mt_import::{
    collect_trades, find_duplicates, html_rows, opt_view, parse_mt_csv, parse_mt_html,
    trades_or, trades_result_view, trades_view, tsv_rows, MTTrade, MTTradeView,
};
use crate::text::{
    chars_of, copy_range, ends_with, first_word, first_word_of, matches_at, starts_with,
    string_of, texts_view,
};
use crate::ticket_set::TicketSet;

verus! {

/// The statement formats that can be imported.
#[derive(Debug, Clone, Copy, PartialEq, Eq, Structural)]
pub enum StatementFormat {
    Html,
    Csv,
}

/// The message for a file that is neither `.html` nor `.csv`.
pub open spec fn unsupported_format_message() -> Seq<char> {
    "فرمت فایل پشتیبانی نمی‌شود. لطفاً HTML یا CSV استفاده کنید."@
}

/// The format a statement's file name selects: `.html` before `.csv`.
pub open spec fn format_of(path: Seq<char>) -> Result<StatementFormat, Seq<char>> {
    if ends_with(path, ".html"@) {
        Ok(StatementFormat::Html)
    } else if ends_with(path, ".csv"@) {
        Ok(StatementFormat::Csv)
    } else {
        Err(unsupported_format_message())
    }
}

/// Any file name ending in `.html` selects the HTML reader and any ending in
/// `.csv` the tab-separated one.
pub proof fn lemma_format_by_extension(name: Seq<char>)
    ensures
        format_of(name + ".html"@) == Ok::<StatementFormat, Seq<char>>(StatementFormat::Html),
        format_of(name + ".csv"@) == Ok::<StatementFormat, Seq<char>>(StatementFormat::Csv),
{
    reveal_strlit(".html");
    reveal_strlit(".csv");
    let h = name + ".html"@;
    let c = name + ".csv"@;
    assert(h.subrange(h.len() - 5, h.len() as int) =~= ".html"@);
    assert(c.subrange(c.len() - 4, c.len() as int) =~= ".csv"@);
    if c.len() >= 5 {
        assert(c.subrange(c.len() - 5, c.len() as int)[4] == 'v');
        assert(".html"@[4] == 'l');
    }
}

fn ends_with_text(s: &Vec<char>, p: &Vec<char>) -> (res: bool)
    ensures
        res == ends_with(s@, p@),
{
    if p.len() > s.len() {
        return false;
    }
    matches_at(s, p, s.len() - p.len())
}

/// The format a statement's file name selects.
pub fn statement_format(file_path: &str) -> (res: Result<StatementFormat, String>)
    ensures
        match res {
            Ok(f) => format_of(file_path@) == Ok::<StatementFormat, Seq<char>>(f),
            Err(e) => format_of(file_path@) == Err::<StatementFormat, Seq<char>>(e@),
        },
{
    let path = chars_of(file_path);
    if ends_with_text(&path, &chars_of(".html")) {
        Ok(StatementFormat::Html)
    } else if ends_with_text(&path, &chars_of(".csv")) {
        Ok(StatementFormat::Csv)
    } else {
        Err("فرمت فایل پشتیبانی نمی‌شود. لطفاً HTML یا CSV استفاده کنید.".to_string())
    }
}

/// What a statement file gives: its trades read in the format its name selects.
pub open spec fn statement_trades(path: Seq<char>, content: Seq<char>) -> Result<
    Seq<MTTradeView>,
    Seq<char>,
> {
    match format_of(path) {
        Ok(StatementFormat::Html) => trades_or(
            collect_trades(html_rows(content)),
            "No valid trades found in HTML file"@,
        ),
        Ok(StatementFormat::Csv) => trades_or(
            collect_trades(tsv_rows(content)),
            "No valid trades found in CSV file"@,
        ),
        Err(e) => Err(e),
    }
}

/// Reads the trades of a statement whose file is named `file_path`.
pub fn parse_mt_statement(file_path: &str, content: &str) -> (res: Result<Vec<MTTrade>, String>)
    ensures
        trades_result_view(res) == statement_trades(file_path@, content@),
{
    match statement_format(file_path) {
        Ok(StatementFormat::Html) => parse_mt_html(content),
        Ok(StatementFormat::Csv) => parse_mt_csv(content),
        Err(e) => Err(e),
    }
}

// ---------------------------------------------------------------------------
// Tickets already in the journal
// ---------------------------------------------------------------------------

/// The ticket a journal note records: imported trades carry the note
/// `MT:{ticket}`.
pub open spec fn note_ticket(note: Seq<char>) -> Option<Seq<char>> {
    if starts_with(note, "MT:"@) {
        Some(note.skip(3))
    } else {
        None
    }
}

/// The ticket a journal note records, if it records one.
pub fn ticket_from_note(note: &str) -> (res: Option<String>)
    ensures
        opt_view(res) == note_ticket(note@),
{
    proof {
        reveal_strlit("MT:");
    }
    let n = chars_of(note);
    if matches_at(&n, &chars_of("MT:"), 0) {
        let rest = copy_range(&n, 3, n.len());
        assert(rest@ =~= n@.skip(3));
        Some(string_of(&rest))
    } else {
        None
    }
}

/// What an import reads of a trade already in the journal.
#[derive(Debug)]
pub struct StoredTrade {
    /// 1 for a trade that an import stored.
    pub imported_from_mt: i64,
    pub notes: Option<String>,
}

/// The ticket a stored trade was imported from: only imported trades (flag 1)
/// count, and their note records the ticket.
pub open spec fn stored_ticket(t: StoredTrade) -> Option<Seq<char>> {
    if t.imported_from_mt == 1 {
        match t.notes {
            Some(n) => note_ticket(n@),
            None => None,
        }
    } else {
        None
    }
}

/// The tickets that a list of stored trades was imported from.
pub open spec fn stored_tickets(trades: Seq<StoredTrade>) -> Set<Seq<char>> {
    Set::new(
        |t: Seq<char>|
            exists|i: int| 0 <= i < trades.len() && #[trigger] stored_ticket(trades[i]) == Some(t),
    )
}

/// Adding a stored trade adds at most its own ticket.
proof fn lemma_stored_tickets_push(prefix: Seq<StoredTrade>, x: StoredTrade)
    ensures
        stored_tickets(prefix.push(x)) == match stored_ticket(x) {
            Some(t) => stored_tickets(prefix).insert(t),
            None => stored_tickets(prefix),
        },
{
    let next = prefix.push(x);
    let expected = match stored_ticket(x) {
        Some(t) => stored_tickets(prefix).insert(t),
        None => stored_tickets(prefix),
    };
    assert forall|y: Seq<char>| #![trigger expected.contains(y)]
        expected.contains(y) <==> stored_tickets(next).contains(y) by {
        if stored_tickets(next).contains(y) {
            let k = choose|k: int| 0 <= k < next.len() && #[trigger] stored_ticket(next[k]) == Some(y);
            if k < prefix.len() {
                assert(prefix[k] == next[k]);
                assert(stored_tickets(prefix).contains(y));
            }
        }
        if stored_tickets(prefix).contains(y) {
            let k = choose|k: int| 0 <= k < prefix.len() && #[trigger] stored_ticket(prefix[k]) == Some(y);
            assert(next[k] == prefix[k]);
        }
        if stored_ticket(x) == Some(y) {
            assert(next[prefix.len() as int] == x);
        }
    }
    assert(expected =~= stored_tickets(next));
}

/// The tickets of the trades already imported, read from their notes.
pub fn existing_mt_tickets(trades: &Vec<StoredTrade>) -> (res: TicketSet)
    ensures
        res@ == stored_tickets(trades@),
{
    let mut res = TicketSet::new();
    let mut i: usize = 0;
    while i < trades.len()
        invariant
            i <= trades@.len(),
            res@ == stored_tickets(trades@.take(i as int)),
        decreases trades@.len() - i,
    {
        let ghost prefix = trades@.take(i as int);
        let ghost next = trades@.take(i + 1);
        assert(next =~= prefix.push(trades@[i as int]));
        let found = if trades[i].imported_from_mt == 1 {
            match &trades[i].notes {
                Some(n) => ticket_from_note(n.as_str()),
                None => None,
            }
        } else {
            None
        };
        assert(opt_view(found) == stored_ticket(trades@[i as int]));
        match found {
            Some(t) => {
                res.insert(t);
            },
            None => {},
        }
        proof {
            lemma_stored_tickets_push(prefix, trades@[i as int]);
        }
        i = i + 1;
    }
    assert(trades@.take(trades@.len() as int) =~= trades@);
    res
}

// ---------------------------------------------------------------------------
// The trades to store
// ---------------------------------------------------------------------------

/// The journal entry a statement trade becomes, without its numbers turned
/// into floating point: the entry date is the first word of the open time,
/// the exit date the first word of the close time, the volume is the
/// position size, the commission the fees, the plan counts as followed, and
/// the entry is flagged as imported with the note `MT:{ticket}`.
#[derive(Debug)]
pub struct TradeDraft {
    pub ticket: String,
    pub symbol: String,
    pub direction: String,
    pub entry_date: String,
    pub entry_time: String,
    pub exit_date: Option<String>,
    pub exit_time: Option<String>,
    pub entry_price: String,
    pub exit_price: Option<String>,
    pub stop_loss: Option<String>,
    pub take_profit: Option<String>,
    pub position_size: String,
    pub fees: Option<String>,
    pub notes: String,
    pub followed_plan: bool,
    pub imported_from_mt: bool,
}

/// The mathematical value of a [`TradeDraft`].
pub struct TradeDraftView {
    pub ticket: Seq<char>,
    pub symbol: Seq<char>,
    pub direction: Seq<char>,
    pub entry_date: Seq<char>,
    pub entry_time: Seq<char>,
    pub exit_date: Option<Seq<char>>,
    pub exit_time: Option<Seq<char>>,
    pub entry_price: Seq<char>,
    pub exit_price: Option<Seq<char>>,
    pub stop_loss: Option<Seq<char>>,
    pub take_profit: Option<Seq<char>>,
    pub position_size: Seq<char>,
    pub fees: Option<Seq<char>>,
    pub notes: Seq<char>,
    pub followed_plan: bool,
    pub imported_from_mt: bool,
}

impl View for TradeDraft {
    type V = TradeDraftView;

    open spec fn view(&self) -> TradeDraftView {
        TradeDraftView {
            ticket: self.ticket@,
            symbol: self.symbol@,
            direction: self.direction@,
            entry_date: self.entry_date@,
            entry_time: self.entry_time@,
            exit_date: opt_view(self.exit_date),
            exit_time: opt_view(self.exit_time),
            entry_price: self.entry_price@,
            exit_price: opt_view(self.exit_price),
            stop_loss: opt_view(self.stop_loss),
            take_profit: opt_view(self.take_profit),
            position_size: self.position_size@,
            fees: opt_view(self.fees),
            notes: self.notes@,
            followed_plan: self.followed_plan,
            imported_from_mt: self.imported_from_mt,
        }
    }
}

/// The journal entry that a statement trade becomes.
pub open spec fn draft_of(t: MTTradeView) -> TradeDraftView {
    TradeDraftView {
        ticket: t.ticket,
        symbol: t.symbol,
        direction: t.trade_type,
        entry_date: first_word(t.open_time),
        entry_time: t.open_time,
        exit_date: match t.close_time {
            Some(c) => Some(first_word(c)),
            None => None,
        },
        exit_time: t.close_time,
        entry_price: t.open_price,
        exit_price: t.close_price,
        stop_loss: t.stop_loss,
        take_profit: t.take_profit,
        position_size: t.volume,
        fees: t.commission,
        notes: "MT:"@ + t.ticket,
        followed_plan: true,
        imported_from_mt: true,
    }
}

fn clone_text(o: &Option<String>) -> (res: Option<String>)
    ensures
        opt_view(res) == opt_view(*o),
{
    match o {
        Some(s) => Some(s.clone()),
        None => None,
    }
}

/// The journal entry that a statement trade becomes.
pub fn draft_from(t: &MTTrade) -> (res: TradeDraft)
    ensures
        res@ == draft_of(t@),
{
    let exit_date = match &t.close_time {
        Some(c) => Some(string_of(&first_word_of(&chars_of(c.as_str())))),
        None => None,
    };
    let mut notes = "MT:".to_string();
    notes.append(t.ticket.as_str());
    TradeDraft {
        ticket: t.ticket.clone(),
        symbol: t.symbol.clone(),
        direction: t.trade_type.clone(),
        entry_date: string_of(&first_word_of(&chars_of(t.open_time.as_str()))),
        entry_time: t.open_time.clone(),
        exit_date,
        exit_time: clone_text(&t.close_time),
        entry_price: t.open_price.clone(),
        exit_price: clone_text(&t.close_price),
        stop_loss: clone_text(&t.stop_loss),
        take_profit: clone_text(&t.take_profit),
        position_size: t.volume.clone(),
        fees: clone_text(&t.commission),
        notes,
        followed_plan: true,
        imported_from_mt: true,
    }
}

/// The entries to store for `trades`, in order: one for each trade whose
/// ticket is not in `existing`.
pub open spec fn planned_drafts(trades: Seq<MTTradeView>, existing: Set<Seq<char>>) -> Seq<
    TradeDraftView,
>
    decreases trades.len(),
{
    if trades.len() == 0 {
        seq![]
    } else {
        let before = planned_drafts(trades.drop_last(), existing);
        if existing.contains(trades.last().ticket) {
            before
        } else {
            before.push(draft_of(trades.last()))
        }
    }
}

/// The tickets of a list of trades.
pub open spec fn tickets_of(trades: Seq<MTTradeView>) -> Seq<Seq<char>> {
    trades.map_values(|t: MTTradeView| t.ticket)
}

/// What an import stores, which of its tickets were already known, and how
/// many of its trades are skipped for that reason.
pub struct ImportPlan {
    pub drafts: Vec<TradeDraft>,
    pub duplicates: TicketSet,
    pub skipped: usize,
}

pub open spec fn drafts_view(v: Seq<TradeDraft>) -> Seq<TradeDraftView> {
    v.map_values(|d: TradeDraft| d@)
}

/// Plans the import of `trades` into a journal that already holds the
/// tickets `existing`: the duplicates are the tickets of `trades` that are
/// in `existing`, every trade whose ticket is not a duplicate becomes an
/// entry, and every other trade is counted as skipped.
pub fn plan_import(trades: &Vec<MTTrade>, existing: &TicketSet) -> (res: ImportPlan)
    ensures
        res.duplicates@ == tickets_of(trades_view(trades@)).to_set().intersect(existing@),
        drafts_view(res.drafts@) == planned_drafts(trades_view(trades@), existing@),
        res.skipped + res.drafts@.len() == trades@.len(),
{
    let mut tickets: Vec<String> = Vec::new();
    let mut i: usize = 0;
    while i < trades.len()
        invariant
            i <= trades@.len(),
            tickets@.len() == i,
            texts_view(tickets@) == tickets_of(trades_view(trades@)).take(i as int),
        decreases trades@.len() - i,
    {
        tickets.push(trades[i].ticket.clone());
        i = i + 1;
        assert(texts_view(tickets@) =~= tickets_of(trades_view(trades@)).take(i as int));
    }
    assert(tickets_of(trades_view(trades@)).take(trades@.len() as int) =~= tickets_of(
        trades_view(trades@),
    ));
    let duplicates = find_duplicates(tickets.as_slice(), existing);
    let ghost all = trades_view(trades@);
    let mut drafts: Vec<TradeDraft> = Vec::new();
    let mut skipped: usize = 0;
    let mut j: usize = 0;
    while j < trades.len()
        invariant
            j <= trades@.len(),
            all == trades_view(trades@),
            duplicates@ == tickets_of(all).to_set().intersect(existing@),
            drafts_view(drafts@) == planned_drafts(all.take(j as int), existing@),
            skipped + drafts@.len() == j,
        decreases trades@.len() - j,
    {
        let t = &trades[j];
        assert(all.take(j + 1).drop_last() =~= all.take(j as int));
        assert(all.take(j + 1).last() == t@);
        assert(tickets_of(all)[j as int] == t.ticket@);
        assert(tickets_of(all).to_set().contains(t.ticket@));
        if !duplicates.contains(t.ticket.as_str()) {
            let d = draft_from(t);
            let ghost before = drafts@;
            drafts.push(d);
            assert(drafts_view(drafts@) =~= drafts_view(before).push(d@));
        } else {
            skipped = skipped + 1;
        }
        j = j + 1;
    }
    assert(all.take(trades@.len() as int) =~= all);
    ImportPlan { drafts, duplicates, skipped }
}

// ---------------------------------------------------------------------------
// Laws of an import
// ---------------------------------------------------------------------------

/// The note `MT:{ticket}` gives back its ticket.
pub proof fn lemma_note_of_ticket(ticket: Seq<char>)
    ensures
        note_ticket("MT:"@ + ticket) == Some(ticket),
{
    reveal_strlit("MT:");
    let note = "MT:"@ + ticket;
    assert(note.subrange(0, 3) =~= "MT:"@);
    assert(note.skip(3) =~= ticket);
}

/// The note written on an imported entry gives back the ticket it was
/// imported from, so that once the entry is stored (flagged as imported, with
/// that note) the next import recognises its ticket.
pub proof fn lemma_stored_draft_records_ticket(t: MTTradeView, stored: StoredTrade)
    requires
        stored.imported_from_mt == 1,
        opt_view(stored.notes) == Some(draft_of(t).notes),
    ensures
        note_ticket(draft_of(t).notes) == Some(t.ticket),
        stored_ticket(stored) == Some(t.ticket),
{
    lemma_note_of_ticket(t.ticket);
}

/// Every planned entry comes from a trade of the statement whose ticket is
/// not yet in the journal, and every such trade is planned: the number of
/// entries is the number of trades with a new ticket.
pub proof fn lemma_plan_takes_new_tickets(trades: Seq<MTTradeView>, existing: Set<Seq<char>>)
    ensures
        forall|i: int|
            0 <= i < planned_drafts(trades, existing).len() ==> !existing.contains(
                #[trigger] planned_drafts(trades, existing)[i].ticket,
            ),
        planned_drafts(trades, existing).len() == trades.filter(
            |t: MTTradeView| !existing.contains(t.ticket),
        ).len(),
    decreases trades.len(),
{
    let keep = |t: MTTradeView| !existing.contains(t.ticket);
    if trades.len() > 0 {
        lemma_plan_takes_new_tickets(trades.drop_last(), existing);
        assert(trades =~= trades.drop_last().push(trades.last()));
        trades.drop_last().lemma_filter_push(trades.last(), keep);
        reveal_with_fuel(Seq::filter, 1);
    } else {
        reveal_with_fuel(Seq::filter, 1);
        assert(trades.filter(keep) =~= Seq::<MTTradeView>::empty());
    }
}

/// A statement trade becomes a journal entry that keeps its ticket, symbol,
/// direction, prices, size, stops, commission and times: the entry price is
/// the open price and the exit price the close price; the entry is flagged
/// as imported, counts as following the plan, and is closed exactly when the
/// trade has a close time.
pub proof fn lemma_draft_carries_trade(t: MTTradeView)
    ensures
        draft_of(t).ticket == t.ticket,
        draft_of(t).symbol == t.symbol,
        draft_of(t).direction == t.trade_type,
        draft_of(t).entry_price == t.open_price,
        draft_of(t).exit_price == t.close_price,
        draft_of(t).position_size == t.volume,
        draft_of(t).stop_loss == t.stop_loss,
        draft_of(t).take_profit == t.take_profit,
        draft_of(t).fees == t.commission,
        draft_of(t).entry_time == t.open_time,
        draft_of(t).exit_time == t.close_time,
        draft_of(t).exit_date is Some <==> t.close_time is Some,
        draft_of(t).imported_from_mt,
        draft_of(t).followed_plan,
{
}

/// The planned entries are, in statement order, the entries of the trades
/// whose tickets are not yet in the journal; so the `i`-th planned entry has
/// the prices, symbol and size of the `i`-th new trade.
pub proof fn lemma_plan_is_drafts_of_new_trades(trades: Seq<MTTradeView>, existing: Set<Seq<char>>)
    ensures
        planned_drafts(trades, existing) == trades.filter(
            |t: MTTradeView| !existing.contains(t.ticket),
        ).map_values(|t: MTTradeView| draft_of(t)),
        forall|i: int|
            0 <= i < planned_drafts(trades, existing).len() ==> {
                let t = trades.filter(|t: MTTradeView| !existing.contains(t.ticket))[i];
                &&& (#[trigger] planned_drafts(trades, existing)[i]).exit_price == t.close_price
                &&& planned_drafts(trades, existing)[i].entry_price == t.open_price
                &&& planned_drafts(trades, existing)[i].symbol == t.symbol
                &&& planned_drafts(trades, existing)[i].position_size == t.volume
                &&& planned_drafts(trades, existing)[i].ticket == t.ticket
            },
    decreases trades.len(),
{
    let keep = |t: MTTradeView| !existing.contains(t.ticket);
    let mk = |t: MTTradeView| draft_of(t);
    if trades.len() > 0 {
        lemma_plan_is_drafts_of_new_trades(trades.drop_last(), existing);
        assert(trades =~= trades.drop_last().push(trades.last()));
        trades.drop_last().lemma_filter_push(trades.last(), keep);
        let f0 = trades.drop_last().filter(keep);
        if keep(trades.last()) {
            assert(trades.filter(keep) == f0.push(trades.last()));
            assert(f0.push(trades.last()).map_values(mk) =~= f0.map_values(mk).push(
                draft_of(trades.last()),
            ));
        } else {
            assert(trades.filter(keep) == f0);
        }
    } else {
        reveal_with_fuel(Seq::filter, 1);
        assert(trades.filter(keep) =~= Seq::<MTTradeView>::empty());
        assert(trades.filter(keep).map_values(mk) =~= Seq::<TradeDraftView>::empty());
    }
    let p = planned_drafts(trades, existing);
    let f = trades.filter(keep);
    assert forall|i: int| 0 <= i < p.len() implies {
        let t = f[i];
        &&& (#[trigger] p[i]).exit_price == t.close_price
        &&& p[i].entry_price == t.open_price
        &&& p[i].symbol == t.symbol
        &&& p[i].position_size == t.volume
        &&& p[i].ticket == t.ticket
    } by {
        assert(p[i] == draft_of(f[i]));
    }
}

/// Importing a statement again, once its tickets are in the journal, stores
/// nothing.
pub proof fn lemma_reimport_plans_nothing(trades: Seq<MTTradeView>, existing: Set<Seq<char>>)
    ensures
        planned_drafts(trades, existing.union(tickets_of(trades).to_set())).len() == 0,
    decreases trades.len(),
{
    if trades.len() > 0 {
        let rest = trades.drop_last();
        let known = existing.union(tickets_of(trades).to_set());
        let known_rest = existing.union(tickets_of(rest).to_set());
        lemma_reimport_plans_nothing(rest, existing);
        assert(tickets_of(trades)[trades.len() - 1] == trades.last().ticket);
        assert(tickets_of(trades).contains(trades.last().ticket));
        assert forall|x: Seq<char>| known_rest.contains(x) implies known.contains(x) by {
            if tickets_of(rest).contains(x) {
                let k = choose|k: int| 0 <= k < tickets_of(rest).len() && tickets_of(rest)[k] == x;
                assert(tickets_of(trades)[k] == x);
            }
        }
        lemma_planned_grow(rest, known_rest, known);
    }
}

/// Knowing more tickets plans no more entries.
proof fn lemma_planned_grow(trades: Seq<MTTradeView>, small: Set<Seq<char>>, big: Set<Seq<char>>)
    requires
        forall|x: Seq<char>| small.contains(x) ==> big.contains(x),
    ensures
        planned_drafts(trades, big).len() <= planned_drafts(trades, small).len(),
    decreases trades.len(),
{
    if trades.len() > 0 {
        lemma_planned_grow(trades.drop_last(), small, big);
    }
}

/// Each planned entry carries the note of its own ticket.
proof fn lemma_planned_notes(trades: Seq<MTTradeView>, existing: Set<Seq<char>>)
    ensures
        forall|i: int|
            0 <= i < planned_drafts(trades, existing).len() ==> (#[trigger] planned_drafts(
                trades,
                existing,
            )[i]).notes == "MT:"@ + planned_drafts(trades, existing)[i].ticket,
    decreases trades.len(),
{
    if trades.len() > 0 {
        lemma_planned_notes(trades.drop_last(), existing);
    }
}

/// Every trade of a statement either has a known ticket or is planned.
proof fn lemma_planned_covers(trades: Seq<MTTradeView>, existing: Set<Seq<char>>)
    ensures
        forall|j: int|
            0 <= j < trades.len() ==> existing.contains(#[trigger] trades[j].ticket) || exists|
                i: int,
            |
                0 <= i < planned_drafts(trades, existing).len() && planned_drafts(
                    trades,
                    existing,
                )[i].ticket == trades[j].ticket,
    decreases trades.len(),
{
    if trades.len() > 0 {
        let rest = trades.drop_last();
        lemma_planned_covers(rest, existing);
        let p = planned_drafts(trades, existing);
        let pr = planned_drafts(rest, existing);
        assert forall|j: int|
            0 <= j < trades.len() implies existing.contains(#[trigger] trades[j].ticket) || exists|
                i: int,
            | 0 <= i < p.len() && p[i].ticket == trades[j].ticket by {
            if j < rest.len() {
                assert(trades[j] == rest[j]);
                if !existing.contains(trades[j].ticket) {
                    let i = choose|i: int| 0 <= i < pr.len() && pr[i].ticket == rest[j].ticket;
                    assert(p[i] == pr[i]);
                }
            } else if !existing.contains(trades[j].ticket) {
                assert(p[pr.len() as int].ticket == trades[j].ticket);
            }
        }
    }
}

/// A statement whose tickets are all known plans nothing.
proof fn lemma_plan_empty_when_known(trades: Seq<MTTradeView>, known: Set<Seq<char>>)
    requires
        forall|j: int| 0 <= j < trades.len() ==> known.contains(#[trigger] trades[j].ticket),
    ensures
        planned_drafts(trades, known).len() == 0,
    decreases trades.len(),
{
    if trades.len() > 0 {
        let rest = trades.drop_last();
        assert forall|j: int| 0 <= j < rest.len() implies known.contains(#[trigger] rest[j].ticket) by {
            assert(rest[j] == trades[j]);
        }
        lemma_plan_empty_when_known(rest, known);
        assert(known.contains(trades[trades.len() - 1].ticket));
    }
}

/// Two imports of the same statement in a row: once the entries planned by
/// the first are stored (flagged as imported, with their notes) beside the
/// trades `old` already in the journal, the second import plans nothing,
/// whatever order the journal `stored` then gives its trades in.
pub proof fn lemma_second_import_stores_nothing(
    trades: Seq<MTTradeView>,
    old: Seq<StoredTrade>,
    new: Seq<StoredTrade>,
    stored: Seq<StoredTrade>,
)
    requires
        new.len() == planned_drafts(trades, stored_tickets(old)).len(),
        forall|i: int|
            0 <= i < new.len() ==> (#[trigger] new[i]).imported_from_mt == 1 && opt_view(
                new[i].notes,
            ) == Some(planned_drafts(trades, stored_tickets(old))[i].notes),
        forall|k: int| 0 <= k < old.len() ==> stored.contains(#[trigger] old[k]),
        forall|k: int| 0 <= k < new.len() ==> stored.contains(#[trigger] new[k]),
    ensures
        planned_drafts(trades, stored_tickets(stored)).len() == 0,
{
    let e = stored_tickets(old);
    let p = planned_drafts(trades, e);
    let s = stored_tickets(stored);
    lemma_planned_notes(trades, e);
    lemma_planned_covers(trades, e);
    assert forall|j: int| 0 <= j < trades.len() implies s.contains(#[trigger] trades[j].ticket) by {
        let x = trades[j].ticket;
        if e.contains(x) {
            let k = choose|k: int| 0 <= k < old.len() && #[trigger] stored_ticket(old[k]) == Some(x);
            assert(stored.contains(old[k]));
            let m = choose|m: int| 0 <= m < stored.len() && stored[m] == old[k];
            assert(stored_ticket(stored[m]) == Some(x));
        } else {
            let i = choose|i: int| 0 <= i < p.len() && p[i].ticket == x;
            lemma_note_of_ticket(x);
            assert(stored_ticket(new[i]) == Some(x));
            assert(stored.contains(new[i]));
            let m = choose|m: int| 0 <= m < stored.len() && stored[m] == new[i];
            assert(stored_ticket(stored[m]) == Some(x));
        }
    }
    lemma_plan_empty_when_known(trades, s);
}

} // verus!
