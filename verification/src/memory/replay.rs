//! The decisions around applying a command durably: which books to snapshot
//! first, what to do with the outcome, how the stream positions advance, and
//! when to take a snapshot. Reading streams, persisting the ledger and
//! publishing are done by the caller, which hands the results back here.
use vstd::prelude::*;
use crate::commands::apply_command::{commit_command, revert_intents, revert_one, spec_commit_command, spec_revert_intents, ApplyError, ApplyOutcome};
use crate::events::build_events::{affected_book_markets, depths_view, is_books_snapshot, snapshot_books, spec_affected_markets, str_opt_view, strings_view};
use crate::helper::order_id::{parse_order_id, spec_parse_order_id};
use crate::helper::settle::fits_i64;
use crate::memory::snapshot::{SnapshotMeta, DEFAULT_CURSOR};
use crate::memory::{balance_index, find_balance, find_order, order_index, OrderEngineState, StateModel};
use crate::queries::answer_query::{check_depth_fits, depth_fits, normalize_symbol, normalized_symbol, OrderBookDepth};
use crate::types::{Balance, Command, CommandModel, LedgerIntent};

verus! {

/// How applying a stream entry durably ended: applied, passed over (a
/// duplicate, a rejected or an unreadable command), or to be retried.
#[derive(Clone, Copy, PartialEq, Eq, Structural, Debug)]
pub enum DurableApply {
    Applied,
    Skip,
    Retry,
}

/// What to do once a command has been applied to the state.
#[derive(Clone, Copy, PartialEq, Eq, Structural, Debug)]
pub enum NextStep {
    /// It had been processed already.
    AlreadyProcessed,
    /// The engine rejected it.
    Rejected,
    /// It produced no ledger intents: commit it now.
    Commit { command_id: u128 },
    /// Persist its ledger intents first, then commit it.
    Persist { command_id: u128 },
}

/// A snapshot is taken after this many applied commands.
pub const SNAPSHOT_EVERY: u32 = 25;

/// The market of the order a cancel command names, when that order is known.
pub open spec fn spec_cancel_market(s: StateModel, c: CommandModel) -> Option<Seq<char>> {
    match c {
        CommandModel::CancelOrder { order_id, .. } => match spec_parse_order_id(order_id) {
            Some(id) => match order_index(s.orders, id) {
                Some(i) => Some(s.orders[i].market_symbol),
                None => None,
            },
            None => None,
        },
        _ => None,
    }
}

pub open spec fn string_opt_view(o: Option<String>) -> Option<Seq<char>> {
    match o {
        Some(m) => Some(m@),
        None => None,
    }
}

/// The market of the order a cancel command names, when that order is known.
pub fn cancel_market_of(state: &OrderEngineState, command: &Command) -> (r: Option<String>)
    ensures
        string_opt_view(r) == spec_cancel_market(state@, command@),
{
    match command {
        Command::CancelOrder { order_id, .. } => match parse_order_id(order_id) {
            Some(id) => match find_order(&state.orders, id) {
                Some(i) => {
                    assert(state@.orders[i as int] == state.orders@[i as int]@);
                    Some(state.orders[i].market_symbol.clone())
                },
                None => None,
            },
            None => None,
        },
        _ => None,
    }
}

/// What a command needs before it is applied, to describe afterwards what
/// it changed: the number of trades so far and the depth of the books it
/// names.
pub struct PreparedCommand {
    pub trades_before: usize,
    pub books_before: Vec<OrderBookDepth>,
}

/// Records the trade count and snapshots the books a command names.
pub fn prepare_command(state: &OrderEngineState, command: &Command) -> (p: PreparedCommand)
    requires
        forall|t: int| 0 <= t < spec_affected_markets(command@, spec_cancel_market(state@, command@)).len()
            ==> depth_fits(state@, normalized_symbol(#[trigger] spec_affected_markets(command@, spec_cancel_market(state@, command@))[t])),
    ensures
        p.trades_before == state@.trades.len(),
        is_books_snapshot(state@, spec_affected_markets(command@, spec_cancel_market(state@, command@)), depths_view(p.books_before@)),
{
    let cancel_market = cancel_market_of(state, command);
    let markets = match &cancel_market {
        Some(m) => affected_book_markets(command, Some(m.as_str())),
        None => affected_book_markets(command, None),
    };
    proof {
        assert forall|t: int| 0 <= t < markets@.len() implies depth_fits(state@, normalized_symbol(#[trigger] markets@[t]@)) by {
            assert(strings_view(markets@)[t] == markets@[t]@);
        }
    }
    let books_before = snapshot_books(state, &markets);
    PreparedCommand { trades_before: state.trades.len(), books_before }
}

/// Whether the books a command names can be totalled in `i64`, as
/// preparing it needs.
pub fn affected_books_fit(state: &OrderEngineState, command: &Command) -> (b: bool)
    ensures
        b == forall|t: int| 0 <= t < spec_affected_markets(command@, spec_cancel_market(state@, command@)).len()
            ==> depth_fits(state@, normalized_symbol(#[trigger] spec_affected_markets(command@, spec_cancel_market(state@, command@))[t])),
{
    let cancel_market = cancel_market_of(state, command);
    let markets = match &cancel_market {
        Some(m) => affected_book_markets(command, Some(m.as_str())),
        None => affected_book_markets(command, None),
    };
    let ghost ms = strings_view(markets@);
    let mut i: usize = 0;
    while i < markets.len()
        invariant
            i <= markets.len(),
            ms == strings_view(markets@),
            ms == spec_affected_markets(command@, spec_cancel_market(state@, command@)),
            forall|t: int| 0 <= t < i ==> depth_fits(state@, normalized_symbol(#[trigger] ms[t])),
        decreases markets.len() - i,
    {
        let sym = normalize_symbol(markets[i].as_str());
        if !check_depth_fits(state, &sym) {
            assert(!depth_fits(state@, normalized_symbol(ms[i as int])));
            return false;
        }
        i += 1;
    }
    true
}

/// Prepares a command, or `None` when the book of a market it names cannot
/// be totalled in `i64`.
pub fn checked_prepare_command(state: &OrderEngineState, command: &Command) -> (r: Option<PreparedCommand>)
    ensures
        match r {
            Some(p) => p.trades_before == state@.trades.len() && is_books_snapshot(state@,
                spec_affected_markets(command@, spec_cancel_market(state@, command@)), depths_view(p.books_before@)),
            None => !(forall|t: int| 0 <= t < spec_affected_markets(command@, spec_cancel_market(state@, command@)).len()
                ==> depth_fits(state@, normalized_symbol(#[trigger] spec_affected_markets(command@, spec_cancel_market(state@, command@))[t]))),
        },
{
    if !affected_books_fit(state, command) {
        return None;
    }
    Some(prepare_command(state, command))
}

/// What to do with the outcome of applying a command.
pub fn next_step(r: &Result<ApplyOutcome, ApplyError>) -> (n: NextStep)
    ensures
        n == match r {
            Ok(ApplyOutcome::AlreadyProcessed) => NextStep::AlreadyProcessed,
            Ok(ApplyOutcome::Applied { command_id, intents }) => if intents@.len() == 0 {
                NextStep::Commit { command_id: *command_id }
            } else {
                NextStep::Persist { command_id: *command_id }
            },
            Err(_) => NextStep::Rejected,
        },
{
    match r {
        Ok(ApplyOutcome::AlreadyProcessed) => NextStep::AlreadyProcessed,
        Ok(ApplyOutcome::Applied { command_id, intents }) => if intents.len() == 0 {
            NextStep::Commit { command_id: *command_id }
        } else {
            NextStep::Persist { command_id: *command_id }
        },
        Err(_) => NextStep::Rejected,
    }
}

/// Whether the balance deltas of `intents` can be taken back within `i64`.
pub fn revert_fits(state: &OrderEngineState, intents: &Vec<LedgerIntent>) -> (b: bool)
    ensures
        b == spec_revert_intents(state@.balances, intents@) is Some,
{
    let mut bs: Vec<Balance> = Vec::new();
    let mut j: usize = 0;
    while j < state.balances.len()
        invariant
            j <= state.balances.len(),
            bs@ == state.balances@.take(j as int),
        decreases state.balances.len() - j,
    {
        bs.push(state.balances[j]);
        j += 1;
        assert(bs@ =~= state.balances@.take(j as int));
    }
    assert(state.balances@.take(state.balances.len() as int) =~= state.balances@);
    let mut k: usize = 0;
    while k < intents.len()
        invariant
            k <= intents.len(),
            spec_revert_intents(state@.balances, intents@.take(k as int)) == Some(bs@),
        decreases intents.len() - k,
    {
        let it = intents[k];
        assert(intents@.take(k + 1).drop_last() =~= intents@.take(k as int));
        assert(intents@.take(k + 1).last() == it);
        match find_balance(&bs, it.user_id, it.asset_id) {
            None => {},
            Some(i) => {
                let b = bs[i];
                let avail = b.available.checked_sub(it.available_delta);
                let locked = b.locked.checked_sub(it.locked_delta);
                match (avail, locked) {
                    (Some(a), Some(l)) => {
                        bs.set(i, Balance { available: a, locked: l, ..b });
                    },
                    _ => {
                        proof {
                            lemma_revert_none_stays(state@.balances, intents@, k as int + 1);
                        }
                        return false;
                    },
                }
            },
        }
        k += 1;
    }
    assert(intents@.take(intents.len() as int) =~= intents@);
    true
}

/// Once a prefix of the intents cannot be taken back, the whole list cannot.
proof fn lemma_revert_none_stays(bs: Seq<Balance>, its: Seq<LedgerIntent>, k: int)
    requires
        0 <= k <= its.len(),
        spec_revert_intents(bs, its.take(k)) is None,
    ensures
        spec_revert_intents(bs, its) is None,
    decreases its.len() - k,
{
    if k < its.len() {
        assert(its.take(k + 1).drop_last() =~= its.take(k));
        lemma_revert_none_stays(bs, its, k + 1);
    } else {
        assert(its.take(k) =~= its);
    }
}

/// Ends a command whose intents were (or failed to be) persisted: commits it
/// when they were, and takes their balance deltas back otherwise so it can
/// be retried.
pub fn finish_command(state: &mut OrderEngineState, command_id: u128, intents: &Vec<LedgerIntent>, persisted: bool) -> (r: DurableApply)
    requires
        old(state).wf(),
        !persisted ==> spec_revert_intents(old(state)@.balances, intents@) is Some,
    ensures
        final(state).wf(),
        persisted ==> r == DurableApply::Applied && final(state)@ == spec_commit_command(old(state)@, command_id),
        !persisted ==> r == DurableApply::Retry && final(state)@ == (StateModel {
            balances: spec_revert_intents(old(state)@.balances, intents@).unwrap(),
            ..old(state)@
        }),
{
    if persisted {
        commit_command(state, command_id);
        DurableApply::Applied
    } else {
        revert_intents(state, intents);
        DurableApply::Retry
    }
}

/// How handling a stream entry ends once its command was applied, and what
/// follows: its outcome, whether exchange events are published, and
/// whether the command had been processed already.
#[derive(Clone, Copy, PartialEq, Eq, Structural, Debug)]
pub struct EntryDecision {
    pub outcome: DurableApply,
    pub publish: bool,
    pub already_processed: bool,
}

/// The decision for a command that was applied and, where its intents had
/// to be persisted, whether that succeeded: a duplicate or a rejected
/// command is passed over with nothing published; a command committed
/// (directly, or once its intents were persisted) is applied and its events
/// are published; one whose intents could not be persisted is retried with
/// nothing published.
pub open spec fn spec_durable_outcome(step: NextStep, persisted: bool) -> EntryDecision {
    match step {
        NextStep::AlreadyProcessed => EntryDecision { outcome: DurableApply::Skip, publish: false, already_processed: true },
        NextStep::Rejected => EntryDecision { outcome: DurableApply::Skip, publish: false, already_processed: false },
        NextStep::Commit { .. } => EntryDecision { outcome: DurableApply::Applied, publish: true, already_processed: false },
        NextStep::Persist { .. } => if persisted {
            EntryDecision { outcome: DurableApply::Applied, publish: true, already_processed: false }
        } else {
            EntryDecision { outcome: DurableApply::Retry, publish: false, already_processed: false }
        },
    }
}

/// The decision for an applied command, as `spec_durable_outcome` says.
pub fn durable_outcome(step: NextStep, persisted: bool) -> (d: EntryDecision)
    ensures
        d == spec_durable_outcome(step, persisted),
        (step is AlreadyProcessed || step is Rejected) ==> d.outcome == DurableApply::Skip && !d.publish,
        (step is Commit || (step is Persist && persisted)) ==> d.outcome == DurableApply::Applied && d.publish,
        (step is Persist && !persisted) ==> d.outcome == DurableApply::Retry && !d.publish,
        d.already_processed == (step is AlreadyProcessed),
{
    match step {
        NextStep::AlreadyProcessed => EntryDecision { outcome: DurableApply::Skip, publish: false, already_processed: true },
        NextStep::Rejected => EntryDecision { outcome: DurableApply::Skip, publish: false, already_processed: false },
        NextStep::Commit { .. } => EntryDecision { outcome: DurableApply::Applied, publish: true, already_processed: false },
        NextStep::Persist { .. } => if persisted {
            EntryDecision { outcome: DurableApply::Applied, publish: true, already_processed: false }
        } else {
            EntryDecision { outcome: DurableApply::Retry, publish: false, already_processed: false }
        },
    }
}

/// The decision for an entry whose payload is missing or cannot be read as
/// a command: it is passed over, with nothing published.
pub fn unreadable_entry() -> (d: EntryDecision)
    ensures
        d == (EntryDecision { outcome: DurableApply::Skip, publish: false, already_processed: false }),
{
    EntryDecision { outcome: DurableApply::Skip, publish: false, already_processed: false }
}

/// Finishes a command that was applied: commits it when it had no intents
/// or once they were persisted, takes their balance deltas back when they
/// could not be persisted, and leaves the state alone for a duplicate or a
/// rejected command. Returns the decision `spec_durable_outcome` gives.
pub fn finish_step(state: &mut OrderEngineState, step: NextStep, intents: &Vec<LedgerIntent>, persisted: bool) -> (d: EntryDecision)
    requires
        old(state).wf(),
        (step is Persist && !persisted) ==> spec_revert_intents(old(state)@.balances, intents@) is Some,
    ensures
        final(state).wf(),
        d == spec_durable_outcome(step, persisted),
        match step {
            NextStep::AlreadyProcessed => final(state)@ == old(state)@,
            NextStep::Rejected => final(state)@ == old(state)@,
            NextStep::Commit { command_id } => final(state)@ == spec_commit_command(old(state)@, command_id),
            NextStep::Persist { command_id } => if persisted {
                final(state)@ == spec_commit_command(old(state)@, command_id)
            } else {
                final(state)@ == (StateModel { balances: spec_revert_intents(old(state)@.balances, intents@).unwrap(), ..old(state)@ })
            },
        },
{
    match step {
        NextStep::Commit { command_id } => {
            finish_command(state, command_id, intents, true);
        },
        NextStep::Persist { command_id } => {
            finish_command(state, command_id, intents, persisted);
        },
        _ => {},
    }
    durable_outcome(step, persisted)
}

/// Where to start reading a stream: the saved position, or its start when
/// none was saved.
pub fn start_cursor(saved: &String) -> (c: String)
    ensures
        c@ == if saved@.len() == 0 { DEFAULT_CURSOR@ } else { saved@ },
{
    if saved.as_str().is_empty() {
        DEFAULT_CURSOR.to_owned()
    } else {
        saved.clone()
    }
}

/// Moves the saved position of the stream an entry came from to that entry.
pub fn touch_cursor(meta: &mut SnapshotMeta, stream: &str, entry_id: &str, order_stream: &str)
    ensures
        stream@ == order_stream@ ==> final(meta).order_commands_cursor@ == entry_id@
            && final(meta).engine_commands_cursor == old(meta).engine_commands_cursor,
        stream@ != order_stream@ ==> final(meta).engine_commands_cursor@ == entry_id@
            && final(meta).order_commands_cursor == old(meta).order_commands_cursor,
{
    if stream.to_owned() == order_stream.to_owned() {
        meta.order_commands_cursor = entry_id.to_owned();
    } else {
        meta.engine_commands_cursor = entry_id.to_owned();
    }
}

/// Moves the saved position of one stream (the order stream or the engine
/// stream) to an entry.
fn set_cursor(meta: &mut SnapshotMeta, is_order_stream: bool, entry_id: &str)
    ensures
        is_order_stream ==> final(meta).order_commands_cursor@ == entry_id@
            && final(meta).engine_commands_cursor == old(meta).engine_commands_cursor,
        !is_order_stream ==> final(meta).engine_commands_cursor@ == entry_id@
            && final(meta).order_commands_cursor == old(meta).order_commands_cursor,
{
    if is_order_stream {
        meta.order_commands_cursor = entry_id.to_owned();
    } else {
        meta.engine_commands_cursor = entry_id.to_owned();
    }
}

/// Replaying a stream from a position: an entry applied or passed over moves
/// the position past it and replay goes on; one to be retried stops it with
/// the position unchanged.
pub fn record_replay(meta: &mut SnapshotMeta, is_order_stream: bool, entry_id: &str, outcome: DurableApply) -> (go_on: bool)
    ensures
        go_on == (outcome != DurableApply::Retry),
        outcome == DurableApply::Retry ==> *final(meta) == *old(meta),
        outcome != DurableApply::Retry && is_order_stream ==> final(meta).order_commands_cursor@ == entry_id@
            && final(meta).engine_commands_cursor == old(meta).engine_commands_cursor,
        outcome != DurableApply::Retry && !is_order_stream ==> final(meta).engine_commands_cursor@ == entry_id@
            && final(meta).order_commands_cursor == old(meta).order_commands_cursor,
{
    match outcome {
        DurableApply::Retry => false,
        _ => {
            set_cursor(meta, is_order_stream, entry_id);
            true
        },
    }
}

/// Draining entries delivered before but never acknowledged: an applied one
/// moves the position and is acknowledged; one passed over is acknowledged
/// only; one to be retried stays pending and stops the drain. Returns
/// whether to acknowledge and whether to stop.
pub fn record_pending(meta: &mut SnapshotMeta, is_order_stream: bool, entry_id: &str, outcome: DurableApply) -> (r: (bool, bool))
    ensures
        r.0 == (outcome != DurableApply::Retry),
        r.1 == (outcome == DurableApply::Retry),
        outcome != DurableApply::Applied ==> *final(meta) == *old(meta),
        outcome == DurableApply::Applied && is_order_stream ==> final(meta).order_commands_cursor@ == entry_id@
            && final(meta).engine_commands_cursor == old(meta).engine_commands_cursor,
        outcome == DurableApply::Applied && !is_order_stream ==> final(meta).engine_commands_cursor@ == entry_id@
            && final(meta).order_commands_cursor == old(meta).order_commands_cursor,
{
    match outcome {
        DurableApply::Applied => {
            set_cursor(meta, is_order_stream, entry_id);
            (true, false)
        },
        DurableApply::Skip => (true, false),
        DurableApply::Retry => (false, true),
    }
}

/// Whether to write a snapshot now: when asked to, or once enough commands
/// were applied since the last one.
pub fn should_snapshot(commands_since: u32, force: bool) -> (b: bool)
    ensures
        b == (force || commands_since >= SNAPSHOT_EVERY),
{
    force || commands_since >= SNAPSHOT_EVERY
}

/// After a command was applied from a live stream: its position is saved,
/// the count since the last snapshot goes up, and whether a snapshot is due
/// is returned.
pub fn record_applied(meta: &mut SnapshotMeta, commands_since: &mut u32, stream: &str, entry_id: &str, order_stream: &str) -> (due: bool)
    requires
        *old(commands_since) < u32::MAX,
    ensures
        *final(commands_since) == *old(commands_since) + 1,
        due == (*final(commands_since) >= SNAPSHOT_EVERY),
        stream@ == order_stream@ ==> final(meta).order_commands_cursor@ == entry_id@
            && final(meta).engine_commands_cursor == old(meta).engine_commands_cursor,
        stream@ != order_stream@ ==> final(meta).engine_commands_cursor@ == entry_id@
            && final(meta).order_commands_cursor == old(meta).order_commands_cursor,
{
    touch_cursor(meta, stream, entry_id, order_stream);
    *commands_since = *commands_since + 1;
    should_snapshot(*commands_since, false)
}

/// What follows a live stream entry, once applying it durably ended with
/// `outcome`: an applied command is recorded as `record_applied` says and
/// acknowledged; one passed over is acknowledged, and its position saved
/// only when it had been processed already; one to be retried stays
/// pending, with nothing recorded. Returns whether to acknowledge the entry
/// and whether a snapshot is due.
pub fn record_live(
    meta: &mut SnapshotMeta,
    commands_since: &mut u32,
    stream: &str,
    entry_id: &str,
    order_stream: &str,
    outcome: DurableApply,
    already_processed: bool,
) -> (r: (bool, bool))
    requires
        outcome == DurableApply::Applied ==> *old(commands_since) < u32::MAX,
    ensures
        r.0 == (outcome != DurableApply::Retry),
        r.1 == (outcome == DurableApply::Applied && *final(commands_since) >= SNAPSHOT_EVERY),
        outcome == DurableApply::Applied ==> *final(commands_since) == *old(commands_since) + 1,
        outcome != DurableApply::Applied ==> *final(commands_since) == *old(commands_since),
        (outcome == DurableApply::Applied || (outcome == DurableApply::Skip && already_processed)) ==> {
            &&& stream@ == order_stream@ ==> final(meta).order_commands_cursor@ == entry_id@
                && final(meta).engine_commands_cursor == old(meta).engine_commands_cursor
            &&& stream@ != order_stream@ ==> final(meta).engine_commands_cursor@ == entry_id@
                && final(meta).order_commands_cursor == old(meta).order_commands_cursor
        },
        !(outcome == DurableApply::Applied || (outcome == DurableApply::Skip && already_processed)) ==> *final(meta) == *old(meta),
{
    match outcome {
        DurableApply::Applied => {
            let due = record_applied(meta, commands_since, stream, entry_id, order_stream);
            (true, due)
        },
        DurableApply::Skip => {
            if already_processed {
                touch_cursor(meta, stream, entry_id, order_stream);
            }
            (true, false)
        },
        DurableApply::Retry => (false, false),
    }
}

} // verus!
