//! Applying a command to the engine state, idempotently by command id.
use vstd::prelude::*;
use crate::commands::cancel_order::{cancel_order_at, spec_cancel_order};
use crate::commands::create_order::{create_order_at, spec_create_order};
use crate::commands::credit_balance::{credit_balance_at, spec_credit_balance};
use crate::external::{all_v4, now_micros};
use crate::memory::{balance_index, find_balance, OrderEngineState, StateModel};
use crate::helper::settle::fits_i64;
use crate::types::{Balance, Command, CommandModel, LedgerIntent};

verus! {

/// The result of running a step of the engine on a state model: it finishes
/// with a state and a value, fails with the state it leaves and an error
/// (a failure part-way keeps the changes made before it, as the engine
/// does), or would overflow a machine integer.
pub enum Run<T> {
    Done(StateModel, T),
    Failed(StateModel, ApplyError),
    Panic,
}

impl<T> Run<T> {
    /// The same failure or overflow, for a run of another value type.
    pub open spec fn cast<U>(self) -> Run<U> {
        match self {
            Run::Done(s, _) => Run::Panic,
            Run::Failed(s, e) => Run::Failed(s, e),
            Run::Panic => Run::Panic,
        }
    }

    /// An executable step finishing in `fin` with `r` did what this run says.
    pub open spec fn agrees(self, fin: StateModel, r: Result<T, ApplyError>) -> bool {
        match self {
            Run::Done(s, v) => fin == s && r == Ok::<T, ApplyError>(v),
            Run::Failed(s, e) => fin == s && r == Err::<T, ApplyError>(e),
            Run::Panic => false,
        }
    }

    /// An executable step that checks for overflow did what this run says,
    /// and reports `Overflow` where the run would overflow.
    pub open spec fn agrees_checked(self, fin: StateModel, r: Result<T, ApplyError>) -> bool {
        match self {
            Run::Panic => r == Err::<T, ApplyError>(ApplyError::Overflow),
            _ => self.agrees(fin, r),
        }
    }
}

/// The intents of a result, as a sequence.
pub open spec fn intents_view(r: Result<Vec<LedgerIntent>, ApplyError>) -> Result<Seq<LedgerIntent>, ApplyError> {
    match r {
        Ok(v) => Ok(v@),
        Err(e) => Err(e),
    }
}

/// An executable step producing intents (and a next sequence number) did
/// what this run says.
pub open spec fn agrees_intents(
    run: Run<(Seq<LedgerIntent>, i32)>,
    fin: StateModel,
    r: Result<Vec<LedgerIntent>, ApplyError>,
    sequence: i32,
) -> bool {
    match run {
        Run::Done(s, (its, q)) => fin == s && r is Ok && r.unwrap()@ == its && sequence == q,
        Run::Failed(s, e) => fin == s && r is Err && r->Err_0 == e,
        Run::Panic => false,
    }
}

/// `agrees_intents`, reporting `Overflow` where the run would overflow.
pub open spec fn agrees_intents_checked(
    run: Run<(Seq<LedgerIntent>, i32)>,
    fin: StateModel,
    r: Result<Vec<LedgerIntent>, ApplyError>,
    sequence: i32,
) -> bool {
    match run {
        Run::Panic => r is Err && r->Err_0 == ApplyError::Overflow,
        _ => agrees_intents(run, fin, r, sequence),
    }
}

/// Why a command was rejected.
#[derive(Clone, Copy, PartialEq, Eq, Structural, Debug)]
pub enum ApplyError {
    MarketNotFound,
    MarketNotTrading,
    InvalidPrice,
    InvalidQuantity,
    InvalidAmount,
    InvalidTickSize,
    InvalidQuantityStep,
    BelowMinQuantity,
    BelowMinNotional,
    AssetNotFound,
    Overflow,
    InsufficientBalance,
    OrderNotFound,
    Unauthorized,
    OrderNotCancellable,
}

/// What applying a command did.
#[derive(Debug, PartialEq, Eq)]
pub enum ApplyOutcome {
    AlreadyProcessed,
    Applied { command_id: u128, intents: Vec<LedgerIntent> },
}

pub enum OutcomeModel {
    AlreadyProcessed,
    Applied { command_id: u128, intents: Seq<LedgerIntent> },
}

impl View for ApplyOutcome {
    type V = OutcomeModel;

    open spec fn view(&self) -> OutcomeModel {
        match self {
            ApplyOutcome::AlreadyProcessed => OutcomeModel::AlreadyProcessed,
            ApplyOutcome::Applied { command_id, intents } => OutcomeModel::Applied { command_id: *command_id, intents: intents@ },
        }
    }
}

pub open spec fn outcome_view(r: Result<ApplyOutcome, ApplyError>) -> Result<OutcomeModel, ApplyError> {
    match r {
        Ok(o) => Ok(o@),
        Err(e) => Err(e),
    }
}

/// A command's intents, as an applied outcome.
pub open spec fn applied(run: Run<Seq<LedgerIntent>>, command_id: u128) -> Run<OutcomeModel> {
    match run {
        Run::Done(s, its) => Run::Done(s, OutcomeModel::Applied { command_id, intents: its }),
        Run::Failed(s, e) => Run::Failed(s, e),
        Run::Panic => Run::Panic,
    }
}

/// Applying a command at time `now` (trade ids from `ids`) without marking
/// it processed: a command already processed changes nothing; otherwise it
/// is carried out as its kind says, and its intents are returned.
pub open spec fn spec_apply_command_effects(s: StateModel, cmd: CommandModel, now: i64, ids: Seq<u128>) -> Run<OutcomeModel> {
    if s.is_processed(cmd.command_id()) {
        Run::Done(s, OutcomeModel::AlreadyProcessed)
    } else {
        match cmd {
            CommandModel::CreateOrder { command_id, user_id, market_symbol, order_type, price, quantity } =>
                applied(spec_create_order(s, command_id, user_id, market_symbol, order_type, price, quantity, now, ids), command_id),
            CommandModel::CancelOrder { command_id, user_id, order_id } =>
                applied(spec_cancel_order(s, command_id, user_id, order_id, now), command_id),
            CommandModel::CreditBalance { command_id, user_id, asset_id, amount } =>
                match spec_credit_balance(s, command_id, user_id, asset_id, amount, now) {
                    (s1, Ok(i)) => Run::Done(s1, OutcomeModel::Applied { command_id, intents: seq![i] }),
                    (s1, Err(e)) => Run::Failed(s1, e),
                },
        }
    }
}

/// Marking a command processed: its id joins the processed set.
pub open spec fn spec_commit_command(s: StateModel, command_id: u128) -> StateModel {
    if s.processed_commands.contains(command_id) {
        s
    } else {
        StateModel { processed_commands: s.processed_commands.push(command_id), ..s }
    }
}

/// Applying a command and marking it processed, as `apply_command` does:
/// the state it leaves and its answer, or `None` where the engine would
/// overflow.
pub open spec fn spec_apply_command(s: StateModel, cmd: CommandModel, now: i64, ids: Seq<u128>) -> Option<(StateModel, Result<(), ApplyError>)> {
    match spec_apply_command_effects(s, cmd, now, ids) {
        Run::Done(s1, OutcomeModel::AlreadyProcessed) => Some((s1, Ok(()))),
        Run::Done(s1, OutcomeModel::Applied { command_id, .. }) => Some((spec_commit_command(s1, command_id), Ok(()))),
        Run::Failed(s1, e) => Some((s1, Err(e))),
        Run::Panic => None,
    }
}

/// Whether `command_id` was processed.
pub fn is_processed(state: &OrderEngineState, command_id: u128) -> (b: bool)
    ensures
        b == state@.is_processed(command_id),
{
    let mut i: usize = 0;
    while i < state.processed_commands.len()
        invariant
            i <= state.processed_commands.len(),
            forall|j: int| 0 <= j < i ==> state.processed_commands@[j] != command_id,
        decreases state.processed_commands.len() - i,
    {
        if state.processed_commands[i] == command_id {
            assert(state.processed_commands@[i as int] == command_id);
            return true;
        }
        i += 1;
    }
    false
}

/// Applies a command at time `now` without marking it processed; the caller
/// persists the intents, then calls `commit_command`.
pub fn apply_command_effects_at(state: &mut OrderEngineState, command: Command, now: i64) -> (r: Result<ApplyOutcome, ApplyError>)
    requires
        old(state).wf(),
    ensures
        final(state).wf(),
        exists|ids: Seq<u128>| all_v4(ids) && (#[trigger] spec_apply_command_effects(old(state)@, command@, now, ids)).agrees_checked(final(state)@, outcome_view(r)),
{
    let command_id = command.command_id();
    if is_processed(state, command_id) {
        assert(spec_apply_command_effects(old(state)@, command@, now, Seq::empty()).agrees_checked(state@, outcome_view(Ok::<ApplyOutcome, ApplyError>(ApplyOutcome::AlreadyProcessed))));
        return Ok(ApplyOutcome::AlreadyProcessed);
    }
    match command {
        Command::CreateOrder { command_id, user_id, market_symbol, order_type, price, quantity } => {
            let ghost sym = market_symbol@;
            let r = create_order_at(state, command_id, user_id, market_symbol, order_type, price, quantity, now);
            let ghost ids = choose|ids: Seq<u128>| all_v4(ids) && (#[trigger] spec_create_order(old(state)@, command_id, user_id, sym, order_type, price, quantity, now, ids)).agrees_checked(state@, intents_view(r));
            match r {
                Ok(intents) => {
                    let out = ApplyOutcome::Applied { command_id, intents };
                    assert(spec_apply_command_effects(old(state)@, command@, now, ids).agrees_checked(state@, outcome_view(Ok::<ApplyOutcome, ApplyError>(out))));
                    Ok(out)
                },
                Err(e) => {
                    assert(spec_apply_command_effects(old(state)@, command@, now, ids).agrees_checked(state@, outcome_view(Err::<ApplyOutcome, ApplyError>(e))));
                    Err(e)
                },
            }
        },
        Command::CancelOrder { command_id, user_id, order_id } => {
            let r = cancel_order_at(state, command_id, user_id, order_id, now);
            match r {
                Ok(intents) => {
                    let out = ApplyOutcome::Applied { command_id, intents };
                    assert(spec_apply_command_effects(old(state)@, command@, now, Seq::empty()).agrees_checked(state@, outcome_view(Ok::<ApplyOutcome, ApplyError>(out))));
                    Ok(out)
                },
                Err(e) => {
                    assert(spec_apply_command_effects(old(state)@, command@, now, Seq::empty()).agrees_checked(state@, outcome_view(Err::<ApplyOutcome, ApplyError>(e))));
                    Err(e)
                },
            }
        },
        Command::CreditBalance { command_id, user_id, asset_id, amount } => {
            match credit_balance_at(state, command_id, user_id, asset_id, amount, now) {
                Ok(intent) => {
                    let mut intents: Vec<LedgerIntent> = Vec::new();
                    intents.push(intent);
                    assert(intents@ =~= seq![intent]);
                    let out = ApplyOutcome::Applied { command_id, intents };
                    assert(spec_apply_command_effects(old(state)@, command@, now, Seq::empty()).agrees_checked(state@, outcome_view(Ok::<ApplyOutcome, ApplyError>(out))));
                    Ok(out)
                },
                Err(e) => {
                    assert(spec_apply_command_effects(old(state)@, command@, now, Seq::empty()).agrees_checked(state@, outcome_view(Err::<ApplyOutcome, ApplyError>(e))));
                    Err(e)
                },
            }
        },
    }
}

/// Applies a command, stamped with the current time, without marking it
/// processed. Callers persist the intents, then call `commit_command`.
pub fn apply_command_effects(state: &mut OrderEngineState, command: Command) -> (r: Result<ApplyOutcome, ApplyError>)
    requires
        old(state).wf(),
        forall|now: i64, ids: Seq<u128>| !(#[trigger] spec_apply_command_effects(old(state)@, command@, now, ids) is Panic),
    ensures
        final(state).wf(),
        exists|now: i64, ids: Seq<u128>| now >= 0 && all_v4(ids) && (#[trigger] spec_apply_command_effects(old(state)@, command@, now,
            ids)).agrees(final(state)@, outcome_view(r)),
{
    let now = now_micros();
    let ghost cmd = command@;
    assert forall|ids: Seq<u128>| !(#[trigger] spec_apply_command_effects(old(state)@, cmd, now, ids) is Panic) by {
        assert(!(spec_apply_command_effects(old(state)@, cmd, now, ids) is Panic));
    }
    apply_command_effects_at(state, command, now)
}

/// Applies a command, stamped with the current time, without marking it
/// processed, for callers that cannot show it stays within machine
/// integers: where `apply_command_effects` would overflow (or divide by a
/// zero tick or step size) it returns `Overflow` instead, possibly after
/// part of the command took effect, as a failing command may.
pub fn checked_apply_command_effects(state: &mut OrderEngineState, command: Command) -> (r: Result<ApplyOutcome, ApplyError>)
    requires
        old(state).wf(),
    ensures
        final(state).wf(),
        exists|now: i64, ids: Seq<u128>| now >= 0 && all_v4(ids) && (#[trigger] spec_apply_command_effects(old(state)@, command@, now,
            ids)).agrees_checked(final(state)@, outcome_view(r)),
{
    let now = now_micros();
    apply_command_effects_at(state, command, now)
}

/// Marks a command processed.
pub fn commit_command(state: &mut OrderEngineState, command_id: u128)
    requires
        old(state).wf(),
    ensures
        final(state).wf(),
        final(state)@ == spec_commit_command(old(state)@, command_id),
{
    if !is_processed(state, command_id) {
        let ghost before = state@;
        state.processed_commands.push(command_id);
        assert(state@.books == before.books);
    }
}

/// Applies a command and marks it processed (for callers that do not
/// persist intents).
pub fn apply_command(state: &mut OrderEngineState, command: Command) -> (r: Result<(), ApplyError>)
    requires
        old(state).wf(),
        forall|now: i64, ids: Seq<u128>| !(#[trigger] spec_apply_command_effects(old(state)@, command@, now, ids) is Panic),
    ensures
        final(state).wf(),
        exists|now: i64, ids: Seq<u128>| now >= 0 && all_v4(ids)
            && #[trigger] spec_apply_command(old(state)@, command@, now, ids) == Some((final(state)@, r)),
{
    let ghost s0 = state@;
    let ghost cmd = command@;
    let r0 = apply_command_effects(state, command);
    let ghost s1 = state@;
    let ghost (now, ids) = choose|now: i64, ids: Seq<u128>| now >= 0 && all_v4(ids)
        && (#[trigger] spec_apply_command_effects(s0, cmd, now, ids)).agrees(s1, outcome_view(r0));
    match r0 {
        Ok(ApplyOutcome::AlreadyProcessed) => {
            assert(spec_apply_command(s0, cmd, now, ids) == Some((state@, Ok::<(), ApplyError>(()))));
            Ok(())
        },
        Ok(ApplyOutcome::Applied { command_id, .. }) => {
            commit_command(state, command_id);
            assert(spec_apply_command(s0, cmd, now, ids) == Some((state@, Ok::<(), ApplyError>(()))));
            Ok(())
        },
        Err(e) => {
            assert(spec_apply_command(s0, cmd, now, ids) == Some((state@, Err::<(), ApplyError>(e))));
            Err(e)
        },
    }
}

/// One intent undone on the balances: its deltas are taken back from the
/// balance it names, if there is one.
pub open spec fn revert_one(bs: Seq<Balance>, it: LedgerIntent) -> Option<Seq<Balance>> {
    match balance_index(bs, it.user_id, it.asset_id) {
        None => Some(bs),
        Some(i) => {
            let b = bs[i];
            if !fits_i64(b.available - it.available_delta) || !fits_i64(b.locked - it.locked_delta) {
                None
            } else {
                Some(bs.update(i, Balance {
                    available: (b.available - it.available_delta) as i64,
                    locked: (b.locked - it.locked_delta) as i64,
                    ..b
                }))
            }
        },
    }
}

/// The intents undone in order; `None` when a balance would leave the `i64`
/// range.
pub open spec fn spec_revert_intents(bs: Seq<Balance>, its: Seq<LedgerIntent>) -> Option<Seq<Balance>>
    decreases its.len(),
{
    if its.len() == 0 {
        Some(bs)
    } else {
        match spec_revert_intents(bs, its.drop_last()) {
            None => None,
            Some(b1) => revert_one(b1, its.last()),
        }
    }
}

/// Takes back the balance deltas of `intents` (after their persistence
/// failed).
pub fn revert_intents(state: &mut OrderEngineState, intents: &Vec<LedgerIntent>)
    requires
        old(state).wf(),
        spec_revert_intents(old(state)@.balances, intents@) is Some,
    ensures
        final(state).wf(),
        final(state)@ == (StateModel { balances: spec_revert_intents(old(state)@.balances, intents@).unwrap(), ..old(state)@ }),
{
    let ghost s0 = state@;
    let mut k: usize = 0;
    while k < intents.len()
        invariant
            k <= intents.len(),
            spec_revert_intents(s0.balances, intents@) is Some,
            spec_revert_intents(s0.balances, intents@.take(k as int)) == Some(state@.balances),
            state@ == (StateModel { balances: state@.balances, ..s0 }),
        decreases intents.len() - k,
    {
        proof {
            lemma_revert_prefix(s0.balances, intents@, k as int + 1);
            assert(intents@.take(k + 1).drop_last() =~= intents@.take(k as int));
        }
        let it = intents[k];
        match find_balance(&state.balances, it.user_id, it.asset_id) {
            None => {},
            Some(i) => {
                let b = state.balances[i];
                state.balances.set(i, Balance {
                    available: b.available - it.available_delta,
                    locked: b.locked - it.locked_delta,
                    ..b
                });
            },
        }
        k += 1;
    }
    assert(intents@.take(intents.len() as int) =~= intents@);
}

/// A revert that succeeds on all intents succeeds on every prefix.
pub proof fn lemma_revert_prefix(bs: Seq<Balance>, its: Seq<LedgerIntent>, k: int)
    requires
        0 <= k <= its.len(),
        spec_revert_intents(bs, its) is Some,
    ensures
        spec_revert_intents(bs, its.take(k)) is Some,
    decreases its.len() - k,
{
    if k < its.len() {
        lemma_revert_prefix(bs, its, k + 1);
        assert(its.take(k + 1).drop_last() =~= its.take(k));
    } else {
        assert(its.take(k) =~= its);
    }
}

} // verus!
