//! Command gateway of one symbol: assigns sequence numbers, enforces backpressure, refuses
//! commands for other symbols, and tells when a snapshot is due.
//!
//! A submission goes through in steps. `submit_new`, `submit_cancel` and `submit_replace` stamp
//! the command. The caller appends it to the write-ahead log and hands the outcome to
//! `process_command`, which processes the command only if it was logged. If `snapshot_due` then
//! says so, the caller writes a snapshot and hands the outcome to `snapshot_written`.
use crate::book::OrderBook;
use crate::capacity;
use crate::laws;
use crate::matcher::MatchingEngine;
use crate::model;
use crate::replay;
use crate::replay::{Entry, ReplayError};
use crate::report;
use crate::snapshot;
use crate::types::{
    CancelOrder, Command, CommandPayload, EngineEvent, NewOrder, ReplaceOrder, SeqNo, Symbol,
    Timestamp,
};
use crate::validity;
use std::collections::VecDeque;
use vstd::prelude::*;

verus! {

/// Why a submission failed.
#[derive(Debug, Clone, PartialEq, Eq)]
pub enum GatewayError {
    /// The number of pending commands reached the limit.
    QueueFull { limit: usize },
    /// The log or the snapshot failed.
    Wal(ReplayError),
    /// The command is for another symbol.
    SymbolMismatch { expected: Symbol, got: Symbol },
}

/// The words for an error.
pub open spec fn error_text(error: GatewayError) -> Seq<char> {
    match error {
        GatewayError::QueueFull { limit } => "Queue full: backpressure limit of "@ + report::digits(
            limit as nat,
        ) + " reached"@,
        GatewayError::Wal(cause) => "WAL error: "@ + replay::error_text(cause),
        GatewayError::SymbolMismatch { expected, got } => "Symbol mismatch: expected "@
            + report::digits(expected as nat) + ", got "@ + report::digits(got as nat),
    }
}

impl GatewayError {
    /// The error's message.
    pub fn message(&self) -> (message: String)
        ensures
            message@ == error_text(*self),
    {
        let mut message: String;
        match self {
            GatewayError::QueueFull { limit } => {
                message = "Queue full: backpressure limit of ".to_owned();
                message.append(report::decimal(*limit as u64).as_str());
                message.append(" reached");
            },
            GatewayError::Wal(cause) => {
                message = "WAL error: ".to_owned();
                message.append(cause.message().as_str());
            },
            GatewayError::SymbolMismatch { expected, got } => {
                message = "Symbol mismatch: expected ".to_owned();
                message.append(report::decimal(*expected as u64).as_str());
                message.append(", got ");
                message.append(report::decimal(*got as u64).as_str());
            },
        }
        message
    }
}

/// Configuration of a gateway.
#[derive(Debug, Clone)]
pub struct GatewayConfig {
    pub symbol: Symbol,
    pub wal_path: String,
    pub snapshot_path: String,
    /// Maximum number of pending commands before new submissions are refused.
    pub max_queue_depth: usize,
    /// A snapshot is due every so many commands.
    pub snapshot_interval: u64,
}

/// The gateway of one symbol.
pub struct Gateway {
    config: GatewayConfig,
    engine: MatchingEngine,
    next_seq_no: SeqNo,
    commands_since_snapshot: u64,
    pending: VecDeque<Command>,
}

/// What a gateway is about.
pub struct GatewayView {
    pub config: GatewayConfig,
    pub book: model::BookModel,
    /// The sequence number assigned next.
    pub next_seq_no: SeqNo,
    /// Number of commands processed since the last snapshot.
    pub since_snapshot: u64,
    /// Commands accepted and not processed yet.
    pub pending: Seq<Command>,
}

impl View for Gateway {
    type V = GatewayView;

    closed spec fn view(&self) -> GatewayView {
        GatewayView {
            config: self.config,
            book: self.engine.book@,
            next_seq_no: self.next_seq_no,
            since_snapshot: self.commands_since_snapshot,
            pending: self.pending@,
        }
    }
}

/// The symbol that a payload is for.
pub open spec fn symbol_of(payload: CommandPayload) -> Symbol {
    match payload {
        CommandPayload::New(order) => order.symbol,
        CommandPayload::Cancel(cancel) => cancel.symbol,
        CommandPayload::Replace(replace) => replace.symbol,
    }
}

impl GatewayView {
    /// The answer to a submission: the command with the next sequence number, or a refusal while
    /// the queue is full or if the payload is for another symbol.
    pub open spec fn stamped(
        self,
        timestamp: Timestamp,
        payload: CommandPayload,
    ) -> Result<Command, GatewayError> {
        if self.pending.len() >= self.config.max_queue_depth {
            Err(GatewayError::QueueFull { limit: self.config.max_queue_depth })
        } else if symbol_of(payload) != self.config.symbol {
            Err(
                GatewayError::SymbolMismatch {
                    expected: self.config.symbol,
                    got: symbol_of(payload),
                },
            )
        } else {
            Ok(Command { seq_no: self.next_seq_no, timestamp, payload })
        }
    }

    /// The gateway after it processed a command.
    pub open spec fn advanced(self, cmd: Command) -> GatewayView {
        GatewayView {
            book: model::processed(self.book, cmd).book,
            next_seq_no: (self.next_seq_no + 1) as u64,
            since_snapshot: (self.since_snapshot + 1) as u64,
            ..self
        }
    }

    /// A snapshot is due: as many commands were processed since the last one as the interval says.
    pub open spec fn due(self) -> bool {
        self.since_snapshot >= self.config.snapshot_interval
    }

    /// The gateway can take a command without exceeding a machine limit.
    pub open spec fn room_for(self, cmd: Command) -> bool {
        &&& model::command_fits(self.book, cmd)
        &&& self.next_seq_no < u64::MAX
        &&& self.since_snapshot < u64::MAX
    }

    /// A gateway that continues from a book.
    pub open spec fn from_book(config: GatewayConfig, book: model::BookModel) -> GatewayView {
        GatewayView {
            config,
            book,
            next_seq_no: (book.last_seq_no + 1) as u64,
            since_snapshot: 0,
            pending: Seq::empty(),
        }
    }

    /// The gateway after a command was logged and processed, or could not be logged.
    pub open spec fn after_logging(self, cmd: Command, logged: bool) -> GatewayView {
        if logged {
            self.advanced(cmd)
        } else {
            self
        }
    }

    /// The gateway after a snapshot was written, or could not be.
    pub open spec fn after_writing(self, written: bool) -> GatewayView {
        if written {
            GatewayView { since_snapshot: 0, ..self }
        } else {
            self
        }
    }
}

impl Gateway {
    /// The engine's book keeps its invariant, and the next sequence number follows the last one
    /// processed.
    pub closed spec fn wf(&self) -> bool {
        &&& self.engine.book.wf()
        &&& self.next_seq_no == self.engine.book.last_seq_no + 1
    }

    /// Creates a gateway with an empty book.
    pub fn new(config: GatewayConfig) -> (gateway: Gateway)
        ensures
            gateway.wf(),
            gateway@ == (GatewayView {
                config,
                book: model::BookModel::fresh(config.symbol),
                next_seq_no: 1,
                since_snapshot: 0,
                pending: Seq::empty(),
            }),
            gateway@ == GatewayView::from_book(config, model::BookModel::fresh(config.symbol)),
    {
        let engine = MatchingEngine::new(config.symbol);
        Gateway {
            config,
            engine,
            next_seq_no: 1,
            commands_since_snapshot: 0,
            pending: VecDeque::new(),
        }
    }

    /// Recovers a gateway from a snapshot and the log, as far as there are any, and returns the
    /// replayed events.
    pub fn recover(
        config: GatewayConfig,
        snapshot: Option<OrderBook>,
        wal: Option<Vec<Entry>>,
    ) -> (result: Result<(Gateway, Vec<EngineEvent>), GatewayError>)
        requires
            replay::recoverable(snapshot, replay::logged(wal), config.symbol),
            replay::replayed(
                replay::base(snapshot, config.symbol),
                replay::logged(wal),
            ).book.last_seq_no < u64::MAX,
        ensures
            ({
                let base = replay::base(snapshot, config.symbol);
                let entries = replay::logged(wal);
                let broken = replay::readable(entries);
                match result {
                    Ok((gateway, events)) => {
                        let done = replay::replayed(base, entries);
                        &&& broken == entries.len()
                        &&& replay::base_wf(snapshot) ==> gateway.wf()
                        &&& gateway@ == (GatewayView {
                            config,
                            book: done.book,
                            next_seq_no: (done.book.last_seq_no + 1) as u64,
                            since_snapshot: 0,
                            pending: Seq::empty(),
                        })
                        &&& gateway@ == GatewayView::from_book(config, done.book)
                        &&& events@ == done.events
                    },
                    Err(GatewayError::Wal(error)) => {
                        &&& broken < entries.len()
                        &&& replay::same_error(error, entries[broken as int]->Err_0)
                    },
                    Err(_) => false,
                }
            }),
    {
        let (engine, events) = match replay::recover(snapshot, wal, config.symbol) {
            Ok(recovered) => recovered,
            Err(error) => {
                return Err(GatewayError::Wal(error));
            },
        };
        let next_seq_no: SeqNo = engine.book.last_seq_no + 1;
        let gateway = Gateway {
            config,
            engine,
            next_seq_no,
            commands_since_snapshot: 0,
            pending: VecDeque::new(),
        };
        Ok((gateway, events))
    }

    /// Stamps a command, unless the queue is full or the payload is for another symbol.
    fn stamp(&self, timestamp: Timestamp, payload: CommandPayload) -> (result: Result<
        Command,
        GatewayError,
    >)
        ensures
            result == self@.stamped(timestamp, payload),
    {
        if self.pending.len() >= self.config.max_queue_depth {
            return Err(GatewayError::QueueFull { limit: self.config.max_queue_depth });
        }
        let got = match &payload {
            CommandPayload::New(order) => order.symbol,
            CommandPayload::Cancel(cancel) => cancel.symbol,
            CommandPayload::Replace(replace) => replace.symbol,
        };
        if got != self.config.symbol {
            return Err(GatewayError::SymbolMismatch { expected: self.config.symbol, got });
        }
        Ok(Command { seq_no: self.next_seq_no, timestamp, payload })
    }

    /// Stamps a new order with the next sequence number.
    pub fn submit_new(&self, order: NewOrder, timestamp: Timestamp) -> (result: Result<
        Command,
        GatewayError,
    >)
        ensures
            result == self@.stamped(timestamp, CommandPayload::New(order)),
    {
        self.stamp(timestamp, CommandPayload::New(order))
    }

    /// Stamps a cancel request with the next sequence number.
    pub fn submit_cancel(&self, cancel: CancelOrder, timestamp: Timestamp) -> (result: Result<
        Command,
        GatewayError,
    >)
        ensures
            result == self@.stamped(timestamp, CommandPayload::Cancel(cancel)),
    {
        self.stamp(timestamp, CommandPayload::Cancel(cancel))
    }

    /// Stamps a replace request with the next sequence number.
    pub fn submit_replace(&self, replace: ReplaceOrder, timestamp: Timestamp) -> (result: Result<
        Command,
        GatewayError,
    >)
        ensures
            result == self@.stamped(timestamp, CommandPayload::Replace(replace)),
    {
        self.stamp(timestamp, CommandPayload::Replace(replace))
    }

    /// Processes a stamped command once it was appended to the log. Where that failed, nothing
    /// happens but the error.
    pub fn process_command(&mut self, cmd: Command, logged: Result<(), ReplayError>) -> (result:
        Result<Vec<EngineEvent>, GatewayError>)
        requires
            old(self).wf(),
            cmd.seq_no == old(self)@.next_seq_no,
            logged is Ok ==> {
                &&& model::command_fits(old(self)@.book, cmd)
                &&& old(self)@.next_seq_no < u64::MAX
                &&& old(self)@.since_snapshot < u64::MAX
            },
        ensures
            final(self).wf(),
            match logged {
                Ok(_) => {
                    &&& result matches Ok(events) && events@ == model::processed(
                        old(self)@.book,
                        cmd,
                    ).events
                    &&& final(self)@ == old(self)@.advanced(cmd)
                },
                Err(error) => {
                    &&& result == Err::<Vec<EngineEvent>, _>(GatewayError::Wal(error))
                    &&& final(self)@ == old(self)@
                },
            },
            final(self)@ == old(self)@.after_logging(cmd, logged is Ok),
    {
        if let Err(error) = logged {
            return Err(GatewayError::Wal(error));
        }
        proof {
            laws::law_bbo_closes(self.engine.book@, cmd);
        }
        self.next_seq_no = self.next_seq_no + 1;
        let result = self.engine.process(&cmd);
        self.commands_since_snapshot = self.commands_since_snapshot + 1;
        Ok(result.events)
    }

    /// Whether so many commands were processed since the last snapshot that one is due.
    pub fn snapshot_due(&self) -> (due: bool)
        ensures
            due == (self@.since_snapshot >= self@.config.snapshot_interval),
            due == self@.due(),
    {
        self.commands_since_snapshot >= self.config.snapshot_interval
    }

    /// Starts counting anew once a snapshot was written. Where that failed, the snapshot stays
    /// due.
    pub fn snapshot_written(&mut self, written: Result<(), ReplayError>) -> (result: Result<
        (),
        GatewayError,
    >)
        requires
            old(self).wf(),
        ensures
            final(self).wf(),
            match written {
                Ok(_) => {
                    &&& result is Ok
                    &&& final(self)@ == (GatewayView { since_snapshot: 0, ..old(self)@ })
                },
                Err(error) => {
                    &&& result == Err::<(), _>(GatewayError::Wal(error))
                    &&& final(self)@ == old(self)@
                },
            },
            final(self)@ == old(self)@.after_writing(written is Ok),
    {
        match written {
            Ok(_) => {
                self.commands_since_snapshot = 0;
                Ok(())
            },
            Err(error) => Err(GatewayError::Wal(error)),
        }
    }

    /// Whether the gateway has room for a command: in the book, in the sequence numbers and in the
    /// count of commands.
    pub fn has_room_for(&self, cmd: &Command) -> (room: bool)
        requires
            self.wf(),
        ensures
            room == (model::command_fits(self@.book, *cmd) && self@.next_seq_no < u64::MAX
                && self@.since_snapshot < u64::MAX),
            room == self@.room_for(*cmd),
    {
        self.next_seq_no < u64::MAX && self.commands_since_snapshot < u64::MAX
            && self.engine.has_room_for(cmd)
    }

    /// The configuration.
    pub fn config(&self) -> (config: &GatewayConfig)
        ensures
            *config == self@.config,
    {
        &self.config
    }

    /// The underlying engine.
    pub fn engine(&self) -> (engine: &MatchingEngine)
        ensures
            engine.book@ == self@.book,
            self.wf() ==> engine.book.wf(),
    {
        &self.engine
    }

    /// The sequence number assigned next.
    pub fn next_seq_no(&self) -> (seq_no: SeqNo)
        ensures
            seq_no == self@.next_seq_no,
    {
        self.next_seq_no
    }
}

/// Sequence numbers are assigned without gaps: the command stamped after another one was
/// processed has the next number.
pub proof fn law_no_gaps(
    gateway: GatewayView,
    first: Command,
    timestamp: Timestamp,
    payload: CommandPayload,
)
    requires
        gateway.pending.len() < gateway.config.max_queue_depth,
        symbol_of(payload) == gateway.config.symbol,
        gateway.next_seq_no < u64::MAX,
        first.seq_no == gateway.next_seq_no,
    ensures
        gateway.advanced(first).stamped(timestamp, payload) matches Ok(cmd) && cmd.seq_no
            == first.seq_no + 1,
{
}

/// The next sequence number follows the last one that the book has processed.
pub proof fn law_next_follows_last(gateway: &Gateway)
    requires
        gateway.wf(),
    ensures
        gateway@.next_seq_no == gateway@.book.last_seq_no + 1,
        gateway@.book.last_seq_no < u64::MAX,
{
}

/// Crash safety: commands numbered without gaps and logged before they were processed are
/// recovered from the log and any snapshot taken on the way, to the book and the events that the
/// gateway had.
pub proof fn law_logged_commands_are_recovered(
    symbol: Symbol,
    cmds: Seq<Command>,
    taken_after: int,
)
    requires
        forall|i: int| 0 <= i < cmds.len() ==> (#[trigger] cmds[i]).seq_no == i + 1,
        0 <= taken_after <= cmds.len(),
    ensures
        ({
            let fresh = model::BookModel::fresh(symbol);
            let snapshot = replay::run(fresh, cmds.take(taken_after));
            let recovered = replay::replayed(
                snapshot::resumed(snapshot.book),
                replay::log_of(cmds),
            );
            &&& recovered.book == replay::run(fresh, cmds).book
            &&& snapshot.events + recovered.events == replay::run(fresh, cmds).events
        }),
{
    let fresh = model::BookModel::fresh(symbol);
    validity::lemma_fresh(symbol);
    assert(replay::sequenced(cmds, 0));
    replay::law_recovery(fresh, cmds, taken_after);
}

/// A submission is refused exactly if the queue is full or else it is for another symbol than the
/// gateway's. One that is accepted gives a command with the next sequence number, the timestamp and
/// the very request that was submitted, be it a new order, a cancel or a replace request.
pub proof fn law_submissions_are_passed_on(
    gateway: GatewayView,
    timestamp: Timestamp,
    payload: CommandPayload,
)
    ensures
        ({
            let symbol = match payload {
                CommandPayload::New(order) => order.symbol,
                CommandPayload::Cancel(cancel) => cancel.symbol,
                CommandPayload::Replace(replace) => replace.symbol,
            };
            let full = gateway.pending.len() >= gateway.config.max_queue_depth;
            match gateway.stamped(timestamp, payload) {
                Ok(cmd) => {
                    &&& !full
                    &&& symbol == gateway.config.symbol
                    &&& cmd.payload == payload
                    &&& cmd.timestamp == timestamp
                    &&& cmd.seq_no == gateway.next_seq_no
                },
                Err(GatewayError::QueueFull { limit }) => full && limit
                    == gateway.config.max_queue_depth,
                Err(GatewayError::SymbolMismatch { expected, got }) => {
                    &&& !full
                    &&& expected == gateway.config.symbol
                    &&& got == symbol
                    &&& got != expected
                },
                Err(GatewayError::Wal(_)) => false,
            }
        }),
{
}

/// A submission that is accepted and processed does what the engine does with the request under
/// the next number; nothing else of the gateway changes but the numbers that count commands.
pub proof fn law_submissions_reach_the_engine(
    gateway: GatewayView,
    timestamp: Timestamp,
    payload: CommandPayload,
)
    requires
        gateway.stamped(timestamp, payload) is Ok,
        gateway.next_seq_no < u64::MAX,
        gateway.since_snapshot < u64::MAX,
    ensures
        ({
            let cmd = gateway.stamped(timestamp, payload)->Ok_0;
            let after = gateway.advanced(cmd);
            let request = Command { seq_no: gateway.next_seq_no, timestamp: 0, payload };
            &&& after.book == model::processed(gateway.book, request).book
            &&& after.next_seq_no == gateway.next_seq_no + 1
            &&& after.since_snapshot == gateway.since_snapshot + 1
            &&& after.config == gateway.config
            &&& after.pending == gateway.pending
        }),
{
    law_submissions_are_passed_on(gateway, timestamp, payload);
    let cmd = gateway.stamped(timestamp, payload)->Ok_0;
    laws::law_timestamps_are_audit_only(gateway.book, cmd, 0);
}

/// The gateway after it processed commands one after the other.
pub open spec fn advanced_by(gateway: GatewayView, cmds: Seq<Command>) -> GatewayView
    decreases cmds.len(),
{
    if cmds.len() == 0 {
        gateway
    } else {
        advanced_by(gateway, cmds.drop_last()).advanced(cmds.last())
    }
}

/// After a snapshot was written the next one becomes due with the command that completes the
/// interval, and not before.
pub proof fn law_snapshots_keep_their_interval(gateway: GatewayView, cmds: Seq<Command>)
    requires
        cmds.len() <= u64::MAX,
    ensures
        ({
            let written = GatewayView { since_snapshot: 0, ..gateway };
            let after = advanced_by(written, cmds);
            &&& after.since_snapshot == cmds.len()
            &&& after.config == gateway.config
            &&& after.due() <==> cmds.len() >= gateway.config.snapshot_interval
            &&& after.book == replay::run(gateway.book, cmds).book
        }),
    decreases cmds.len(),
{
    if cmds.len() > 0 {
        law_snapshots_keep_their_interval(gateway, cmds.drop_last());
    }
}

/// The message of an error says which it is, with its numbers or its cause.
pub proof fn law_error_messages(error: GatewayError)
    ensures
        error_text(error) == (match error {
            GatewayError::QueueFull { limit } => "Queue full: backpressure limit of "@
                + report::digits(limit as nat) + " reached"@,
            GatewayError::Wal(cause) => "WAL error: "@ + replay::error_text(cause),
            GatewayError::SymbolMismatch { expected, got } => "Symbol mismatch: expected "@
                + report::digits(expected as nat) + ", got "@ + report::digits(got as nat),
        }),
{
}

/// A gateway that continues from a book has nothing queued and assigns the number after the last
/// that the book has processed, so 1 if the book is empty and new. Its first snapshot becomes due
/// after as many commands as the interval says.
pub proof fn law_gateways_start(
    config: GatewayConfig,
    book: model::BookModel,
    symbol: Symbol,
    cmds: Seq<Command>,
)
    requires
        book.last_seq_no < u64::MAX,
        cmds.len() <= u64::MAX,
    ensures
        ({
            let gateway = GatewayView::from_book(config, book);
            let fresh = GatewayView::from_book(config, model::BookModel::fresh(symbol));
            &&& gateway.config == config
            &&& gateway.book == book
            &&& gateway.pending.len() == 0
            &&& gateway.next_seq_no == book.last_seq_no + 1
            &&& fresh.next_seq_no == 1
            &&& fresh.book.orders.dom().is_empty()
            &&& advanced_by(gateway, cmds).due() <==> cmds.len() >= config.snapshot_interval
        }),
{
    let gateway = GatewayView::from_book(config, book);
    law_snapshots_keep_their_interval(gateway, cmds);
}

/// A command that could not be logged changes nothing of the gateway, and neither does a snapshot
/// that could not be written: the command can be submitted again under the same number, and the
/// snapshot stays due. One that was written changes nothing but that the count starts again.
pub proof fn law_failures_change_nothing(gateway: GatewayView, cmd: Command)
    ensures
        gateway.after_logging(cmd, false) == gateway,
        gateway.after_logging(cmd, true).book == model::processed(gateway.book, cmd).book,
        gateway.after_writing(false) == gateway,
        ({
            let written = gateway.after_writing(true);
            &&& written.due() <==> gateway.config.snapshot_interval == 0
            &&& written.book == gateway.book
            &&& written.next_seq_no == gateway.next_seq_no
            &&& written.pending == gateway.pending
            &&& written.config == gateway.config
        }),
{
}

/// A gateway has room for a command while its counters can grow and the book can take the quantity
/// that the command brings, whatever the command.
pub proof fn law_gateways_have_room(gateway: GatewayView, cmd: Command)
    requires
        model::valid(gateway.book),
        gateway.next_seq_no < u64::MAX,
        gateway.since_snapshot < u64::MAX,
        capacity::load_within(gateway.book, u64::MAX - capacity::demand(cmd)),
    ensures
        gateway.room_for(cmd),
{
    capacity::law_capacity(gateway.book, cmd, u64::MAX - capacity::demand(cmd));
}

} // verus!
