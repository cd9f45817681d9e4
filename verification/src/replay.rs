//! Write-ahead log, snapshots, and deterministic replay and recovery.
//!
//! Every command is appended to the log before it is processed, one entry per line. A snapshot
//! is the order book at some point, with the last sequence number it has processed. Recovery
//! starts from the snapshot and replays the entries of the log with later sequence numbers.
//!
//! Entries are text here: what reads and writes files also turns commands into text and back.
use crate::book::OrderBook;
use crate::capacity;
use crate::crossing;
use crate::laws;
use crate::matcher::MatchingEngine;
use crate::model;
use crate::model::{BookModel, Step};
use crate::report;
use crate::snapshot;
use crate::trial;
use crate::types::{Command, EngineEvent, OrderId, OrderState, Qty, SeqNo, Symbol};
use crate::validity;
use vstd::prelude::*;

verus! {

/// Why a log or a snapshot could not be used.
#[derive(Debug, Clone, PartialEq, Eq)]
pub enum ReplayError {
    /// File system error.
    Io(String),
    /// Text that is no command or no order book.
    Json(String),
    /// Binary serialization error.
    Bincode(String),
    /// Gap in the sequence numbers.
    SequenceGap { expected: SeqNo, got: SeqNo },
}

/// The words for an error.
pub open spec fn error_text(error: ReplayError) -> Seq<char> {
    match error {
        ReplayError::Io(cause) => "IO error: "@ + cause@,
        ReplayError::Json(cause) => "JSON serialization error: "@ + cause@,
        ReplayError::Bincode(cause) => "Bincode error: "@ + cause@,
        ReplayError::SequenceGap { expected, got } => "Sequence gap: expected > "@ + report::digits(
            expected as nat,
        ) + ", got "@ + report::digits(got as nat),
    }
}

impl ReplayError {
    /// The error's message.
    pub fn message(&self) -> (message: String)
        ensures
            message@ == error_text(*self),
    {
        let mut message: String;
        match self {
            ReplayError::Io(cause) => {
                message = "IO error: ".to_owned();
                message.append(cause.as_str());
            },
            ReplayError::Json(cause) => {
                message = "JSON serialization error: ".to_owned();
                message.append(cause.as_str());
            },
            ReplayError::Bincode(cause) => {
                message = "Bincode error: ".to_owned();
                message.append(cause.as_str());
            },
            ReplayError::SequenceGap { expected, got } => {
                message = "Sequence gap: expected > ".to_owned();
                message.append(report::decimal(*expected).as_str());
                message.append(", got ");
                message.append(report::decimal(*got).as_str());
            },
        }
        message
    }
}

/// An entry of the log as it was read.
pub type Entry = Result<Command, ReplayError>;

// ---------------------------------------------------------------------------
// Replay
// ---------------------------------------------------------------------------

/// Processes commands one after the other.
pub open spec fn run(book: BookModel, cmds: Seq<Command>) -> Step
    decreases cmds.len(),
{
    if cmds.len() == 0 {
        Step { book, events: Seq::empty() }
    } else {
        let before = run(book, cmds.drop_last());
        let step = model::processed(before.book, cmds.last());
        Step { book: step.book, events: before.events + step.events }
    }
}

/// No level's quantity exceeds a `Qty` while the commands are processed.
pub open spec fn run_fits(book: BookModel, cmds: Seq<Command>) -> bool
    decreases cmds.len(),
{
    cmds.len() == 0 || {
        &&& run_fits(book, cmds.drop_last())
        &&& model::command_fits(run(book, cmds.drop_last()).book, cmds.last())
    }
}

/// The commands with a sequence number after `start`.
pub open spec fn after(cmds: Seq<Command>, start: SeqNo) -> Seq<Command>
    decreases cmds.len(),
{
    if cmds.len() == 0 {
        Seq::empty()
    } else if cmds.last().seq_no <= start {
        after(cmds.drop_last(), start)
    } else {
        after(cmds.drop_last(), start).push(cmds.last())
    }
}

/// Number of entries before the first that could not be read.
pub open spec fn readable(entries: Seq<Entry>) -> nat
    decreases entries.len(),
{
    if entries.len() == 0 || entries[0] is Err {
        0
    } else {
        1 + readable(entries.drop_first())
    }
}

/// The commands before the first entry that could not be read.
pub open spec fn commands(entries: Seq<Entry>) -> Seq<Command> {
    Seq::new(readable(entries), |i: int| entries[i]->Ok_0)
}

/// What replaying the log onto a book gives.
pub open spec fn replayed(book: BookModel, entries: Seq<Entry>) -> Step {
    run(book, after(commands(entries), book.last_seq_no))
}

/// No level's quantity exceeds a `Qty` while the log is replayed.
pub open spec fn replay_fits(book: BookModel, entries: Seq<Entry>) -> bool {
    run_fits(book, after(commands(entries), book.last_seq_no))
}

/// The log can be replayed onto a book: no command is to be processed, or the book keeps its
/// invariant and no level's quantity exceeds a `Qty`.
pub open spec fn replayable(book: OrderBook, entries: Seq<Entry>) -> bool {
    after(commands(entries), book.last_seq_no).len() > 0 ==> book.wf() && replay_fits(
        book@,
        entries,
    )
}

/// The entries before the first that could not be read, and that one.
proof fn lemma_readable(entries: Seq<Entry>)
    ensures
        readable(entries) <= entries.len(),
        forall|i: int| 0 <= i < readable(entries) ==> #[trigger] entries[i] is Ok,
        readable(entries) < entries.len() ==> entries[readable(entries) as int] is Err,
    decreases entries.len(),
{
    if entries.len() > 0 && !(entries[0] is Err) {
        let rest = entries.drop_first();
        lemma_readable(rest);
        assert forall|i: int| 0 <= i < readable(entries) implies #[trigger] entries[i] is Ok by {
            if i > 0 {
                assert(entries[i] == rest[i - 1]);
            }
        }
    }
}

/// Running a prefix fits if running all fits.
proof fn lemma_run_fits_prefix(book: BookModel, cmds: Seq<Command>, n: int)
    requires
        run_fits(book, cmds),
        0 <= n <= cmds.len(),
    ensures
        run_fits(book, cmds.take(n)),
    decreases cmds.len(),
{
    if n == cmds.len() {
        assert(cmds.take(n) =~= cmds);
    } else {
        lemma_run_fits_prefix(book, cmds.drop_last(), n);
        assert(cmds.drop_last().take(n) =~= cmds.take(n));
    }
}

/// The later commands of a prefix are a prefix of the later commands.
proof fn lemma_after_prefix(cmds: Seq<Command>, start: SeqNo, n: int)
    requires
        0 <= n <= cmds.len(),
    ensures
        after(cmds.take(n), start).len() <= after(cmds, start).len(),
        after(cmds, start).take(after(cmds.take(n), start).len() as int) == after(
            cmds.take(n),
            start,
        ),
    decreases cmds.len(),
{
    let part = after(cmds.take(n), start);
    if n == cmds.len() {
        assert(cmds.take(n) =~= cmds);
        assert(part.take(part.len() as int) =~= part);
    } else {
        let shorter = cmds.drop_last();
        lemma_after_prefix(shorter, start, n);
        assert(shorter.take(n) =~= cmds.take(n));
        assert(after(cmds, start).take(part.len() as int) =~= after(shorter, start).take(
            part.len() as int,
        ));
    }
}

/// Replays log entries onto an engine and returns the events.
///
/// Only commands with a sequence number after the engine's last are processed. The first entry
/// that could not be read ends the replay with its error.
pub fn replay_wal(engine: &mut MatchingEngine, entries: &Vec<Entry>) -> (result: Result<
    Vec<EngineEvent>,
    ReplayError,
>)
    requires
        replayable(old(engine).book, entries@),
    ensures
        final(engine).book@ == replayed(old(engine).book@, entries@).book,
        old(engine).book.wf() ==> final(engine).book.wf(),
        after(commands(entries@), old(engine).book.last_seq_no).len() == 0 ==> *final(engine)
            == *old(engine),
        match result {
            Ok(events) => {
                &&& readable(entries@) == entries@.len()
                &&& events@ == replayed(old(engine).book@, entries@).events
            },
            Err(error) => {
                &&& readable(entries@) < entries@.len()
                &&& same_error(error, entries@[readable(entries@) as int]->Err_0)
            },
        },
{
    let start_seq = engine.book.last_seq_no;
    let ghost start = engine.book@;
    let ghost cmds = commands(entries@);
    let ghost later = after(cmds, start_seq);
    let mut all_events: Vec<EngineEvent> = Vec::new();
    let mut i: usize = 0;
    proof {
        lemma_readable(entries@);
        assert(cmds.take(0) =~= Seq::empty());
    }
    while i < entries.len()
        invariant
            i <= readable(entries@) <= entries@.len(),
            forall|j: int| 0 <= j < readable(entries@) ==> #[trigger] entries@[j] is Ok,
            readable(entries@) < entries@.len() ==> entries@[readable(entries@) as int] is Err,
            cmds == commands(entries@),
            later == after(cmds, start_seq),
            start == old(engine).book@,
            start_seq == start.last_seq_no,
            later.len() > 0 ==> old(engine).book.wf() && run_fits(start, later),
            old(engine).book.wf() ==> engine.book.wf(),
            later.len() == 0 ==> *engine == *old(engine),
            engine.book@ == run(start, after(cmds.take(i as int), start_seq)).book,
            all_events@ == run(start, after(cmds.take(i as int), start_seq)).events,
        decreases entries@.len() - i,
    {
        let ghost before = after(cmds.take(i as int), start_seq);
        match &entries[i] {
            Ok(cmd) => {
                proof {
                    assert(cmds.take(i + 1).drop_last() =~= cmds.take(i as int));
                    assert(cmds.take(i + 1).last() == *cmd);
                    lemma_after_prefix(cmds, start_seq, i + 1);
                }
                if cmd.seq_no > start_seq {
                    let ghost next = after(cmds.take(i + 1), start_seq);
                    proof {
                        lemma_run_fits_prefix(start, later, next.len() as int);
                        assert(next.drop_last() =~= before);
                    }
                    let mut result = engine.process(cmd);
                    all_events.append(&mut result.events);
                }
                i = i + 1;
            },
            Err(error) => {
                assert(cmds.take(i as int) =~= cmds);
                return Err(copy_of(error));
            },
        }
    }
    assert(cmds.take(i as int) =~= cmds);
    Ok(all_events)
}

/// Two errors are of the same kind and say the same.
pub open spec fn same_error(a: ReplayError, b: ReplayError) -> bool {
    match (a, b) {
        (ReplayError::Io(x), ReplayError::Io(y)) => x@ == y@,
        (ReplayError::Json(x), ReplayError::Json(y)) => x@ == y@,
        (ReplayError::Bincode(x), ReplayError::Bincode(y)) => x@ == y@,
        (ReplayError::SequenceGap { .. }, ReplayError::SequenceGap { .. }) => a == b,
        _ => false,
    }
}

/// A copy of an error.
fn copy_of(error: &ReplayError) -> (copy: ReplayError)
    ensures
        same_error(copy, *error),
{
    match error {
        ReplayError::Io(text) => ReplayError::Io(text.clone()),
        ReplayError::Json(text) => ReplayError::Json(text.clone()),
        ReplayError::Bincode(text) => ReplayError::Bincode(text.clone()),
        ReplayError::SequenceGap { expected, got } => ReplayError::SequenceGap {
            expected: *expected,
            got: *got,
        },
    }
}

/// Puts an order book read from a snapshot into an engine. Open stop orders that the snapshot has
/// in no queue and not among its waiting orders wait.
pub fn load_snapshot(book: OrderBook) -> (result: Result<MatchingEngine, ReplayError>)
    ensures
        result matches Ok(engine) && {
            &&& engine.book@ == snapshot::resumed(book@)
            &&& engine.book.bids == book.bids
            &&& engine.book.asks == book.asks
            &&& engine.book.wf() == snapshot::resumable(book)
        },
{
    Ok(MatchingEngine { book: book.resume() })
}

/// The book from which recovery starts.
pub open spec fn base(snapshot: Option<OrderBook>, symbol: Symbol) -> BookModel {
    match snapshot {
        Some(book) => snapshot::resumed(book@),
        None => BookModel::fresh(symbol),
    }
}

/// The book from which recovery starts keeps the book's invariant.
pub open spec fn base_wf(snapshot: Option<OrderBook>) -> bool {
    snapshot matches Some(book) ==> snapshot::resumable(book)
}

/// Recovery is possible: no command is to be processed, or the book from which it starts keeps
/// its invariant and no level's quantity exceeds a `Qty`.
pub open spec fn recoverable(
    snapshot: Option<OrderBook>,
    entries: Seq<Entry>,
    symbol: Symbol,
) -> bool {
    let start = base(snapshot, symbol);
    after(commands(entries), start.last_seq_no).len() > 0 ==> base_wf(snapshot) && replay_fits(
        start,
        entries,
    )
}

/// The entries of a log, none where there is no log.
pub open spec fn logged(wal: Option<Vec<Entry>>) -> Seq<Entry> {
    match wal {
        Some(entries) => entries@,
        None => Seq::empty(),
    }
}

/// Full recovery: starts from the snapshot, or an empty book if there is none, and replays the
/// log, if there is one.
pub fn recover(snapshot: Option<OrderBook>, wal: Option<Vec<Entry>>, symbol: Symbol) -> (result:
    Result<(MatchingEngine, Vec<EngineEvent>), ReplayError>)
    requires
        recoverable(snapshot, logged(wal), symbol),
    ensures
        match result {
            Ok((engine, events)) => {
                let start = base(snapshot, symbol);
                &&& readable(logged(wal)) == logged(wal).len()
                &&& engine.book@ == replayed(start, logged(wal)).book
                &&& events@ == replayed(start, logged(wal)).events
                &&& base_wf(snapshot) ==> engine.book.wf()
                &&& after(commands(logged(wal)), start.last_seq_no).len() == 0 ==> match snapshot {
                    Some(book) => engine.book.bids == book.bids && engine.book.asks == book.asks,
                    None => true,
                }
            },
            Err(error) => {
                &&& readable(logged(wal)) < logged(wal).len()
                &&& same_error(error, logged(wal)[readable(logged(wal)) as int]->Err_0)
            },
        },
{
    let mut engine = match snapshot {
        Some(book) => match load_snapshot(book) {
            Ok(engine) => engine,
            Err(error) => {
                return Err(error);
            },
        },
        None => MatchingEngine::new(symbol),
    };
    match wal {
        Some(entries) => match replay_wal(&mut engine, &entries) {
            Ok(events) => Ok((engine, events)),
            Err(error) => Err(error),
        },
        None => {
            proof {
                let none = Seq::<Entry>::empty();
                assert(commands(none) =~= Seq::empty());
                assert(after(commands(none), engine.book@.last_seq_no) =~= Seq::empty());
            }
            let events: Vec<EngineEvent> = Vec::new();
            Ok((engine, events))
        },
    }
}

/// Whether the log holds a command to process after `start`.
fn has_later(entries: &Vec<Entry>, start: SeqNo) -> (has: bool)
    ensures
        has == (after(commands(entries@), start).len() > 0),
{
    let ghost cmds = commands(entries@);
    let mut i: usize = 0;
    proof {
        lemma_readable(entries@);
        assert(cmds.take(0) =~= Seq::empty());
    }
    while i < entries.len() && entries[i].is_ok()
        invariant
            i <= readable(entries@) <= entries@.len(),
            forall|j: int| 0 <= j < readable(entries@) ==> #[trigger] entries@[j] is Ok,
            readable(entries@) < entries@.len() ==> entries@[readable(entries@) as int] is Err,
            cmds == commands(entries@),
            after(cmds.take(i as int), start).len() == 0,
        ensures
            i == readable(entries@),
            after(cmds.take(i as int), start).len() == 0,
        decreases entries@.len() - i,
    {
        if let Ok(cmd) = &entries[i] {
            proof {
                assert(cmds.take(i + 1).drop_last() =~= cmds.take(i as int));
                assert(cmds.take(i + 1).last() == *cmd);
                lemma_after_prefix(cmds, start, i + 1);
            }
            if cmd.seq_no > start {
                return true;
            }
        }
        i = i + 1;
    }
    assert(cmds.take(i as int) =~= cmds);
    false
}

/// Whether the log can be replayed onto the engine.
pub fn has_room_for_all(engine: &MatchingEngine, entries: &Vec<Entry>) -> (room: bool)
    ensures
        room == replayable(engine.book, entries@),
{
    let start_seq = engine.book.last_seq_no;
    if !has_later(entries, start_seq) {
        return true;
    }
    if !engine.book.is_consistent() {
        return false;
    }
    if has_ample_room(engine, entries) {
        return true;
    }
    let ghost start = engine.book@;
    let ghost cmds = commands(entries@);
    let ghost later = after(cmds, start_seq);
    let mut trial = MatchingEngine { book: trial::copy_book(&engine.book) };
    let mut i: usize = 0;
    proof {
        lemma_readable(entries@);
        assert(cmds.take(0) =~= Seq::empty());
    }
    while i < entries.len() && entries[i].is_ok()
        invariant
            i <= readable(entries@) <= entries@.len(),
            forall|j: int| 0 <= j < readable(entries@) ==> #[trigger] entries@[j] is Ok,
            readable(entries@) < entries@.len() ==> entries@[readable(entries@) as int] is Err,
            cmds == commands(entries@),
            later == after(cmds, start_seq),
            start == engine.book@,
            start_seq == start.last_seq_no,
            later.len() > 0,
            trial.book.wf(),
            trial.book@ == run(start, after(cmds.take(i as int), start_seq)).book,
            run_fits(start, after(cmds.take(i as int), start_seq)),
        ensures
            i == readable(entries@),
            run_fits(start, after(cmds.take(i as int), start_seq)),
        decreases entries@.len() - i,
    {
        if let Ok(cmd) = &entries[i] {
            let ghost before = after(cmds.take(i as int), start_seq);
            let ghost next = after(cmds.take(i + 1), start_seq);
            proof {
                assert(cmds.take(i + 1).drop_last() =~= cmds.take(i as int));
                assert(cmds.take(i + 1).last() == *cmd);
                lemma_after_prefix(cmds, start_seq, i + 1);
            }
            if cmd.seq_no > start_seq {
                assert(next.drop_last() =~= before);
                if !trial.try_process(cmd) {
                    proof {
                        if run_fits(start, later) {
                            lemma_run_fits_prefix(start, later, next.len() as int);
                        }
                    }
                    return false;
                }
            }
        }
        i = i + 1;
    }
    assert(cmds.take(i as int) =~= cmds);
    true
}

/// Whether the engine's book has room for all that the log brings, whatever becomes of it.
fn has_ample_room(engine: &MatchingEngine, entries: &Vec<Entry>) -> (room: bool)
    requires
        engine.book.wf(),
    ensures
        room ==> replay_fits(engine.book@, entries@),
{
    let start_seq = engine.book.last_seq_no;
    let ghost cmds = commands(entries@);
    let ghost later = after(cmds, start_seq);
    let mut total: Qty = 0;
    let mut i: usize = 0;
    proof {
        lemma_readable(entries@);
        assert(cmds.take(0) =~= Seq::empty());
    }
    while i < entries.len() && entries[i].is_ok()
        invariant
            i <= readable(entries@) <= entries@.len(),
            forall|j: int| 0 <= j < readable(entries@) ==> #[trigger] entries@[j] is Ok,
            readable(entries@) < entries@.len() ==> entries@[readable(entries@) as int] is Err,
            cmds == commands(entries@),
            start_seq == engine.book@.last_seq_no,
            later == after(cmds, start_seq),
            total == capacity::total_demand(after(cmds.take(i as int), start_seq)),
        ensures
            i == readable(entries@),
            total == capacity::total_demand(after(cmds.take(i as int), start_seq)),
        decreases entries@.len() - i,
    {
        if let Ok(cmd) = &entries[i] {
            proof {
                assert(cmds.take(i + 1).drop_last() =~= cmds.take(i as int));
                assert(cmds.take(i + 1).last() == *cmd);
                lemma_after_prefix(cmds, start_seq, i + 1);
            }
            if cmd.seq_no > start_seq {
                let ghost next = after(cmds.take(i + 1), start_seq);
                proof {
                    assert(next.drop_last() =~= after(cmds.take(i as int), start_seq));
                    lemma_demand_prefix(later, next.len() as int);
                }
                let qty = capacity::quantity_of(cmd);
                if qty > u64::MAX - total {
                    return false;
                }
                total = total + qty;
            }
        }
        i = i + 1;
    }
    assert(cmds.take(i as int) =~= cmds);
    let room = engine.book.has_room(total);
    proof {
        if room {
            law_capacity_of_runs(engine.book@, later, u64::MAX - total);
        }
    }
    room
}

/// A part of the commands brings no more than all of them.
proof fn lemma_demand_prefix(cmds: Seq<Command>, n: int)
    requires
        0 <= n <= cmds.len(),
    ensures
        capacity::total_demand(cmds.take(n)) <= capacity::total_demand(cmds),
    decreases cmds.len(),
{
    if n == cmds.len() {
        assert(cmds.take(n) =~= cmds);
    } else {
        lemma_demand_prefix(cmds.drop_last(), n);
        assert(cmds.drop_last().take(n) =~= cmds.take(n));
    }
}

/// Running commands keeps the book valid.
pub proof fn lemma_run_valid(book: BookModel, cmds: Seq<Command>)
    requires
        model::valid(book),
    ensures
        model::valid(run(book, cmds).book),
    decreases cmds.len(),
{
    if cmds.len() > 0 {
        lemma_run_valid(book, cmds.drop_last());
        validity::lemma_processed(run(book, cmds.drop_last()).book, cmds.last());
    }
}

/// Commands that bring no more than what is left below the largest `Qty` fit, one after the
/// other.
pub proof fn law_capacity_of_runs(book: BookModel, cmds: Seq<Command>, limit: int)
    requires
        model::valid(book),
        capacity::load_within(book, limit),
        limit + capacity::total_demand(cmds) <= u64::MAX,
    ensures
        run_fits(book, cmds),
        capacity::load_within(run(book, cmds).book, limit + capacity::total_demand(cmds)),
    decreases cmds.len(),
{
    if cmds.len() > 0 {
        let before = cmds.drop_last();
        law_capacity_of_runs(book, before, limit);
        lemma_run_valid(book, before);
        capacity::law_capacity(
            run(book, before).book,
            cmds.last(),
            limit + capacity::total_demand(before),
        );
    }
}

// ---------------------------------------------------------------------------
// Determinism
// ---------------------------------------------------------------------------

/// Sequence numbers rise from command to command, all of them after `start`.
pub open spec fn sequenced(cmds: Seq<Command>, start: SeqNo) -> bool {
    &&& forall|i: int| 0 <= i < cmds.len() ==> (#[trigger] cmds[i]).seq_no > start
    &&& forall|i: int, j: int|
        0 <= i < j < cmds.len() ==> (#[trigger] cmds[i]).seq_no < (#[trigger] cmds[j]).seq_no
}

/// Running one part of the commands and then the rest is running them all.
pub proof fn law_runs_compose(book: BookModel, first: Seq<Command>, rest: Seq<Command>)
    ensures
        ({
            let middle = run(book, first);
            let end = run(middle.book, rest);
            run(book, first + rest) == (Step {
                book: end.book,
                events: middle.events + end.events,
            })
        }),
    decreases rest.len(),
{
    let middle = run(book, first);
    if rest.len() == 0 {
        assert(first + rest =~= first);
        assert(middle.events + Seq::<EngineEvent>::empty() =~= middle.events);
    } else {
        law_runs_compose(book, first, rest.drop_last());
        assert((first + rest).drop_last() =~= first + rest.drop_last());
        let part = run(middle.book, rest.drop_last());
        let step = model::processed(part.book, rest.last());
        assert((middle.events + part.events) + step.events =~= middle.events + (part.events
            + step.events));
    }
}

/// A book that ran sequenced commands has the last one's sequence number.
proof fn lemma_run_seq_no(book: BookModel, cmds: Seq<Command>)
    requires
        model::valid(book),
    ensures
        run(book, cmds).book.last_seq_no == if cmds.len() == 0 {
            book.last_seq_no
        } else {
            cmds.last().seq_no
        },
{
    if cmds.len() > 0 {
        lemma_run_valid(book, cmds.drop_last());
        laws::law_bbo_closes(run(book, cmds.drop_last()).book, cmds.last());
    }
}

/// Of sequenced commands, those after the first `n` are the ones to replay.
proof fn lemma_after_sequenced(cmds: Seq<Command>, start: SeqNo, n: int, mark: SeqNo)
    requires
        sequenced(cmds, start),
        0 <= n <= cmds.len(),
        mark == if n == 0 {
            start
        } else {
            cmds[n - 1].seq_no
        },
    ensures
        after(cmds, mark) == cmds.skip(n),
    decreases cmds.len(),
{
    if cmds.len() > n {
        let shorter = cmds.drop_last();
        assert(sequenced(shorter, start)) by {
            assert forall|i: int| 0 <= i < shorter.len() implies (#[trigger] shorter[i]).seq_no
                > start by {
                assert(cmds[i].seq_no > start);
            }
            assert forall|i: int, j: int| 0 <= i < j < shorter.len() implies (
            #[trigger] shorter[i]).seq_no < (#[trigger] shorter[j]).seq_no by {
                assert(cmds[i].seq_no < cmds[j].seq_no);
            }
        }
        lemma_after_sequenced(shorter, start, n, mark);
        if n > 0 {
            assert(cmds[n - 1].seq_no < cmds[cmds.len() - 1].seq_no);
        } else {
            assert(cmds[cmds.len() - 1].seq_no > start);
        }
        assert(shorter.skip(n).push(cmds.last()) =~= cmds.skip(n));
    } else {
        lemma_none_after(cmds, mark);
        assert(cmds.skip(n) =~= Seq::empty());
    }
}

proof fn lemma_none_after(cmds: Seq<Command>, mark: SeqNo)
    requires
        forall|i: int| 0 <= i < cmds.len() ==> (#[trigger] cmds[i]).seq_no <= mark,
    ensures
        after(cmds, mark) == Seq::<Command>::empty(),
    decreases cmds.len(),
{
    if cmds.len() > 0 {
        let shorter = cmds.drop_last();
        assert forall|i: int| 0 <= i < shorter.len() implies (#[trigger] shorter[i]).seq_no
            <= mark by {
            assert(cmds[i].seq_no <= mark);
        }
        assert(cmds[cmds.len() - 1].seq_no <= mark);
        lemma_none_after(shorter, mark);
    }
}

/// The entries of a log in which every command could be read.
pub open spec fn log_of(cmds: Seq<Command>) -> Seq<Entry> {
    cmds.map_values(|cmd: Command| -> Entry { Ok(cmd) })
}

proof fn lemma_log_of(cmds: Seq<Command>)
    ensures
        readable(log_of(cmds)) == cmds.len(),
        commands(log_of(cmds)) == cmds,
    decreases cmds.len(),
{
    if cmds.len() > 0 {
        lemma_log_of(cmds.drop_first());
        assert(log_of(cmds).drop_first() =~= log_of(cmds.drop_first()));
    }
    assert(commands(log_of(cmds)) =~= cmds);
}

/// Recovery: whenever the snapshot was taken, the snapshot and the whole log give the book of
/// the original run, and exactly the events that followed the snapshot.
pub proof fn law_recovery(book: BookModel, cmds: Seq<Command>, taken_after: int)
    requires
        model::valid(book),
        sequenced(cmds, book.last_seq_no),
        0 <= taken_after <= cmds.len(),
    ensures
        ({
            let original = run(book, cmds);
            let snapshot = run(book, cmds.take(taken_after));
            let recovered = replayed(snapshot::resumed(snapshot.book), log_of(cmds));
            &&& recovered.book == original.book
            &&& snapshot.events + recovered.events == original.events
        }),
{
    let first = cmds.take(taken_after);
    let snapshot = run(book, first);
    lemma_run_valid(book, first);
    snapshot::law_valid_books_stay(snapshot.book);
    lemma_log_of(cmds);
    lemma_run_seq_no(book, first);
    lemma_after_sequenced(cmds, book.last_seq_no, taken_after, snapshot.book.last_seq_no);
    law_runs_compose(book, first, cmds.skip(taken_after));
    assert(first + cmds.skip(taken_after) =~= cmds);
}

/// Determinism: replaying the log of a run onto the book it started from gives the same book and
/// the same events.
pub proof fn law_replay_is_the_run(book: BookModel, cmds: Seq<Command>)
    requires
        model::valid(book),
        sequenced(cmds, book.last_seq_no),
    ensures
        replayed(book, log_of(cmds)) == run(book, cmds),
{
    lemma_log_of(cmds);
    lemma_after_sequenced(cmds, book.last_seq_no, 0, book.last_seq_no);
    assert(cmds.skip(0) =~= cmds);
}

/// Replaying a log a second time changes nothing.
pub proof fn law_replay_is_idempotent(book: BookModel, cmds: Seq<Command>)
    requires
        model::valid(book),
        sequenced(cmds, book.last_seq_no),
    ensures
        ({
            let once = replayed(book, log_of(cmds));
            replayed(once.book, log_of(cmds)) == (Step { book: once.book, events: Seq::empty() })
        }),
{
    law_replay_is_the_run(book, cmds);
    law_recovery(book, cmds, cmds.len() as int);
    let once = run(book, cmds);
    lemma_run_valid(book, cmds);
    snapshot::law_valid_books_stay(once.book);
    assert(cmds.take(cmds.len() as int) =~= cmds);
    let twice = replayed(once.book, log_of(cmds));
    assert(once.events + twice.events == once.events);
    assert(twice.events.len() == 0);
    assert(twice.events =~= Seq::empty());
}

/// A book never becomes crossed, whatever the commands.
pub proof fn law_runs_stay_uncrossed(symbol: Symbol, cmds: Seq<Command>)
    ensures
        model::uncrossed(run(BookModel::fresh(symbol), cmds).book),
    decreases cmds.len(),
{
    let fresh = BookModel::fresh(symbol);
    validity::lemma_fresh(symbol);
    if cmds.len() == 0 {
        crossing::lemma_apart(fresh);
    } else {
        let before = cmds.drop_last();
        law_runs_stay_uncrossed(symbol, before);
        lemma_run_valid(fresh, before);
        crossing::law_uncrossed(run(fresh, before).book, cmds.last());
    }
}

/// Between commands a book is always at rest: valid, with no waiting order that may enter.
pub proof fn law_runs_stay_at_rest(symbol: Symbol, cmds: Seq<Command>)
    ensures
        laws::at_rest(run(BookModel::fresh(symbol), cmds).book),
{
    let fresh = BookModel::fresh(symbol);
    validity::lemma_fresh(symbol);
    if cmds.len() > 0 {
        lemma_run_valid(fresh, cmds.drop_last());
        laws::law_at_rest(symbol, run(fresh, cmds.drop_last()).book, cmds.last());
    }
}

/// Which commands of a log are replayed: of each command alone, exactly if its number is after the
/// start; of two parts of a log, those of the first and then those of the second.
pub proof fn law_later_commands_are_replayed(
    first: Seq<Command>,
    rest: Seq<Command>,
    cmd: Command,
    start: SeqNo,
)
    ensures
        after(Seq::empty(), start) == Seq::<Command>::empty(),
        after(seq![cmd], start) == if cmd.seq_no > start {
            seq![cmd]
        } else {
            Seq::empty()
        },
        after(first + rest, start) == after(first, start) + after(rest, start),
    decreases rest.len(),
{
    assert(seq![cmd].drop_last() =~= Seq::empty());
    assert(after(seq![cmd].drop_last(), start) =~= Seq::empty());
    assert(after(seq![cmd], start) =~= if cmd.seq_no > start {
        seq![cmd]
    } else {
        Seq::empty()
    });
    if rest.len() == 0 {
        assert(first + rest =~= first);
        assert(after(first, start) + after(rest, start) =~= after(first, start));
    } else {
        law_later_commands_are_replayed(first, rest.drop_last(), cmd, start);
        assert((first + rest).drop_last() =~= first + rest.drop_last());
        assert((first + rest).last() == rest.last());
        assert(after(first + rest, start) =~= after(first, start) + after(rest, start));
    }
}

/// Running no command changes nothing; running one is processing it.
pub proof fn law_runs_are_commands_processed(book: BookModel, cmd: Command)
    ensures
        run(book, Seq::empty()) == (Step { book, events: Seq::empty() }),
        run(book, seq![cmd]) == model::processed(book, cmd),
{
    assert(seq![cmd].drop_last() =~= Seq::empty());
    assert(run(book, seq![cmd].drop_last()) == Step { book, events: Seq::<EngineEvent>::empty() });
    let step = model::processed(book, cmd);
    assert(Seq::<EngineEvent>::empty() + step.events =~= step.events);
}

/// A log is read up to its first entry that could not be read, and every command before it counts.
pub proof fn law_logs_are_read_up_to_an_error(
    cmds: Seq<Command>,
    error: ReplayError,
    rest: Seq<Entry>,
)
    ensures
        ({
            let broken = log_of(cmds).push(Err::<Command, ReplayError>(error)) + rest;
            &&& readable(broken) == cmds.len()
            &&& commands(broken) == cmds
            &&& readable(log_of(cmds)) == cmds.len()
            &&& commands(log_of(cmds)) == cmds
        }),
    decreases cmds.len(),
{
    let broken = log_of(cmds).push(Err::<Command, ReplayError>(error)) + rest;
    lemma_log_of(cmds);
    if cmds.len() > 0 {
        law_logs_are_read_up_to_an_error(cmds.drop_first(), error, rest);
        assert(broken.drop_first() =~= log_of(cmds.drop_first()).push(
            Err::<Command, ReplayError>(error),
        ) + rest);
    }
    assert(commands(broken) =~= cmds);
}

/// The book from which recovery starts is that of the snapshot, or an empty book of the symbol.
pub proof fn law_recovery_starts_from_the_snapshot(book: OrderBook, symbol: Symbol)
    requires
        model::valid(book@),
    ensures
        base(Some(book), symbol) == book@,
        ({
            let fresh = base(None, symbol);
            &&& fresh.symbol == symbol
            &&& fresh.last_seq_no == 0
            &&& fresh.orders == Map::<OrderId, OrderState>::empty()
            &&& fresh.waiting.len() == 0
            &&& model::valid(fresh)
        }),
{
    snapshot::law_valid_books_stay(book@);
    validity::lemma_fresh(symbol);
}

/// The message of an error says which it is, with its numbers or its cause.
pub proof fn law_error_messages(error: ReplayError)
    ensures
        error_text(error) == (match error {
            ReplayError::Io(cause) => "IO error: "@ + cause@,
            ReplayError::Json(cause) => "JSON serialization error: "@ + cause@,
            ReplayError::Bincode(cause) => "Bincode error: "@ + cause@,
            ReplayError::SequenceGap { expected, got } => "Sequence gap: expected > "@
                + report::digits(expected as nat) + ", got "@ + report::digits(got as nat),
        }),
{
}

/// A log can be replayed onto a book if nothing of it is to be processed, or if the book keeps its
/// invariant and has room for all that the log brings. So can it be in recovery.
pub proof fn law_logs_can_be_replayed(book: OrderBook, entries: Seq<Entry>, symbol: Symbol)
    ensures
        ({
            let later = after(commands(entries), book.last_seq_no);
            later.len() == 0 || (book.wf() && capacity::load_within(
                book@,
                u64::MAX - capacity::total_demand(later),
            )) ==> {
                &&& replayable(book, entries)
                &&& recoverable(Some(book), entries, symbol)
            }
        }),
        capacity::total_demand(after(commands(entries), 0)) <= u64::MAX ==> recoverable(
            None,
            entries,
            symbol,
        ),
{
    let later = after(commands(entries), book.last_seq_no);
    if later.len() > 0 && book.wf() && capacity::load_within(
        book@,
        u64::MAX - capacity::total_demand(later),
    ) {
        law_capacity_of_runs(book@, later, u64::MAX - capacity::total_demand(later));
        snapshot::law_valid_books_stay(book@);
    }
    let all = after(commands(entries), 0);
    if capacity::total_demand(all) <= u64::MAX {
        let fresh = BookModel::fresh(symbol);
        validity::lemma_fresh(symbol);
        law_capacity_of_runs(fresh, all, 0);
    }
}

/// Errors that are the same are of one kind and say the same. Every error is the same as itself.
pub proof fn law_same_errors(a: ReplayError, b: ReplayError)
    ensures
        same_error(a, b) ==> error_text(a) == error_text(b),
        same_error(a, b) ==> match a {
            ReplayError::Io(text) => b matches ReplayError::Io(other) && text@ == other@,
            ReplayError::Json(text) => b matches ReplayError::Json(other) && text@ == other@,
            ReplayError::Bincode(text) => b matches ReplayError::Bincode(other) && text@
                == other@,
            ReplayError::SequenceGap { expected, got } => b matches ReplayError::SequenceGap {
                expected: other_expected,
                got: other_got,
            } && expected == other_expected && got == other_got,
        },
        same_error(a, a),
{
}

} // verus!
