//! The Kafka side: consumer settings, what a message becomes, rebalances, and
//! the decisions of the consume loop.
//!
//! Talking to a broker is the application's part; this module decides what is
//! asked of it and what its answers mean.
//!
//! # Auto-commit is off, and that is load-bearing
//!
//! `enable.auto.commit=true` would commit on a timer, in the background,
//! entirely unaware of whether the batch reached the bucket. The setting is
//! forced here rather than left to configuration: a `.env` typo should not be
//! able to turn the correctness property off.
//!
//! # Revocations come first
//!
//! The rebalance callback is called from inside the client library and cannot
//! touch the pipeline, so revocations wait in a channel. The loop drains it
//! before every poll, and again before it acts on what a poll gave: a message, a
//! tick or a shutdown. A buffer is dropped before anything else is done with its
//! partition, and never flushed.
//!
//! For a message that rests on a premise: a revocation that waits when a message
//! comes is the older of the two, so that a message of a revoked partition
//! belongs to a later assignment, which reads on from the committed offset. The
//! client library keeps to it: it calls back from inside the poll, and takes the
//! partition away before that poll goes on to a message.
//! Were the callback made on a thread of its own, the message could be the older
//! one. It would be fed in after the records before it had been dropped, and the
//! commit of its range would pass over them.

use vstd::prelude::*;

use crate::config::Config;
use crate::envelope::{Envelope, ParsedRecord, RecordMeta};
use crate::units::Duration;

verus! {

use crate::envelope::body_matches;

/// Partitions we are about to lose, as seen by the rebalance callback.
pub type Revocation = Vec<(String, i32)>;

/// How long to pause after a broker error, in milliseconds.
pub const ERROR_PAUSE_MS: u64 = 500;

// ─── Consumer settings ──────────────────────────────────────────────────────

/// The settings that do not depend on the configuration.
pub open spec fn forced_settings() -> Seq<(Seq<char>, Seq<char>)> {
    seq![
        ("enable.auto.commit"@, "false"@),
        ("enable.auto.offset.store"@, "false"@),
        ("auto.offset.reset"@, "earliest"@),
        ("max.poll.interval.ms"@, "600000"@),
        ("session.timeout.ms"@, "45000"@),
    ]
}

/// All settings of the consumer.
pub open spec fn settings_of(config: Config) -> Seq<(Seq<char>, Seq<char>)> {
    seq![
        ("bootstrap.servers"@, config.bootstrap_servers@),
        ("group.id"@, config.consumer_group@),
    ] + forced_settings()
}

/// The views of a list of settings.
pub open spec fn setting_views(settings: Seq<(String, String)>) -> Seq<(Seq<char>, Seq<char>)> {
    settings.map_values(|s: (String, String)| s@)
}

/// One setting.
fn setting(key: &str, value: &str) -> (r: (String, String))
    ensures
        r@ == (key@, value@),
{
    (key.to_owned(), value.to_owned())
}

/// The settings of the consumer, in the order in which they are made.
pub fn consumer_settings(config: &Config) -> (r: Vec<(String, String)>)
    ensures
        setting_views(r@) == settings_of(*config),
{
    let r: Vec<(String, String)> = vec![
        setting("bootstrap.servers", config.bootstrap_servers.as_str()),
        setting("group.id", config.consumer_group.as_str()),
        // Not configurable: see the module docs.
        setting("enable.auto.commit", "false"),
        // Explicit offsets are committed, so offset storage is ours too.
        setting("enable.auto.offset.store", "false"),
        setting("auto.offset.reset", "earliest"),
        // Long enough that a slow upload does not look like a dead consumer
        // and trigger a rebalance mid-batch.
        setting("max.poll.interval.ms", "600000"),
        setting("session.timeout.ms", "45000"),
    ];
    assert(setting_views(r@) =~= settings_of(*config));
    r
}

// ─── Messages ───────────────────────────────────────────────────────────────

/// The offset of a message. Kafka offsets are not negative; a negative one
/// would be a broker bug, and counts as zero.
pub open spec fn message_offset(offset: i64) -> u64 {
    if offset >= 0 {
        offset as u64
    } else {
        0
    }
}

/// Convert a broker message, its payload decoded, into a record.
pub fn to_record(
    topic: &str,
    partition: i32,
    offset: i64,
    timestamp_ms: Option<i64>,
    payload: Option<Result<Envelope, String>>,
) -> (r: ParsedRecord)
    ensures
        r.meta.topic@ == topic@,
        r.meta.partition == partition,
        r.meta.offset == message_offset(offset),
        r.meta.offset < u64::MAX,
        r.meta.timestamp_ms == timestamp_ms,
        body_matches(r.body, payload),
{
    let position: u64 = if offset >= 0 {
        offset as u64
    } else {
        0
    };
    let meta = RecordMeta { topic: topic.to_owned(), partition, offset: position, timestamp_ms };
    ParsedRecord::parse(meta, payload)
}

/// An offset to commit as the broker takes it, unless it is too large.
pub fn commit_position(offset: u64) -> (r: Result<i64, String>)
    ensures
        match r {
            Ok(position) => position == offset,
            Err(complaint) => offset > i64::MAX && complaint@ == "offset exceeds i64"@,
        },
{
    if offset <= i64::MAX as u64 {
        Ok(offset as i64)
    } else {
        Err("offset exceeds i64".to_owned())
    }
}

/// What a rebalance callback is called with.
#[derive(Debug)]
pub enum RebalanceEvent {
    /// Partitions are assigned to this consumer.
    Assign(Vec<(String, i32)>),
    /// Partitions are taken from this consumer.
    Revoke(Vec<(String, i32)>),
    /// The rebalance failed.
    Error(String),
}

/// What the loop has to be told of a rebalance: the partitions that are
/// revoked. An assignment must not drop buffers.
pub fn pre_rebalance(event: RebalanceEvent) -> (r: Option<Revocation>)
    ensures
        r == match event {
            RebalanceEvent::Revoke(partitions) => Some(partitions),
            _ => None,
        },
{
    match event {
        RebalanceEvent::Revoke(partitions) => Some(partitions),
        RebalanceEvent::Assign(_) => None,
        RebalanceEvent::Error(_) => None,
    }
}

// ─── The consume loop ───────────────────────────────────────────────────────

/// What the loop waits for.
#[derive(Debug)]
pub enum Phase {
    /// The next revocation, if there is one; then it polls.
    Draining,
    /// The next revocation, if there is one; then it looks for idle partitions.
    Ticking,
    /// The next revocation, if there is one; then it feeds this record in.
    Feeding(ParsedRecord),
    /// The next revocation, if there is one; then it flushes for the last time.
    Leaving,
    /// A shutdown, a tick or a message, whichever comes first.
    Polling,
    /// The end of a call into the pipeline.
    Working,
    /// The end of a pause.
    Pausing,
    /// The end of the last flush.
    Stopping,
    /// Nothing: the loop is over.
    Stopped,
}

/// What happened.
#[derive(Debug)]
pub enum LoopEvent {
    /// The channel held this revocation, or none.
    Revocation(Option<Revocation>),
    /// The shutdown flag has changed to this.
    Shutdown(bool),
    /// It is time to look for idle partitions.
    Tick,
    /// A message has come.
    Received(ParsedRecord),
    /// The broker has reported an error.
    ReceiveFailed,
    /// The call into the pipeline is over; whether it succeeded.
    Done(bool),
    /// The pause is over.
    Woke,
}

/// What the loop does next.
#[derive(Debug)]
pub enum LoopAction {
    /// Look for a revocation in the channel, without waiting.
    CheckRevocations,
    /// Drop the buffers of these partitions, and look for more.
    Revoke(Revocation),
    /// Wait for a shutdown, a tick or a message.
    Poll,
    /// Flush partitions that have gone quiet.
    Tick,
    /// Feed this record in.
    Offer(ParsedRecord),
    /// Pause before going on.
    Pause(Duration),
    /// Flush everything on the way out.
    FlushAll,
    /// Report the counters and return.
    Finish,
    /// Return the error of the call into the pipeline.
    Fail,
}

/// Whether the loop looks for revocations in a phase.
pub open spec fn is_draining(phase: Phase) -> bool {
    phase is Draining || phase is Ticking || phase is Feeding || phase is Leaving
}

/// Whether an event is one that the loop waits for in a phase.
pub open spec fn awaited(phase: Phase, event: LoopEvent) -> bool {
    match phase {
        Phase::Polling => event is Shutdown || event is Tick || event is Received
            || event is ReceiveFailed,
        Phase::Working => event is Done,
        Phase::Pausing => event is Woke,
        Phase::Stopping => event is Done,
        Phase::Stopped => false,
        _ => event is Revocation,
    }
}

/// The phase once no revocation is waiting.
pub open spec fn drained_phase(phase: Phase) -> Phase {
    match phase {
        Phase::Ticking => Phase::Working,
        Phase::Feeding(_) => Phase::Working,
        Phase::Leaving => Phase::Stopping,
        _ => Phase::Polling,
    }
}

/// What the loop does once no revocation is waiting.
pub open spec fn drained_action(phase: Phase) -> LoopAction {
    match phase {
        Phase::Ticking => LoopAction::Tick,
        Phase::Feeding(record) => LoopAction::Offer(record),
        Phase::Leaving => LoopAction::FlushAll,
        _ => LoopAction::Poll,
    }
}

/// The phase after an event.
pub open spec fn next_phase(phase: Phase, event: LoopEvent) -> Phase {
    match event {
        LoopEvent::Revocation(Some(_)) => phase,
        LoopEvent::Revocation(None) => drained_phase(phase),
        LoopEvent::Shutdown(true) => Phase::Leaving,
        LoopEvent::Shutdown(false) => Phase::Draining,
        LoopEvent::Tick => Phase::Ticking,
        LoopEvent::Received(record) => Phase::Feeding(record),
        LoopEvent::ReceiveFailed => Phase::Pausing,
        LoopEvent::Done(ok) => if ok && phase is Working {
            Phase::Draining
        } else {
            Phase::Stopped
        },
        LoopEvent::Woke => Phase::Draining,
    }
}

/// Whether an action is what the loop does about an event.
pub open spec fn is_reaction(phase: Phase, event: LoopEvent, action: LoopAction) -> bool {
    match event {
        LoopEvent::Revocation(Some(list)) => action == LoopAction::Revoke(list),
        LoopEvent::Revocation(None) => action == drained_action(phase),
        LoopEvent::ReceiveFailed => action matches LoopAction::Pause(pause) && pause@
            == ERROR_PAUSE_MS * 1_000_000,
        LoopEvent::Done(ok) => if !ok {
            action is Fail
        } else if phase is Working {
            action is CheckRevocations
        } else {
            action is Finish
        },
        _ => action is CheckRevocations,
    }
}

/// The consume loop: feeds records into the pipeline until shutdown.
///
/// It ends on the first failed call into the pipeline. Broker errors are no
/// reason to end: a transient metadata failure should not kill the process.
#[derive(Debug)]
pub struct ConsumeLoop {
    phase: Phase,
}

impl View for ConsumeLoop {
    type V = Phase;

    closed spec fn view(&self) -> Phase {
        self.phase
    }
}

impl ConsumeLoop {
    /// The loop before its first turn, and what it does first.
    pub fn start() -> (r: (ConsumeLoop, LoopAction))
        ensures
            r.0@ == Phase::Draining,
            r.1 is CheckRevocations,
    {
        (ConsumeLoop { phase: Phase::Draining }, LoopAction::CheckRevocations)
    }

    /// What the loop waits for.
    pub fn phase(&self) -> (r: &Phase)
        ensures
            *r == self@,
    {
        &self.phase
    }

    /// Something has happened that the loop was waiting for.
    pub fn on(&mut self, event: LoopEvent) -> (r: LoopAction)
        requires
            awaited(old(self)@, event),
        ensures
            final(self)@ == next_phase(old(self)@, event),
            is_reaction(old(self)@, event, r),
    {
        match event {
            LoopEvent::Revocation(Some(list)) => LoopAction::Revoke(list),
            LoopEvent::Revocation(None) => {
                let mut phase: Phase = Phase::Polling;
                std::mem::swap(&mut self.phase, &mut phase);
                match phase {
                    Phase::Ticking => {
                        self.phase = Phase::Working;
                        LoopAction::Tick
                    },
                    Phase::Feeding(record) => {
                        self.phase = Phase::Working;
                        LoopAction::Offer(record)
                    },
                    Phase::Leaving => {
                        self.phase = Phase::Stopping;
                        LoopAction::FlushAll
                    },
                    _ => LoopAction::Poll,
                }
            },
            // Whatever comes out of a poll waits until the revocations that came
            // before it have been acted on.
            LoopEvent::Shutdown(wanted) => {
                self.phase = if wanted {
                    Phase::Leaving
                } else {
                    Phase::Draining
                };
                LoopAction::CheckRevocations
            },
            LoopEvent::Tick => {
                self.phase = Phase::Ticking;
                LoopAction::CheckRevocations
            },
            LoopEvent::Received(record) => {
                self.phase = Phase::Feeding(record);
                LoopAction::CheckRevocations
            },
            // Metadata refreshes, leader elections and transient broker
            // unavailability all land here. Backing off and continuing is
            // right; exiting would turn a blip into an outage.
            LoopEvent::ReceiveFailed => {
                self.phase = Phase::Pausing;
                LoopAction::Pause(Duration::from_millis(ERROR_PAUSE_MS))
            },
            LoopEvent::Done(ok) => {
                let working: bool = match self.phase {
                    Phase::Working => true,
                    _ => false,
                };
                if !ok {
                    self.phase = Phase::Stopped;
                    LoopAction::Fail
                } else if working {
                    self.phase = Phase::Draining;
                    LoopAction::CheckRevocations
                } else {
                    self.phase = Phase::Stopped;
                    LoopAction::Finish
                }
            },
            LoopEvent::Woke => {
                self.phase = Phase::Draining;
                LoopAction::CheckRevocations
            },
        }
    }
}

// ─── Laws ───────────────────────────────────────────────────────────────────

/// Whatever the configuration says, offsets are never committed or stored
/// behind the pipeline's back.
pub proof fn auto_commit_is_always_off(config: Config)
    ensures
        settings_of(config).contains(("enable.auto.commit"@, "false"@)),
        settings_of(config).contains(("enable.auto.offset.store"@, "false"@)),
        settings_of(config).len() == 7,
{
    assert(settings_of(config)[2] == ("enable.auto.commit"@, "false"@));
    assert(settings_of(config)[3] == ("enable.auto.offset.store"@, "false"@));
}

/// Revocations come first: the loop polls, feeds a record in, looks for idle
/// partitions or flushes for the last time only in answer to finding that no
/// revocation is waiting.
pub proof fn revocations_come_first(phase: Phase, event: LoopEvent, action: LoopAction)
    requires
        awaited(phase, event),
        is_reaction(phase, event, action),
    ensures
        event == LoopEvent::Revocation(None) <==> action is Poll || action is Offer
            || action is Tick || action is FlushAll,
        action is Poll <==> phase is Draining && event == LoopEvent::Revocation(None),
        action is Offer <==> phase is Feeding && event == LoopEvent::Revocation(None),
        action is Tick <==> phase is Ticking && event == LoopEvent::Revocation(None),
        next_phase(phase, event) is Polling <==> action is Poll,
{
}

/// A revocation is handed on as it came, and what waits behind it goes on
/// waiting.
pub proof fn a_revocation_changes_nothing_else(phase: Phase, list: Revocation, action: LoopAction)
    requires
        is_draining(phase),
        is_reaction(phase, LoopEvent::Revocation(Some(list)), action),
    ensures
        awaited(phase, LoopEvent::Revocation(Some(list))),
        action == LoopAction::Revoke(list),
        next_phase(phase, LoopEvent::Revocation(Some(list))) == phase,
{
}

/// A message is fed in, the message that came and no other, whatever is revoked
/// before it. That is right for a message of a revoked partition because the
/// revocation is the older of the two: see the module docs.
pub proof fn a_message_is_fed_in(record: ParsedRecord, action: LoopAction)
    requires
        is_reaction(
            next_phase(Phase::Polling, LoopEvent::Received(record)),
            LoopEvent::Revocation(None),
            action,
        ),
    ensures
        awaited(Phase::Polling, LoopEvent::Received(record)),
        action == LoopAction::Offer(record),
{
}

/// A broker error never ends the loop: it pauses, and then goes on.
pub proof fn a_broker_error_does_not_end_the_loop(phase: Phase)
    requires
        awaited(phase, LoopEvent::ReceiveFailed),
    ensures
        next_phase(phase, LoopEvent::ReceiveFailed) is Pausing,
        awaited(Phase::Pausing, LoopEvent::Woke),
        next_phase(Phase::Pausing, LoopEvent::Woke) is Draining,
{
}

/// The loop ends for two reasons only: a call into the pipeline has failed, or
/// after a shutdown the last flush is over.
pub proof fn the_loop_ends_only_on_failure_or_shutdown(phase: Phase, event: LoopEvent)
    requires
        awaited(phase, event),
        next_phase(phase, event) is Stopped,
    ensures
        event == LoopEvent::Done(false) || (event == LoopEvent::Done(true) && phase is Stopping),
{
}

/// A shutdown flushes everything that is still ours: the last flush comes after
/// a shutdown has been signalled, and after every revocation that was waiting
/// then; and once it has been signalled nothing else but revocations comes
/// before it.
pub proof fn a_shutdown_flushes_everything(phase: Phase, event: LoopEvent, action: LoopAction)
    requires
        awaited(phase, event),
        is_reaction(phase, event, action),
    ensures
        action is FlushAll <==> phase is Leaving && event == LoopEvent::Revocation(None),
        next_phase(phase, event) is Stopping <==> action is FlushAll,
        next_phase(phase, event) is Leaving <==> event == LoopEvent::Shutdown(true) || (
        phase is Leaving && event is Revocation && event != LoopEvent::Revocation(None)),
{
}

/// How the consumer is set up: with the brokers and the group of the
/// configuration, from the earliest offset where none is committed, and with
/// time for a slow upload. There is no other setting.
pub proof fn the_consumer_is_set_up_as_configured(config: Config)
    ensures
        settings_of(config).len() == 7,
        settings_of(config)[0] == ("bootstrap.servers"@, config.bootstrap_servers@),
        settings_of(config)[1] == ("group.id"@, config.consumer_group@),
        settings_of(config)[2] == ("enable.auto.commit"@, "false"@),
        settings_of(config)[3] == ("enable.auto.offset.store"@, "false"@),
        settings_of(config)[4] == ("auto.offset.reset"@, "earliest"@),
        settings_of(config)[5] == ("max.poll.interval.ms"@, "600000"@),
        settings_of(config)[6] == ("session.timeout.ms"@, "45000"@),
{
}

/// Settings are seen as they are, in their order.
pub proof fn settings_are_seen_as_they_are(settings: Seq<(String, String)>, i: int)
    requires
        0 <= i < settings.len(),
    ensures
        setting_views(settings).len() == settings.len(),
        setting_views(settings)[i] == (settings[i].0@, settings[i].1@),
{
}

/// A message keeps its offset, unless that is below zero.
pub proof fn a_message_keeps_its_offset(offset: i64)
    ensures
        offset >= 0 ==> message_offset(offset) as int == offset as int,
        offset < 0 ==> message_offset(offset) == 0,
{
}

/// The phase after looking for revocations again and again: these were waiting.
pub open spec fn phase_after_revocations(phase: Phase, lists: Seq<Revocation>) -> Phase
    decreases lists.len(),
{
    if lists.len() == 0 {
        phase
    } else {
        next_phase(
            phase_after_revocations(phase, lists.drop_last()),
            LoopEvent::Revocation(Some(lists.last())),
        )
    }
}

proof fn lemma_revocations_pass(phase: Phase, lists: Seq<Revocation>)
    ensures
        phase_after_revocations(phase, lists) == phase,
    decreases lists.len(),
{
    if lists.len() > 0 {
        lemma_revocations_pass(phase, lists.drop_last());
    }
}

/// What a poll gives is acted on, however many revocations were waiting: a
/// message is fed in, that very message; a tick looks for idle partitions; and a
/// shutdown flushes for the last time. A shutdown flag that was lowered means
/// another poll.
pub proof fn what_a_poll_gives_is_acted_on(
    record: ParsedRecord,
    lists: Seq<Revocation>,
    first: LoopAction,
    action: LoopAction,
)
    ensures
        is_reaction(Phase::Polling, LoopEvent::Received(record), first) ==> first
            is CheckRevocations,
        is_reaction(Phase::Polling, LoopEvent::Tick, first) ==> first is CheckRevocations,
        is_reaction(Phase::Polling, LoopEvent::Shutdown(true), first) ==> first is CheckRevocations,
        is_reaction(Phase::Polling, LoopEvent::Shutdown(false), first) ==> first
            is CheckRevocations,
        is_reaction(
            phase_after_revocations(
                next_phase(Phase::Polling, LoopEvent::Received(record)),
                lists,
            ),
            LoopEvent::Revocation(None),
            action,
        ) ==> action == LoopAction::Offer(record),
        is_reaction(
            phase_after_revocations(next_phase(Phase::Polling, LoopEvent::Tick), lists),
            LoopEvent::Revocation(None),
            action,
        ) ==> action is Tick,
        is_reaction(
            phase_after_revocations(next_phase(Phase::Polling, LoopEvent::Shutdown(true)), lists),
            LoopEvent::Revocation(None),
            action,
        ) ==> action is FlushAll,
        is_reaction(
            phase_after_revocations(next_phase(Phase::Polling, LoopEvent::Shutdown(false)), lists),
            LoopEvent::Revocation(None),
            action,
        ) ==> action is Poll,
{
    lemma_revocations_pass(next_phase(Phase::Polling, LoopEvent::Received(record)), lists);
    lemma_revocations_pass(next_phase(Phase::Polling, LoopEvent::Tick), lists);
    lemma_revocations_pass(next_phase(Phase::Polling, LoopEvent::Shutdown(true)), lists);
    lemma_revocations_pass(next_phase(Phase::Polling, LoopEvent::Shutdown(false)), lists);
}

/// After a call into the pipeline the loop polls again where it succeeded, and
/// ends with its error where it failed; after the last flush it ends either way.
pub proof fn the_loop_goes_on_after_a_call(
    record: ParsedRecord,
    action: LoopAction,
    last: LoopAction,
    failed: LoopAction,
)
    requires
        is_reaction(Phase::Working, LoopEvent::Done(true), action),
        is_reaction(Phase::Stopping, LoopEvent::Done(true), last),
        is_reaction(Phase::Working, LoopEvent::Done(false), failed) || is_reaction(
            Phase::Stopping,
            LoopEvent::Done(false),
            failed,
        ),
    ensures
        next_phase(Phase::Feeding(record), LoopEvent::Revocation(None)) is Working,
        next_phase(Phase::Ticking, LoopEvent::Revocation(None)) is Working,
        next_phase(Phase::Leaving, LoopEvent::Revocation(None)) is Stopping,
        next_phase(Phase::Draining, LoopEvent::Revocation(None)) is Polling,
        action is CheckRevocations,
        next_phase(Phase::Working, LoopEvent::Done(true)) is Draining,
        last is Finish,
        next_phase(Phase::Stopping, LoopEvent::Done(true)) is Stopped,
        failed is Fail,
        next_phase(Phase::Working, LoopEvent::Done(false)) is Stopped,
        next_phase(Phase::Stopping, LoopEvent::Done(false)) is Stopped,
{
}

/// After a broker error the loop pauses for half a second, and then goes on.
pub proof fn a_broker_error_pauses_for_half_a_second(
    phase: Phase,
    action: LoopAction,
    after: LoopAction,
)
    requires
        is_reaction(phase, LoopEvent::ReceiveFailed, action),
        is_reaction(Phase::Pausing, LoopEvent::Woke, after),
    ensures
        action matches LoopAction::Pause(pause) && pause@ == 500_000_000,
        next_phase(phase, LoopEvent::ReceiveFailed) is Pausing,
        after is CheckRevocations,
        next_phase(Phase::Pausing, LoopEvent::Woke) is Draining,
{
}

/// What the loop waits for: while it drains, whether a revocation is waiting;
/// after a poll, whatever a poll can give; after a call, its end; after a pause,
/// its end; and once it is over, nothing.
pub proof fn the_loop_waits_for_what_it_asked_for(record: ParsedRecord, event: LoopEvent)
    ensures
        awaited(Phase::Draining, event) <==> event is Revocation,
        awaited(Phase::Ticking, event) <==> event is Revocation,
        awaited(Phase::Feeding(record), event) <==> event is Revocation,
        awaited(Phase::Leaving, event) <==> event is Revocation,
        awaited(Phase::Polling, event) <==> event is Shutdown || event is Tick || event is Received
            || event is ReceiveFailed,
        awaited(Phase::Working, event) <==> event is Done,
        awaited(Phase::Stopping, event) <==> event is Done,
        awaited(Phase::Pausing, event) <==> event is Woke,
        !awaited(Phase::Stopped, event),
{
}

} // verus!
