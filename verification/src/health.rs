//! Local script/command health probe: what is run, what its end means, and how much of its output
//! is kept.

use vstd::prelude::*;

use vstd::utf8::{decode_utf8, valid_utf8};

use crate::config::HealthConfig;

verus! {

/// Bound on diagnostic previews so a noisy probe cannot flood logs or memory.
pub const MAX_CAPTURE_BYTES: usize = 4 * 1024;

/// Grace period for draining a probe's output after it has ended (milliseconds).
pub const OUTPUT_DRAIN_TIMEOUT_MS: u64 = 500;

/// The first bytes of an output, and how many more there were.
#[derive(Debug)]
pub struct CapturedOutput {
    pub bytes: Vec<u8>,
    pub truncated_bytes: usize,
}

/// How much of a chunk still fits.
pub open spec fn kept(len: nat, chunk_len: nat, limit: nat) -> nat {
    let room = if len < limit { (limit - len) as nat } else { 0 };
    if room < chunk_len { room } else { chunk_len }
}

/// What `String::from_utf8_lossy` makes of bytes.
pub uninterp spec fn lossy_text(bytes: Seq<u8>) -> Seq<char>;

/// [`String::from_utf8_lossy`] keeps valid UTF-8 as it is. What stands for invalid bytes is not
/// stated.
#[verifier::external_body]
fn lossy(bytes: &[u8]) -> (text: String)
    ensures
        text@ == lossy_text(bytes@),
        valid_utf8(bytes@) ==> text@ == decode_utf8(bytes@),
{
    String::from_utf8_lossy(bytes).into_owned()
}

impl Default for CapturedOutput {
    fn default() -> (c: Self)
        ensures
            c.bytes@ == Seq::<u8>::empty(),
            c.truncated_bytes == 0,
    {
        CapturedOutput { bytes: Vec::new(), truncated_bytes: 0 }
    }
}

impl CapturedOutput {
    /// Keep what fits of a chunk, and count the rest.
    pub fn record_chunk(&mut self, chunk: &[u8], limit: usize)
        requires
            old(self).truncated_bytes + chunk@.len() - kept(old(self).bytes@.len(), chunk@.len(), limit as nat) <= usize::MAX,
        ensures
            ({
                let keep = kept(old(self).bytes@.len(), chunk@.len(), limit as nat);
                &&& final(self).bytes@ == old(self).bytes@ + chunk@.take(keep as int)
                &&& final(self).truncated_bytes == old(self).truncated_bytes + chunk@.len() - keep
            }),
    {
        let room: usize = limit.saturating_sub(self.bytes.len());
        let keep: usize = if room < chunk.len() { room } else { chunk.len() };
        let mut i: usize = 0;
        let ghost before = self.bytes@;
        while i < keep
            invariant
                i <= keep <= chunk@.len(),
                self.bytes@ == before + chunk@.take(i as int),
                self.truncated_bytes == old(self).truncated_bytes,
            decreases keep - i,
        {
            self.bytes.push(chunk[i]);
            i += 1;
            assert(self.bytes@ =~= before + chunk@.take(i as int));
        }
        self.truncated_bytes = self.truncated_bytes + (chunk.len() - keep);
    }

    /// The kept bytes as text.
    pub fn preview(&self) -> (text: String)
        ensures
            text@ == lossy_text(self.bytes@),
            valid_utf8(self.bytes@) ==> text@ == decode_utf8(self.bytes@),
    {
        lossy(&self.bytes)
    }
}

/// How draining an output ended.
#[derive(Debug)]
pub enum DrainOutcome {
    /// There was no pipe.
    NoPipe,
    /// The output was read to its end.
    Drained(CapturedOutput),
    /// Reading failed.
    Failed,
    /// Something still holds the pipe open.
    TimedOut,
}

/// What is kept of an output: all that was captured if it was read to its end, else nothing.
pub fn collected(outcome: DrainOutcome) -> (output: CapturedOutput)
    ensures
        match outcome {
            DrainOutcome::Drained(captured) => output == captured,
            _ => output.bytes@ == Seq::<u8>::empty() && output.truncated_bytes == 0,
        },
{
    match outcome {
        DrainOutcome::Drained(captured) => captured,
        _ => CapturedOutput::default(),
    }
}

/// How a probe run ended.
#[derive(Debug, Clone, Copy, PartialEq, Eq, Structural)]
pub enum ProbeOutcome {
    /// There was nothing to run, or it could not be started.
    NotStarted,
    /// The process ended; `success` is exit status zero.
    Exited { success: bool },
    /// Waiting for the process failed.
    WaitFailed,
    /// The process was still running when its time was up.
    TimedOut,
}

impl ProbeOutcome {
    /// Healthy only if the process ended with exit status zero in time.
    pub fn is_healthy(&self) -> (b: bool)
        ensures
            b == (*self == ProbeOutcome::Exited { success: true }),
    {
        match self {
            ProbeOutcome::Exited { success } => *success,
            _ => false,
        }
    }

    /// The process may still be running and has to be killed.
    pub fn needs_kill(&self) -> (b: bool)
        ensures
            b == (self is WaitFailed || self is TimedOut),
    {
        match self {
            ProbeOutcome::WaitFailed => true,
            ProbeOutcome::TimedOut => true,
            _ => false,
        }
    }
}

impl HealthConfig {
    /// Program and arguments of the probe, if there is a program.
    pub fn probe_command(&self) -> (command: Option<(&String, Vec<&String>)>)
        ensures
            match command {
                Some((program, args)) => {
                    &&& self.command@.len() > 0
                    &&& *program == self.command@[0]
                    &&& args@.len() == self.command@.len() - 1
                    &&& forall|i: int| 0 <= i < args@.len() ==> *#[trigger] args@[i] == self.command@[i + 1]
                },
                None => self.command@.len() == 0,
            },
    {
        if self.command.len() == 0 {
            return None;
        }
        let mut args: Vec<&String> = Vec::new();
        let mut i: usize = 1;
        while i < self.command.len()
            invariant
                1 <= i <= self.command@.len(),
                args@.len() == i - 1,
                forall|j: int| 0 <= j < args@.len() ==> *#[trigger] args@[j] == self.command@[j + 1],
            decreases self.command@.len() - i,
        {
            args.push(&self.command[i]);
            i += 1;
        }
        Some((&self.command[0], args))
    }

    /// Time limit of one probe run in milliseconds, at least one.
    pub fn probe_timeout_ms(&self) -> (ms: u64)
        ensures
            ms == if self.timeout_ms < 1 { 1 } else { self.timeout_ms },
    {
        if self.timeout_ms < 1 {
            1
        } else {
            self.timeout_ms
        }
    }
}

/// Recording two chunks keeps and counts the same as recording them as one.
pub proof fn law_chunking_is_irrelevant(len: nat, a: Seq<u8>, b: Seq<u8>, limit: nat)
    ensures
        ({
            let first = kept(len, a.len(), limit);
            let second = kept(len + first, b.len(), limit);
            let whole = kept(len, (a + b).len(), limit);
            &&& first + second == whole
            &&& a.take(first as int) + b.take(second as int) == (a + b).take(whole as int)
        }),
{
    let first = kept(len, a.len(), limit);
    let second = kept(len + first, b.len(), limit);
    let whole = kept(len, (a + b).len(), limit);
    assert(a.take(first as int) + b.take(second as int) =~= (a + b).take(whole as int));
}

/// No more than the limit is kept, and no byte goes uncounted.
pub proof fn law_capture_is_bounded(len: nat, chunk_len: nat, limit: nat)
    ensures
        kept(len, chunk_len, limit) <= chunk_len,
        len <= limit ==> len + kept(len, chunk_len, limit) <= limit,
        len >= limit ==> kept(len, chunk_len, limit) == 0,
{
}

/// As much of a chunk is kept as fits: either all of it, or up to the limit.
pub proof fn law_a_chunk_is_cut_only_at_the_limit(len: nat, chunk_len: nat, limit: nat)
    requires
        kept(len, chunk_len, limit) < chunk_len,
    ensures
        len + kept(len, chunk_len, limit) >= limit,
        len <= limit ==> len + kept(len, chunk_len, limit) == limit,
{
}

/// A probe is healthy only if it ended by itself, in time, with exit status zero; and only one that may
/// still be running is killed.
pub proof fn law_only_a_clean_exit_is_healthy(outcome: ProbeOutcome, healthy: bool, kill: bool)
    requires
        call_ensures(ProbeOutcome::is_healthy, (&outcome,), healthy),
        call_ensures(ProbeOutcome::needs_kill, (&outcome,), kill),
    ensures
        outcome is NotStarted ==> !healthy && !kill,
        outcome matches ProbeOutcome::Exited { success } ==> healthy == success && !kill,
        outcome is WaitFailed || outcome is TimedOut ==> !healthy && kill,
{
}

/// A probe runs the first word of its command with all the others as arguments, in their order, and for
/// as long as it is given but at least a millisecond.
pub proof fn law_the_whole_command_is_run(
    cfg: &HealthConfig,
    command: Option<(&String, Vec<&String>)>,
    ms: u64,
)
    requires
        call_ensures(HealthConfig::probe_command, (cfg,), command),
        call_ensures(HealthConfig::probe_timeout_ms, (cfg,), ms),
    ensures
        command is None <==> cfg.command@.len() == 0,
        command matches Some((program, args)) ==> {
            &&& cfg.command@.len() == 1 + args@.len()
            &&& cfg.command@[0] == *program
            &&& forall|i: int| 1 <= i < cfg.command@.len() ==> (#[trigger] cfg.command@[i]) == *args@[i - 1]
        },
        ms >= 1,
        cfg.timeout_ms >= 1 ==> ms == cfg.timeout_ms,
{
    if let Some((program, args)) = command {
        assert forall|i: int| 1 <= i < cfg.command@.len() implies (#[trigger] cfg.command@[i]) == *args@[i - 1] by {
            assert(*args@[i - 1] == cfg.command@[i - 1 + 1]);
        }
    }
}

/// Recording a chunk keeps its beginning, as much as fits, behind what was kept before, and counts the
/// rest.
pub proof fn law_a_recorded_chunk_is_kept_or_counted(chunk: &[u8], limit: usize)
    ensures
        forall|c: &mut CapturedOutput| #[trigger] call_ensures(CapturedOutput::record_chunk, (c, chunk, limit), ()) ==> {
            let (before, after) = ((*c).bytes@, (*final(c)).bytes@);
            let counted = (*final(c)).truncated_bytes - (*c).truncated_bytes;
            &&& after.len() - before.len() + counted == chunk@.len()
            &&& counted >= 0 && after.len() >= before.len()
            &&& after == before + chunk@.take(after.len() - before.len())
            &&& before.len() <= limit ==> after.len() <= limit
            &&& counted > 0 ==> after.len() >= limit
            &&& before.len() >= limit ==> after == before
        },
{
    assert forall|c: &mut CapturedOutput| #[trigger] call_ensures(CapturedOutput::record_chunk, (c, chunk, limit), ()) implies ({
        let (before, after) = ((*c).bytes@, (*final(c)).bytes@);
        let counted = (*final(c)).truncated_bytes - (*c).truncated_bytes;
        &&& after.len() - before.len() + counted == chunk@.len()
        &&& counted >= 0 && after.len() >= before.len()
        &&& after == before + chunk@.take(after.len() - before.len())
        &&& before.len() <= limit ==> after.len() <= limit
        &&& counted > 0 ==> after.len() >= limit
        &&& before.len() >= limit ==> after == before
    }) by {
        let (before, after) = ((*c).bytes@, (*final(c)).bytes@);
        assert(after.len() == before.len() + kept(before.len(), chunk@.len(), limit as nat));
        if before.len() >= limit {
            assert(after =~= before);
        }
    }
}

/// Only an output that was read to its end is kept, and then all that was captured of it.
pub proof fn law_only_a_drained_output_is_kept(outcome: DrainOutcome, output: CapturedOutput)
    requires
        call_ensures(collected, (outcome,), output),
    ensures
        outcome matches DrainOutcome::Drained(captured) ==> output == captured,
        !(outcome is Drained) ==> output.bytes@.len() == 0 && output.truncated_bytes == 0,
{
}

} // verus!
