//! What the log and the PID file are called, and what is said about them.

use vstd::prelude::*;

use crate::text::push_dec;

verus! {

/// The name both files carry, without an extension.
pub const STEM: &'static str = "docsis_monitor";

/// The log file's name.
pub const LOG_FILE: &'static str = "docsis_monitor.log";

/// The PID file's name.
pub const PID_FILE: &'static str = "docsis_monitor.pid";

/// How often the PID file's timestamp is refreshed, in seconds.
pub const HEARTBEAT: u64 = 60;

/// The mark between two runs in a log that is appended to: the build that
/// wrote it, and its process.
pub fn banner(stamp: &str, pid: u32) -> (out: String)
    ensures
        out@ == "--- docsis_monitor "@ + stamp@ + " pid "@ + crate::text::dec(pid as nat)
            + " ---"@,
{
    let mut out = "--- docsis_monitor ".to_owned();
    out.append(stamp);
    out.append(" pid ");
    push_dec(&mut out, pid as u64);
    out.append(" ---");
    out
}

/// Why a run does not detach when there is no directory to log to.
pub fn nowhere_to_log(dir: &str) -> (out: String)
    ensures
        out@ == "there is no "@ + dir@
            + " directory, so a background run would have nowhere to say anything and nothing to write a PID file to. Either `mkdir "@
            + dir@ + "` or pass --nofork to keep it on this terminal."@,
{
    let mut out = "there is no ".to_owned();
    out.append(dir);
    out.append(
        " directory, so a background run would have nowhere to say anything and nothing to write a PID file to. Either `mkdir ",
    );
    out.append(dir);
    out.append("` or pass --nofork to keep it on this terminal.");
    out
}

/// What is worth a line after the PID file was stamped, or was not.
#[derive(Clone, Copy, Debug, PartialEq, Eq, Structural)]
pub enum Beat {
    /// Nothing has changed.
    Nothing,
    /// It could not be stamped, and could before.
    Failed,
    /// It could be stamped, and could not before.
    Recovered,
}

/// Remembers whether stamping fails, so that a PID file that was deleted is
/// told once and not once a minute.
#[derive(Debug)]
pub struct Heartbeat {
    failing: bool,
}

/// What one more attempt is worth, when the one before it failed or did not.
pub open spec fn beat_after(failing: bool, stamped: bool) -> Beat {
    if stamped && failing {
        Beat::Recovered
    } else if !stamped && !failing {
        Beat::Failed
    } else {
        Beat::Nothing
    }
}

impl Heartbeat {
    /// Whether the last attempt failed.
    pub closed spec fn is_failing(&self) -> bool {
        self.failing
    }

    /// Nothing has failed yet.
    pub fn new() -> (r: Heartbeat)
        ensures
            !r.is_failing(),
    {
        Heartbeat { failing: false }
    }

    /// Takes in one attempt, and says what it is worth.
    pub fn beat(&mut self, stamped: bool) -> (r: Beat)
        ensures
            r == beat_after(old(self).is_failing(), stamped),
            final(self).is_failing() == !stamped,
    {
        let was: bool = self.failing;
        self.failing = !stamped;
        if stamped && was {
            Beat::Recovered
        } else if !stamped && !was {
            Beat::Failed
        } else {
            Beat::Nothing
        }
    }
}

/// How many of a run of attempts, from the start, are told as failed.
pub open spec fn failures_told(attempts: Seq<bool>) -> nat
    decreases attempts.len(),
{
    if attempts.len() == 0 {
        0
    } else {
        let n = attempts.len() - 1;
        let failing = n > 0 && !attempts[n - 1];
        failures_told(attempts.drop_last()) + (if beat_after(failing, attempts[n]) is Failed {
            1nat
        } else {
            0nat
        })
    }
}

/// However long stamping fails, it is told once.
pub proof fn law_a_lasting_failure_is_told_once(attempts: Seq<bool>)
    requires
        attempts.len() > 0,
        forall|i: int| 0 <= i < attempts.len() ==> !#[trigger] attempts[i],
    ensures
        failures_told(attempts) == 1,
    decreases attempts.len(),
{
    reveal_with_fuel(failures_told, 2);
    let less = attempts.drop_last();
    if less.len() > 0 {
        assert forall|i: int| 0 <= i < less.len() implies !#[trigger] less[i] by {
            assert(!attempts[i]);
        }
        law_a_lasting_failure_is_told_once(less);
        assert(!attempts[less.len() as int - 1]);
        assert(!attempts[less.len() as int]);
    } else {
        assert(!attempts[0]);
    }
}

/// A failure is told when it begins and a recovery when it comes, and nothing
/// is told while nothing changes: the first attempt of a run is told only when
/// it fails, and any other only when it went otherwise than the one before.
pub proof fn law_only_a_change_is_told(failing: bool, stamped: bool)
    ensures
        beat_after(failing, stamped) == Beat::Failed <==> !failing && !stamped,
        beat_after(failing, stamped) == Beat::Recovered <==> failing && stamped,
        beat_after(failing, stamped) == Beat::Nothing <==> failing == !stamped,
{
}

/// The line that a log starts with names its moment and its process.
pub proof fn law_a_banner_names_its_process(stamp: &str, pid: u32, out: String)
    requires
        call_ensures(banner, (stamp, pid), out),
    ensures
        out@ == "--- docsis_monitor "@ + stamp@ + " pid "@ + crate::text::dec(pid as nat) + " ---"@,
{
}

/// Where there is no directory to log to, the message names it both times.
pub proof fn law_a_missing_directory_is_named(dir: &str, out: String)
    requires
        call_ensures(nowhere_to_log, (dir,), out),
    ensures
        out@ == "there is no "@ + dir@
            + " directory, so a background run would have nowhere to say anything and nothing to write a PID file to. Either `mkdir "@
            + dir@ + "` or pass --nofork to keep it on this terminal."@,
{
}

} // verus!
