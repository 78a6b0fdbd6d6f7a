//! Whether a process runs, and where a run is made to fail.
use vstd::prelude::*;
use crate::text;

verus! {

/// What a process that was sent no signal at all answered.
#[derive(Clone, Copy, Debug, PartialEq, Eq, Structural)]
pub enum Probe {
    Reached,
    /// It belongs to somebody else.
    Denied,
    Missing,
}

/// The largest number of a process on Unix.
pub const LAST_PROCESS: u32 = 2147483647;

/// The exit code that Windows gives of a process that runs.
pub const STILL_ACTIVE: u32 = 259;

/// The number can be that of one process on Unix. Zero and the numbers past the
/// largest stand for groups of processes there.
pub open spec fn names_one_process(pid: u32) -> bool {
    0 < pid <= LAST_PROCESS
}

/// Whether a Unix process runs, by what it answered.
pub fn process_alive(pid: u32, answer: Probe) -> (r: bool)
    ensures
        r == (names_one_process(pid) && answer != Probe::Missing),
{
    if pid == 0 || pid > LAST_PROCESS {
        return false;
    }
    answer != Probe::Missing
}

/// Whether a Windows process runs, by its exit code, if the process was found.
pub fn windows_process_alive(pid: u32, exit_code: Option<u32>) -> (r: bool)
    ensures
        r == (pid != 0 && exit_code == Some(STILL_ACTIVE)),
{
    if pid == 0 {
        return false;
    }
    match exit_code {
        Some(code) => code == STILL_ACTIVE,
        None => false,
    }
}

/// The point is one of the configured ones, which commas part.
pub fn fault_enabled(configured: &str, point: &str) -> (r: bool)
    ensures
        r == text::split(configured@, ',').contains(point@),
{
    let parts = text::split_on(configured, ',');
    text::list_contains(&parts, point)
}

/// A process can be asked for by a number from 1 to the largest; no other number
/// stands for one process.
pub proof fn law_process_numbers(pid: u32)
    ensures
        names_one_process(pid) <==> 1 <= pid <= 2147483647,
        STILL_ACTIVE == 259,
{
}

/// A Unix process runs where its number stands for one process and the probe did
/// not find it missing; a Windows process, where it was found without an exit
/// code of its own. No process has the number zero.
pub proof fn law_running_processes_answer(
    pid: u32,
    answer: Probe,
    exit_code: Option<u32>,
    unix: bool,
    windows: bool,
)
    requires
        call_ensures(process_alive, (pid, answer), unix),
        call_ensures(windows_process_alive, (pid, exit_code), windows),
    ensures
        unix <==> 1 <= pid <= 2147483647 && answer != Probe::Missing,
        windows <==> pid != 0 && exit_code == Some(259u32),
{
}

} // verus!
