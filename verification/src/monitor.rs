//! The per-cycle monitor logic: one polling cycle diffs a freshly
//! enumerated working snapshot against the immutable baseline and turns the
//! classification into the report lines to print.
//!
//! The surrounding program drives the loop: it sleeps the polling interval,
//! enumerates the attached devices, hands the working snapshot to
//! [`Monitor::cycle`], prints the lines of the report, and discards the
//! working snapshot before the next cycle.

use vstd::prelude::*;
use vstd::string::StringExecFns;
use crate::device::{Dev, DevV, summary_of};
use crate::diff::{diff, new_devs, snap_view};

verus! {

/// The fatal and per-record failure kinds of the monitor.
#[derive(Clone, Copy, Debug, PartialEq, Eq, Structural)]
pub enum MonitorError {
    /// The device could not be opened: access denied or already gone.
    DeviceUnavailable,
    /// The primary device descriptor was malformed or unavailable.
    DescriptorReadError,
    /// The persisted baseline could not be decoded.
    CorruptDatabase,
    /// The freshly created baseline could not be written out.
    PersistenceError,
}

/// The classification of one polling cycle.
pub struct CycleReport {
    /// Records of the working snapshot that the baseline nowhere equals.
    pub new: Vec<Dev>,
    /// Records of the baseline that the working snapshot nowhere equals.
    pub missing: Vec<Dev>,
}

/// The monitor: holds the baseline snapshot, read-only for the process
/// lifetime, and classifies one working snapshot per cycle.
pub struct Monitor {
    /// The trusted snapshot captured once and persisted.
    pub baseline: Vec<Dev>,
}

/// Alert line printed above the summary of each new device.
pub open spec fn new_alert() -> Seq<char> {
    "[-] New device detected!"@
}

/// Alert line printed above the summary of each missing device.
pub open spec fn missing_alert() -> Seq<char> {
    "[-] Device missing!"@
}

/// Line printed when a cycle finds no new and no missing device.
pub open spec fn no_threats() -> Seq<char> {
    "No threats found..."@
}

/// The text of a list of lines.
pub open spec fn lines_view(v: Seq<String>) -> Seq<Seq<char>> {
    v.map_values(|s: String| s@)
}

/// One alert line followed by one summary, for each record in order.
pub open spec fn alert_lines(alert: Seq<char>, s: Seq<DevV>) -> Seq<Seq<char>>
    decreases s.len(),
{
    if s.len() == 0 {
        Seq::empty()
    } else {
        alert_lines(alert, s.drop_last()) + seq![alert, summary_of(s.last())]
    }
}

/// The lines a cycle prints: an alert and a summary per new record, then
/// per missing record; or the all-clear line when there is neither.
pub open spec fn report_lines(new: Seq<DevV>, missing: Seq<DevV>) -> Seq<Seq<char>> {
    if new.len() == 0 && missing.len() == 0 {
        seq![no_threats()]
    } else {
        alert_lines(new_alert(), new) + alert_lines(missing_alert(), missing)
    }
}

impl Monitor {
    /// Starts monitoring against the given baseline snapshot.
    pub fn new(baseline: Vec<Dev>) -> (r: Monitor)
        ensures
            r.baseline@ == baseline@,
    {
        Monitor { baseline }
    }

    /// Classifies one freshly enumerated working snapshot against the
    /// baseline: exactly the records of `working` that the baseline
    /// nowhere equals come back as new, exactly the records of the
    /// baseline that `working` nowhere equals come back as missing, each
    /// in its snapshot's order.
    pub fn cycle(&self, working: &Vec<Dev>) -> (r: CycleReport)
        ensures
            snap_view(r.new@) == new_devs(snap_view(self.baseline@), snap_view(working@)),
            snap_view(r.missing@) == new_devs(snap_view(working@), snap_view(self.baseline@)),
    {
        let (new, missing) = diff(&self.baseline, working);
        CycleReport { new, missing }
    }
}

impl CycleReport {
    /// Whether the cycle found nothing to report.
    pub fn is_clean(&self) -> (r: bool)
        ensures
            r == (self.new@.len() == 0 && self.missing@.len() == 0),
    {
        self.new.len() == 0 && self.missing.len() == 0
    }

    /// The lines this cycle's report prints, in order.
    pub fn lines(&self) -> (r: Vec<String>)
        ensures
            lines_view(r@) == report_lines(snap_view(self.new@), snap_view(self.missing@)),
    {
        let ghost nv = snap_view(self.new@);
        let ghost mv = snap_view(self.missing@);
        let mut out: Vec<String> = Vec::new();
        if self.new.len() == 0 && self.missing.len() == 0 {
            out.push(String::from_str("No threats found..."));
            proof {
                assert(lines_view(out@) =~= report_lines(nv, mv));
            }
            return out;
        }
        let n = self.new.len();
        let mut i: usize = 0;
        while i < n
            invariant
                n == self.new@.len(),
                i <= n,
                nv == snap_view(self.new@),
                lines_view(out@) == alert_lines(new_alert(), nv.take(i as int)),
            decreases n - i,
        {
            proof {
                assert(nv[i as int] == self.new@[i as int]@);
                assert(nv.take(i + 1).drop_last() =~= nv.take(i as int));
                assert(nv.take(i + 1).last() == nv[i as int]);
            }
            out.push(String::from_str("[-] New device detected!"));
            out.push(self.new[i].summary());
            proof {
                assert(lines_view(out@) =~= alert_lines(new_alert(), nv.take(i + 1)));
            }
            i += 1;
        }
        proof {
            assert(nv.take(n as int) =~= nv);
        }
        let m = self.missing.len();
        let mut i: usize = 0;
        while i < m
            invariant
                m == self.missing@.len(),
                n == self.new@.len(),
                i <= m,
                nv == snap_view(self.new@),
                mv == snap_view(self.missing@),
                lines_view(out@) == alert_lines(new_alert(), nv) + alert_lines(
                    missing_alert(),
                    mv.take(i as int),
                ),
            decreases m - i,
        {
            proof {
                assert(mv[i as int] == self.missing@[i as int]@);
                assert(mv.take(i + 1).drop_last() =~= mv.take(i as int));
                assert(mv.take(i + 1).last() == mv[i as int]);
            }
            let ghost prev_lines = lines_view(out@);
            out.push(String::from_str("[-] Device missing!"));
            out.push(self.missing[i].summary());
            proof {
                let extra = seq![missing_alert(), summary_of(mv[i as int])];
                assert(alert_lines(missing_alert(), mv.take(i + 1)) == alert_lines(
                    missing_alert(),
                    mv.take(i as int),
                ) + extra);
                assert(lines_view(out@) =~= prev_lines + extra);
                assert(prev_lines + extra =~= alert_lines(new_alert(), nv) + alert_lines(
                    missing_alert(),
                    mv.take(i + 1),
                ));
            }
            i += 1;
        }
        proof {
            assert(mv.take(m as int) =~= mv);
            assert(lines_view(out@) == report_lines(nv, mv));
        }
        out
    }
}

} // verus!
