//! Invocation options relevant to report rendering.

use vstd::prelude::*;

verus! {

/// Options that shape a report invocation: whether mutating commands are
/// suppressed, and the display width handed to the tool (0 means unlimited).
#[derive(Clone, Copy, Debug, PartialEq, Eq, Structural)]
pub struct Opts {
    /// Read only mode
    pub dry_run: bool,
    /// Report width in character count, 0 means unlimited
    pub report_width: usize,
}

impl Default for Opts {
    fn default() -> (r: Self)
        ensures
            !r.dry_run,
            r.report_width == 0,
    {
        Opts { dry_run: false, report_width: 0 }
    }
}

/// The options used when no command line is parsed: not read only,
/// unlimited width.
pub fn get_default_opts() -> (r: Opts)
    ensures
        !r.dry_run,
        r.report_width == 0,
{
    Opts::default()
}

} // verus!
