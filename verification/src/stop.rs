//! Stopping captures: which are meant, what is signalled and removed, and
//! what is reported.

use crate::logs::{no_capture, no_capture_text};
use crate::meta::{meta_view, recorded, recorded_process, Meta, MetaView};
use crate::start::FAILURE;
use crate::text::{copy_text, decimal, decimal_text};
use vstd::prelude::*;
use vstd::string::*;

verus! {

/// What a stop request asks for.
pub enum Request {
    /// Stop every registered capture.
    All,
    /// Stop the capture of this name.
    One(String),
    /// Neither a name nor all: print the diagnostic to standard error and
    /// exit with the code.
    Unclear { diagnostic: String, code: i32 },
}

/// The mathematical content of a [`Request`].
pub ghost enum RequestView {
    All,
    One(Seq<char>),
    Unclear { diagnostic: Seq<char>, code: i32 },
}

impl View for Request {
    type V = RequestView;

    open spec fn view(&self) -> RequestView {
        match *self {
            Request::All => RequestView::All,
            Request::One(name) => RequestView::One(name@),
            Request::Unclear { diagnostic, code } => RequestView::Unclear {
                diagnostic: diagnostic@,
                code,
            },
        }
    }
}

/// The diagnostic for a request that names nothing.
pub open spec fn usage() -> Seq<char> {
    "error: provide a name or --all"@
}

/// What the arguments of a stop request ask for: all captures where that
/// is said, whatever name stands beside it; else the capture named.
pub open spec fn requested(name: Option<Seq<char>>, all: bool) -> RequestView {
    if all {
        RequestView::All
    } else {
        match name {
            Some(n) => RequestView::One(n),
            None => RequestView::Unclear { diagnostic: usage(), code: FAILURE },
        }
    }
}

/// The name as a sequence of characters.
pub open spec fn name_view(name: Option<&str>) -> Option<Seq<char>> {
    match name {
        Some(n) => Some(n@),
        None => None,
    }
}

/// Reads the arguments of a stop request.
pub fn run(name: Option<&str>, all: bool) -> (request: Request)
    ensures
        request@ == requested(name_view(name), all),
{
    if all {
        Request::All
    } else {
        match name {
            Some(n) => Request::One(String::from_str(n)),
            None => Request::Unclear {
                diagnostic: String::from_str("error: provide a name or --all"),
                code: FAILURE,
            },
        }
    }
}

/// A registered capture as it was found: its directory and its metadata
/// record, where that could be read.
pub struct Found {
    pub dir: String,
    pub meta: Option<Meta>,
}

/// The mathematical content of a [`Found`].
pub ghost struct FoundView {
    pub dir: Seq<char>,
    pub meta: Option<MetaView>,
}

impl View for Found {
    type V = FoundView;

    open spec fn view(&self) -> FoundView {
        FoundView { dir: self.dir@, meta: meta_view(self.meta) }
    }
}

/// The removal of one capture: first the termination signal is sent to
/// the process, if there is one to send it to, and whether or not that
/// succeeds the directory is then deleted with all below it.
pub struct Removal {
    pub signal: Option<i32>,
    pub dir: String,
}

/// The mathematical content of a [`Removal`].
pub ghost struct RemovalView {
    pub signal: Option<i32>,
    pub dir: Seq<char>,
}

impl View for Removal {
    type V = RemovalView;

    open spec fn view(&self) -> RemovalView {
        RemovalView { signal: self.signal, dir: self.dir@ }
    }
}

/// The removal of the capture `found`.
pub open spec fn removal_of(found: FoundView) -> RemovalView {
    RemovalView { signal: recorded(found.meta), dir: found.dir }
}

/// The process to send the termination signal to, for a capture whose
/// record is `meta`: the recorded one, and none where the record could not
/// be read.
pub fn kill_from_meta(meta: &Option<Meta>) -> (process: Option<i32>)
    ensures
        process == recorded(meta_view(*meta)),
{
    recorded_process(meta)
}

/// What a stop does and says.
pub struct Stopped {
    /// The removals to carry out, in order.
    pub removals: Vec<Removal>,
    /// The line to print to standard output.
    pub report: String,
}

/// A stop that cannot be done: the diagnostic for standard error and the
/// exit code.
pub struct Refused {
    pub diagnostic: String,
    pub code: i32,
}

/// The content of a list of removals.
pub open spec fn removal_views(removals: Seq<Removal>) -> Seq<RemovalView> {
    removals.map_values(|r: Removal| r@)
}

/// The content of a list of captures found.
pub open spec fn found_views(found: Seq<Found>) -> Seq<FoundView> {
    found.map_values(|f: Found| f@)
}

/// The report of a single stop.
pub open spec fn stopped_one(name: Seq<char>) -> Seq<char> {
    "stopped '"@ + name + "'"@
}

/// The report of a stop of all captures, `count` of them.
pub open spec fn stopped_all(count: nat) -> Seq<char> {
    "stopped "@ + decimal(count) + " capture(s)"@
}

/// Stops the capture `name`. It is refused exactly where the capture is
/// not registered, that is where nothing was found; else the capture is
/// removed, whether or not its process still runs.
pub fn stop_one(name: &str, found: Option<Found>) -> (out: Result<Stopped, Refused>)
    ensures
        match found {
            Some(f) => {
                &&& out matches Ok(stopped)
                &&& removal_views(stopped.removals@) == seq![removal_of(f@)]
                &&& stopped.report@ == stopped_one(name@)
            },
            None => {
                &&& out matches Err(refused)
                &&& refused.diagnostic@ == no_capture(name@)
                &&& refused.code == FAILURE
            },
        },
{
    match found {
        Some(f) => {
            let signal = kill_from_meta(&f.meta);
            let mut removals: Vec<Removal> = Vec::new();
            removals.push(Removal { signal, dir: f.dir });
            let mut report = String::from_str("stopped '");
            report.append(name);
            report.append("'");
            assert(removal_views(removals@) =~= seq![removal_of(f@)]);
            Ok(Stopped { removals, report })
        },
        None => Err(Refused { diagnostic: no_capture_text(name), code: FAILURE }),
    }
}

/// Stops every capture found: each is removed, in the order given and
/// whether or not its process still runs, and the report counts them.
/// With nothing found, nothing is removed and the count is zero.
pub fn stop_all(found: Vec<Found>) -> (stopped: Stopped)
    ensures
        removal_views(stopped.removals@) == found_views(found@).map_values(
            |f: FoundView| removal_of(f),
        ),
        stopped.removals@.len() == found@.len(),
        stopped.report@ == stopped_all(found@.len()),
{
    let ghost all = found_views(found@);
    let n = found.len();
    let mut removals: Vec<Removal> = Vec::new();
    let mut i: usize = 0;
    while i < n
        invariant
            i <= n,
            n == found.len(),
            all == found_views(found@),
            removals.len() == i,
            forall|k: int| 0 <= k < i ==> (#[trigger] removals@[k])@ == removal_of(all[k]),
        decreases n - i,
    {
        let signal = kill_from_meta(&found[i].meta);
        let dir = copy_text(&found[i].dir);
        removals.push(Removal { signal, dir });
        i += 1;
    }
    let mut report = String::from_str("stopped ");
    let count = decimal_text(n as u64);
    report.append(count.as_str());
    report.append(" capture(s)");
    assert(removal_views(removals@) =~= all.map_values(|f: FoundView| removal_of(f)));
    Stopped { removals, report }
}

} // verus!
