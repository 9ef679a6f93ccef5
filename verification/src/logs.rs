//! Reading a capture's log: which file, which lines of it, and following
//! it as it grows.

use crate::lines::{
    all_lines, chomp, complete_lines, contains, fragment, has_substring, is_line, lemma_cut,
    lemma_cut_in_pieces, lemma_cut_unique, no_newline, read_lines, text_lines, views, LineBuffer,
    CARRIAGE_RETURN, NEWLINE,
};
use crate::meta::{joined_path, log_name, log_path, Stream};
use crate::start::FAILURE;
use vstd::prelude::*;
use vstd::string::*;

verus! {

/// The time to sleep when a followed log has nothing new, in milliseconds.
pub const POLL_MILLIS: u64 = 100;

/// The diagnostic for a capture that is not registered.
pub open spec fn no_capture(name: Seq<char>) -> Seq<char> {
    "error: no capture '"@ + name + "'"@
}

/// The diagnostic for a capture that is not registered.
pub fn no_capture_text(name: &str) -> (text: String)
    ensures
        text@ == no_capture(name@),
{
    let mut text = String::from_str("error: no capture '");
    text.append(name);
    text.append("'");
    text
}

/// The stream whose log is read.
pub open spec fn chosen_stream(stderr: bool) -> Stream {
    if stderr {
        Stream::Stderr
    } else {
        Stream::Stdout
    }
}

/// How a request for a capture's log is served.
pub enum Plan {
    /// The capture is not registered: print the diagnostic to standard
    /// error, nothing to standard output, and exit with the code.
    Missing { diagnostic: String, code: i32 },
    /// Follow the file from its present end.
    Follow { path: String },
    /// Read the file and print the selected lines.
    Print { path: String },
}

/// The mathematical content of a [`Plan`].
pub ghost enum PlanView {
    Missing { diagnostic: Seq<char>, code: i32 },
    Follow { path: Seq<char> },
    Print { path: Seq<char> },
}

impl View for Plan {
    type V = PlanView;

    open spec fn view(&self) -> PlanView {
        match *self {
            Plan::Missing { diagnostic, code } => PlanView::Missing { diagnostic: diagnostic@, code },
            Plan::Follow { path } => PlanView::Follow { path: path@ },
            Plan::Print { path } => PlanView::Print { path: path@ },
        }
    }
}

/// How the log of the capture `name` in `dir` is served. A capture exists
/// where its directory does, whether or not its process still runs.
pub open spec fn planned(
    dir: Seq<char>,
    name: Seq<char>,
    exists: bool,
    follow: bool,
    stderr: bool,
) -> PlanView {
    if !exists {
        PlanView::Missing { diagnostic: no_capture(name), code: FAILURE }
    } else if follow {
        PlanView::Follow { path: joined_path(dir, log_name(chosen_stream(stderr))) }
    } else {
        PlanView::Print { path: joined_path(dir, log_name(chosen_stream(stderr))) }
    }
}

/// Decides how a request for the log of the capture `name` is served;
/// `dir` is the capture's directory and `exists` says whether it is there.
pub fn plan(dir: &str, name: &str, exists: bool, follow: bool, stderr: bool) -> (plan: Plan)
    ensures
        plan@ == planned(dir@, name@, exists, follow, stderr),
{
    if !exists {
        return Plan::Missing { diagnostic: no_capture_text(name), code: FAILURE };
    }
    let stream = if stderr {
        Stream::Stderr
    } else {
        Stream::Stdout
    };
    let path = log_path(dir, stream);
    if follow {
        Plan::Follow { path }
    } else {
        Plan::Print { path }
    }
}

/// The lines that contain `pattern`, in their order.
pub open spec fn grep(lines: Seq<Seq<u8>>, pattern: Seq<u8>) -> Seq<Seq<u8>> {
    lines.filter(|l: Seq<u8>| has_substring(l, pattern))
}

/// The lines that pass the filter: all of them where there is none.
pub open spec fn matching(lines: Seq<Seq<u8>>, pattern: Option<Seq<u8>>) -> Seq<Seq<u8>> {
    match pattern {
        Some(p) => grep(lines, p),
        None => lines,
    }
}

/// The first `n` of `lines`, or all of them if there are fewer.
pub open spec fn first_lines(lines: Seq<Seq<u8>>, n: nat) -> Seq<Seq<u8>> {
    if n <= lines.len() {
        lines.take(n as int)
    } else {
        lines
    }
}

/// The last `n` of `lines`, or all of them if there are fewer.
pub open spec fn last_lines(lines: Seq<Seq<u8>>, n: nat) -> Seq<Seq<u8>> {
    if n <= lines.len() {
        lines.skip(lines.len() - n)
    } else {
        lines
    }
}

/// The slice of `lines` that is asked for. A head count goes before a tail
/// count; with neither, all lines are taken.
pub open spec fn window(lines: Seq<Seq<u8>>, head: Option<usize>, tail: Option<usize>) -> Seq<
    Seq<u8>,
> {
    match head {
        Some(h) => first_lines(lines, h as nat),
        None => match tail {
            Some(n) => last_lines(lines, n as nat),
            None => lines,
        },
    }
}

/// The bytes of a pattern given as text.
pub open spec fn pattern_bytes(pattern: Option<&str>) -> Option<Seq<u8>> {
    match pattern {
        Some(p) => Some(p.spec_bytes()),
        None => None,
    }
}

/// The lines of the log `content` that a request selects: the log is read
/// as lines, the filter is applied, and the slice is taken of what passed.
pub open spec fn selected(
    content: Seq<u8>,
    lines: Option<usize>,
    head: Option<usize>,
    pattern: Option<Seq<u8>>,
) -> Seq<Seq<u8>> {
    window(matching(text_lines(content), pattern), head, lines)
}

/// Keeps the lines that contain `pattern`.
pub fn keep_matching(lines: Vec<Vec<u8>>, pattern: &[u8]) -> (kept: Vec<Vec<u8>>)
    ensures
        views(kept@) == grep(views(lines@), pattern@),
{
    let ghost all = views(lines@);
    let ghost pred = |l: Seq<u8>| has_substring(l, pattern@);
    let mut lines = lines;
    let mut kept: Vec<Vec<u8>> = Vec::new();
    let n = lines.len();
    let mut i: usize = 0;
    proof {
        assert(all.take(0) =~= Seq::<Seq<u8>>::empty());
        assert(views(kept@) =~= all.take(0).filter(pred));
    }
    while i < n
        invariant
            i <= n,
            n == lines.len(),
            all.len() == n,
            pred == (|l: Seq<u8>| has_substring(l, pattern@)),
            forall|k: int| i <= k < n ==> (#[trigger] lines@[k])@ == all[k],
            views(kept@) == all.take(i as int).filter(pred),
        decreases n - i,
    {
        let found = contains(lines[i].as_slice(), pattern);
        proof {
            assert(all.take(i + 1) =~= all.take(i as int).push(all[i as int]));
            all.take(i as int).lemma_filter_push(all[i as int], pred);
        }
        if found {
            let mut line: Vec<u8> = Vec::new();
            core::mem::swap(&mut line, &mut lines[i]);
            let ghost earlier = kept@;
            kept.push(line);
            proof {
                assert(views(kept@) =~= views(earlier).push(all[i as int]));
            }
        }
        i += 1;
    }
    proof {
        assert(all.take(n as int) =~= all);
    }
    kept
}

/// Takes the slice of `lines` that is asked for.
pub fn take_window(lines: Vec<Vec<u8>>, head: Option<usize>, tail: Option<usize>) -> (out: Vec<
    Vec<u8>,
>)
    ensures
        views(out@) == window(views(lines@), head, tail),
{
    let mut lines = lines;
    let ghost all = lines@;
    match head {
        Some(h) => {
            lines.truncate(h);
            proof {
                if h <= all.len() {
                    assert(views(lines@) =~= views(all).take(h as int));
                }
            }
            lines
        },
        None => match tail {
            Some(n) => {
                let len = lines.len();
                if n <= len {
                    let out = lines.split_off(len - n);
                    proof {
                        assert(views(out@) =~= views(all).skip(len - n));
                    }
                    out
                } else {
                    lines
                }
            },
            None => lines,
        },
    }
}

/// Selects the lines of the log `content` to print: those that contain
/// `grep`, if it is given, and of these the first `head`, or else the last
/// `lines`, or else all.
pub fn run(content: &[u8], lines: Option<usize>, head: Option<usize>, grep: Option<&str>) -> (out:
    Vec<Vec<u8>>)
    ensures
        views(out@) == selected(content@, lines, head, pattern_bytes(grep)),
{
    let all = read_lines(content);
    let passed = match grep {
        Some(p) => keep_matching(all, p.as_bytes()),
        None => all,
    };
    take_window(passed, head, lines)
}

/// The bytes printed for `lines`: each line followed by a newline.
pub open spec fn printed(lines: Seq<Seq<u8>>) -> Seq<u8> {
    lines.map_values(|l: Seq<u8>| l.push(NEWLINE)).flatten()
}

/// The bytes to print for `lines`.
pub fn print(lines: &Vec<Vec<u8>>) -> (out: Vec<u8>)
    ensures
        out@ == printed(views(lines@)),
{
    let ghost all = views(lines@).map_values(|l: Seq<u8>| l.push(NEWLINE));
    let mut out: Vec<u8> = Vec::new();
    let mut i: usize = 0;
    proof {
        assert(all.take(0) =~= Seq::<Seq<u8>>::empty());
    }
    while i < lines.len()
        invariant
            i <= lines.len(),
            all == views(lines@).map_values(|l: Seq<u8>| l.push(NEWLINE)),
            out@ == all.take(i as int).flatten(),
        decreases lines.len() - i,
    {
        let line = &lines[i];
        let ghost before = out@;
        let mut j: usize = 0;
        while j < line.len()
            invariant
                j <= line.len(),
                out@ == before + line@.take(j as int),
            decreases line.len() - j,
        {
            out.push(line[j]);
            proof {
                assert(before + line@.take(j as int).push(line@[j as int]) =~= before
                    + line@.take(j + 1));
            }
            j += 1;
        }
        out.push(NEWLINE);
        proof {
            assert(line@.take(line.len() as int) =~= line@);
            assert(all.take(i + 1) =~= all.take(i as int).push(all[i as int]));
            all.take(i as int).lemma_flatten_push(all[i as int]);
            assert(out@ =~= before + line@.push(NEWLINE));
        }
        i += 1;
    }
    proof {
        assert(all.take(lines.len() as int) =~= all);
    }
    out
}

/// Reading a log is repeatable: what is selected and printed depends on
/// the content of the log and on the request alone, so two answers to the
/// same request on the same log are the same lines and the same bytes.
pub proof fn lemma_logs_repeatable(
    content: Seq<u8>,
    lines: Option<usize>,
    head: Option<usize>,
    pattern: Option<Seq<u8>>,
    first: Seq<Seq<u8>>,
    second: Seq<Seq<u8>>,
)
    requires
        first == selected(content, lines, head, pattern),
        second == selected(content, lines, head, pattern),
    ensures
        first == second,
        printed(first) == printed(second),
{
}

/// `line` can be written as one line and read back: it holds no newline
/// and does not end in a carriage return.
pub open spec fn plain(line: Seq<u8>) -> bool {
    &&& no_newline(line)
    &&& line.len() > 0 ==> line.last() != CARRIAGE_RETURN
}

/// What is written line by line is read back line by line: a log made of
/// plain lines, each followed by a newline, reads as those lines in their
/// order.
pub proof fn lemma_reads_back(lines: Seq<Seq<u8>>)
    requires
        forall|i: int| 0 <= i < lines.len() ==> plain(#[trigger] lines[i]),
    ensures
        text_lines(printed(lines)) == lines,
{
    let ended = lines.map_values(|l: Seq<u8>| l.push(NEWLINE));
    assert forall|i: int| 0 <= i < ended.len() implies is_line(#[trigger] ended[i]) by {
        assert(plain(lines[i]));
        assert(ended[i].drop_last() =~= lines[i]);
    }
    assert(ended.flatten() + Seq::<u8>::empty() =~= printed(lines));
    lemma_cut_unique(printed(lines), ended, Seq::empty());
    assert forall|i: int| 0 <= i < lines.len() implies chomp(ended[i]) == lines[i] by {
        assert(plain(lines[i]));
        assert(ended[i].drop_last() =~= lines[i]);
    }
    assert(ended.map_values(|l: Seq<u8>| chomp(l)) =~= lines);
}

/// What a poll of a followed log gave.
pub enum Polled {
    /// Bytes that were appended.
    Data(Vec<u8>),
    /// Nothing new.
    Idle,
    /// The read failed, for the reason given.
    Failed(String),
}

/// What to do after a poll.
pub enum Next {
    /// Print these lines, each followed by a newline, and poll again.
    Print(Vec<Vec<u8>>),
    /// Sleep for so many milliseconds, then poll again.
    Sleep(u64),
    /// Print the diagnostic to standard error and stop.
    Halt(String),
}

/// The state of following a log: a filter, and the bytes of a line that is
/// not complete yet.
pub struct Follower {
    buffer: LineBuffer,
    pattern: Option<Vec<u8>>,
}

/// The mathematical content of a [`Follower`].
pub ghost struct FollowerView {
    pub held: Seq<u8>,
    pub pattern: Option<Seq<u8>>,
}

impl View for Follower {
    type V = FollowerView;

    closed spec fn view(&self) -> FollowerView {
        FollowerView {
            held: self.buffer@,
            pattern: match self.pattern {
                Some(p) => Some(p@),
                None => None,
            },
        }
    }
}

/// The lines that `data` completes, without their terminators.
pub open spec fn appended_lines(data: Seq<u8>) -> Seq<Seq<u8>> {
    complete_lines(data).map_values(|l: Seq<u8>| l.drop_last())
}

/// The diagnostic for a failed read of a followed log.
pub open spec fn read_error(reason: Seq<char>) -> Seq<char> {
    "error reading log: "@ + reason
}

impl Follower {
    /// A follower that starts at the present end of the log and prints
    /// the lines that contain `grep`, or all lines where none is given.
    pub fn new(grep: Option<&str>) -> (follower: Follower)
        ensures
            follower@ == (FollowerView { held: Seq::empty(), pattern: pattern_bytes(grep) }),
    {
        let pattern = match grep {
            Some(p) => Some(p.as_bytes_vec()),
            None => None,
        };
        Follower { buffer: LineBuffer::new(), pattern }
    }
}

/// One step of following a log. Only complete lines are printed, each
/// when its newline has arrived and if it passes the filter; nothing new
/// means a sleep of [`POLL_MILLIS`]; a failed read ends the following.
pub fn tail_follow(follower: &mut Follower, polled: Polled) -> (next: Next)
    ensures
        final(follower)@.pattern == old(follower)@.pattern,
        match polled {
            Polled::Data(bytes) => {
                &&& next matches Next::Print(lines)
                &&& views(lines@) == matching(
                    appended_lines(old(follower)@.held + bytes@),
                    old(follower)@.pattern,
                )
                &&& final(follower)@.held == fragment(old(follower)@.held + bytes@)
            },
            Polled::Idle => {
                &&& next matches Next::Sleep(millis)
                &&& millis == POLL_MILLIS
                &&& final(follower)@.held == old(follower)@.held
            },
            Polled::Failed(reason) => {
                &&& next matches Next::Halt(diagnostic)
                &&& diagnostic@ == read_error(reason@)
                &&& final(follower)@.held == old(follower)@.held
            },
        },
{
    match polled {
        Polled::Data(bytes) => {
            let ghost data = follower.buffer@ + bytes@;
            let mut whole = follower.buffer.feed(bytes.as_slice());
            let ghost cut = complete_lines(data);
            proof {
                lemma_cut(data);
            }
            let mut lines: Vec<Vec<u8>> = Vec::new();
            let n = whole.len();
            let mut i: usize = 0;
            while i < n
                invariant
                    i <= n,
                    n == whole.len(),
                    cut.len() == n,
                    all_lines(cut),
                    forall|k: int| i <= k < n ==> (#[trigger] whole@[k])@ == cut[k],
                    views(lines@) == cut.take(i as int).map_values(|l: Seq<u8>| l.drop_last()),
                decreases n - i,
            {
                let mut line: Vec<u8> = Vec::new();
                core::mem::swap(&mut line, &mut whole[i]);
                proof {
                    assert(is_line(cut[i as int]));
                }
                line.pop();
                let ghost earlier = lines@;
                lines.push(line);
                proof {
                    assert(line@ =~= cut[i as int].drop_last());
                    assert(cut.take(i + 1) =~= cut.take(i as int).push(cut[i as int]));
                    assert(views(lines@) =~= views(earlier).push(cut[i as int].drop_last()));
                    assert(cut.take(i + 1).map_values(|l: Seq<u8>| l.drop_last()) =~= cut.take(
                        i as int,
                    ).map_values(|l: Seq<u8>| l.drop_last()).push(cut[i as int].drop_last()));
                }
                i += 1;
            }
            proof {
                assert(cut.take(n as int) =~= cut);
            }
            let lines = match &follower.pattern {
                Some(p) => keep_matching(lines, p.as_slice()),
                None => lines,
            };
            Next::Print(lines)
        },
        Polled::Idle => Next::Sleep(POLL_MILLIS),
        Polled::Failed(reason) => {
            let mut diagnostic = String::from_str("error reading log: ");
            diagnostic.append(reason.as_str());
            Next::Halt(diagnostic)
        },
    }
}

/// What a following that holds `held` prints for the appended `chunks`,
/// one poll each, and what it then holds back.
pub open spec fn followed(held: Seq<u8>, pattern: Option<Seq<u8>>, chunks: Seq<Seq<u8>>) -> (
    Seq<Seq<u8>>,
    Seq<u8>,
)
    decreases chunks.len(),
{
    if chunks.len() == 0 {
        (Seq::empty(), held)
    } else {
        let (shown, kept) = followed(held, pattern, chunks.drop_last());
        (
            shown + matching(appended_lines(kept + chunks.last()), pattern),
            fragment(kept + chunks.last()),
        )
    }
}

/// A following prints the complete lines of what was appended since it
/// began, those that pass the filter, each once and in their order,
/// however the appended bytes are spread over the polls.
pub proof fn lemma_followed(pattern: Option<Seq<u8>>, chunks: Seq<Seq<u8>>)
    ensures
        followed(Seq::empty(), pattern, chunks) == (
            matching(appended_lines(chunks.flatten()), pattern),
            fragment(chunks.flatten()),
        ),
    decreases chunks.len(),
{
    if chunks.len() == 0 {
        assert(chunks.flatten() =~= Seq::<u8>::empty());
        assert(appended_lines(chunks.flatten()) =~= Seq::<Seq<u8>>::empty());
        assert(matching(Seq::<Seq<u8>>::empty(), pattern) =~= Seq::<Seq<u8>>::empty());
    } else {
        let front = chunks.drop_last();
        let last = chunks.last();
        lemma_followed(pattern, front);
        assert(chunks =~= front.push(last));
        front.lemma_flatten_push(last);
        lemma_cut_in_pieces(front.flatten(), last);
        let before = appended_lines(front.flatten());
        let after = appended_lines(fragment(front.flatten()) + last);
        assert(appended_lines(chunks.flatten()) =~= before + after);
        match pattern {
            Some(p) => {
                Seq::filter_distributes_over_add(
                    before,
                    after,
                    |l: Seq<u8>| has_substring(l, p),
                );
            },
            None => {},
        }
    }
}

} // verus!
