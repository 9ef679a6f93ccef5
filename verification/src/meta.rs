//! The metadata record of a capture and the layout of the registry on disk.

use crate::text::{copy_text, copy_texts};
use vstd::prelude::*;
use vstd::string::*;

verus! {

/// What is recorded about a capture when its process is spawned.
pub struct Meta {
    /// Process identifier of the spawned child.
    pub pid: u32,
    /// Program and arguments, in the order given.
    pub command: Vec<String>,
    /// UTC time of the spawn, already formatted.
    pub started_at: String,
}

/// The mathematical content of a [`Meta`].
pub ghost struct MetaView {
    pub pid: u32,
    pub command: Seq<Seq<char>>,
    pub started_at: Seq<char>,
}

impl View for Meta {
    type V = MetaView;

    open spec fn view(&self) -> MetaView {
        MetaView {
            pid: self.pid,
            command: self.command.deep_view(),
            started_at: self.started_at@,
        }
    }
}

impl Meta {
    /// Builds the record for a freshly spawned child.
    pub fn new(pid: u32, command: Vec<String>, started_at: String) -> (meta: Meta)
        ensures
            meta@.pid == pid,
            meta@.command == command.deep_view(),
            meta@.started_at == started_at@,
    {
        Meta { pid, command, started_at }
    }

    /// A copy of the record.
    pub fn duplicate(&self) -> (copy: Meta)
        ensures
            copy@ == self@,
    {
        Meta {
            pid: self.pid,
            command: copy_texts(&self.command),
            started_at: copy_text(&self.started_at),
        }
    }
}

/// The process that a recorded `pid` names, as the number that the
/// system takes for a single process: there is none for zero, nor for a
/// number beyond the range of process identifiers, both of which would
/// address a group of processes.
pub open spec fn process_of(pid: u32) -> Option<i32> {
    if 0 < pid <= i32::MAX {
        Some(pid as i32)
    } else {
        None
    }
}

/// The process that a recorded `pid` names, if it can name one.
pub fn process_id(pid: u32) -> (process: Option<i32>)
    ensures
        process == process_of(pid),
{
    if 0 < pid && pid <= 0x7fff_ffff {
        Some(pid as i32)
    } else {
        None
    }
}

/// The process of a capture whose record is `meta`: the one that the
/// record names, and none where there is no record.
pub open spec fn recorded(meta: Option<MetaView>) -> Option<i32> {
    match meta {
        Some(m) => process_of(m.pid),
        None => None,
    }
}

/// The content of a record that may be missing.
pub open spec fn meta_view(meta: Option<Meta>) -> Option<MetaView> {
    match meta {
        Some(m) => Some(m@),
        None => None,
    }
}

/// The process of a capture whose record is `meta`, to probe or to signal.
pub fn recorded_process(meta: &Option<Meta>) -> (process: Option<i32>)
    ensures
        process == recorded(meta_view(*meta)),
{
    match meta {
        Some(m) => process_id(m.pid),
        None => None,
    }
}

/// `part` appended to the path `base`. A `part` that begins with the
/// separator is a path of its own and replaces `base`; otherwise one
/// separator stands between the two, unless `base` is empty or ends in one.
pub open spec fn joined_path(base: Seq<char>, part: Seq<char>) -> Seq<char> {
    if part.len() > 0 && part[0] == '/' {
        part
    } else if base.len() > 0 && base.last() != '/' {
        base + seq!['/'] + part
    } else {
        base + part
    }
}

/// Appends `part` to the path `base`.
pub fn join_path(base: &str, part: &str) -> (path: String)
    ensures
        path@ == joined_path(base@, part@),
{
    if part.unicode_len() > 0 && part.get_char(0) == '/' {
        return String::from_str(part);
    }
    let len = base.unicode_len();
    let mut path = String::from_str(base);
    if len > 0 && base.get_char(len - 1) != '/' {
        proof {
            reveal_strlit("/");
            assert("/"@ =~= seq!['/']);
        }
        path.append("/");
    }
    path.append(part);
    path
}

/// The registry directory of the user whose home directory is `home`.
pub open spec fn base_path(home: Seq<char>) -> Seq<char> {
    joined_path(home, ".capture"@)
}

/// The directory of the capture `name` in that registry.
pub open spec fn capture_path(home: Seq<char>, name: Seq<char>) -> Seq<char> {
    joined_path(base_path(home), name)
}

/// The registry directory under the home directory `home`.
pub fn base_dir(home: &str) -> (dir: String)
    ensures
        dir@ == base_path(home@),
{
    join_path(home, ".capture")
}

/// The directory of the capture `name`. It depends on `home` and `name`
/// alone.
pub fn capture_dir(home: &str, name: &str) -> (dir: String)
    ensures
        dir@ == capture_path(home@, name@),
{
    let base = base_dir(home);
    join_path(base.as_str(), name)
}

/// One of the two output streams of a child.
#[derive(Clone, Copy, PartialEq, Eq, Structural, Debug)]
pub enum Stream {
    /// Standard output.
    Stdout,
    /// Standard error.
    Stderr,
}

/// The name of the log file of `stream` in a capture directory.
pub open spec fn log_name(stream: Stream) -> Seq<char> {
    match stream {
        Stream::Stdout => "stdout.log"@,
        Stream::Stderr => "stderr.log"@,
    }
}

/// The name of the metadata record in a capture directory.
pub open spec fn meta_name() -> Seq<char> {
    "meta.json"@
}

/// The name of the log file of `stream`.
pub fn log_file(stream: Stream) -> (name: &'static str)
    ensures
        name@ == log_name(stream),
{
    match stream {
        Stream::Stdout => "stdout.log",
        Stream::Stderr => "stderr.log",
    }
}

/// The path of the log file of `stream` in the capture directory `dir`.
pub fn log_path(dir: &str, stream: Stream) -> (path: String)
    ensures
        path@ == joined_path(dir@, log_name(stream)),
{
    join_path(dir, log_file(stream))
}

/// The path of the metadata record in the capture directory `dir`.
pub fn meta_path(dir: &str) -> (path: String)
    ensures
        path@ == joined_path(dir@, meta_name()),
{
    join_path(dir, "meta.json")
}

/// The two streams have logs of their own, and neither is the metadata
/// record: within one capture directory the three paths differ.
pub proof fn lemma_files_distinct(dir: Seq<char>, a: Stream, b: Stream)
    ensures
        joined_path(dir, log_name(a)) == joined_path(dir, log_name(b)) <==> a == b,
        joined_path(dir, log_name(a)) != joined_path(dir, meta_name()),
{
    reveal_strlit("stdout.log");
    reveal_strlit("stderr.log");
    reveal_strlit("meta.json");
    let out = joined_path(dir, "stdout.log"@);
    let err = joined_path(dir, "stderr.log"@);
    let meta = joined_path(dir, "meta.json"@);
    assert(out.len() == err.len());
    assert(out[out.len() - 7] == 'o');
    assert(err[err.len() - 7] == 'e');
    assert(out.len() == meta.len() + 1);
}

/// The registry directory never ends in a separator, so a capture whose
/// name does not begin with one lies directly below it.
pub proof fn lemma_capture_below_base(home: Seq<char>, name: Seq<char>)
    requires
        name.len() == 0 || name[0] != '/',
    ensures
        capture_path(home, name) == base_path(home) + seq!['/'] + name,
{
    reveal_strlit(".capture");
    let base = base_path(home);
    assert(".capture"@.last() == 'e');
    assert(base.len() > 0 && base.last() == 'e');
}

/// Two names that do not begin with a separator and differ have different
/// directories: the name identifies the capture.
pub proof fn lemma_capture_dir_injective(home: Seq<char>, a: Seq<char>, b: Seq<char>)
    requires
        a.len() == 0 || a[0] != '/',
        b.len() == 0 || b[0] != '/',
        capture_path(home, a) == capture_path(home, b),
    ensures
        a == b,
{
    lemma_capture_below_base(home, a);
    lemma_capture_below_base(home, b);
    let prefix = base_path(home) + seq!['/'];
    assert((prefix + a).len() == (prefix + b).len());
    assert forall|i: int| 0 <= i < a.len() implies a[i] == b[i] by {
        assert((prefix + a)[prefix.len() + i] == a[i]);
        assert((prefix + b)[prefix.len() + i] == b[i]);
    }
    assert(a =~= b);
}

} // verus!
