//! Line handling on raw bytes: cutting a stream after each newline, reading
//! a log back as lines, and substring search.
//!
//! Logs are opaque byte streams. Nothing here assumes an encoding.

use vstd::prelude::*;

verus! {

/// The line terminator.
pub const NEWLINE: u8 = 10;

/// The byte that may precede a terminator in text written on other systems.
pub const CARRIAGE_RETURN: u8 = 13;

/// The byte content of a list of byte vectors.
pub open spec fn views(lines: Seq<Vec<u8>>) -> Seq<Seq<u8>> {
    lines.map_values(|l: Vec<u8>| l@)
}

/// No newline occurs in `s`.
pub open spec fn no_newline(s: Seq<u8>) -> bool {
    forall|j: int| 0 <= j < s.len() ==> s[j] != NEWLINE
}

/// `l` is one complete line: it ends in a newline and holds no other.
pub open spec fn is_line(l: Seq<u8>) -> bool {
    &&& l.len() > 0
    &&& l.last() == NEWLINE
    &&& no_newline(l.drop_last())
}

/// Every element of `lines` is a complete line.
pub open spec fn all_lines(lines: Seq<Seq<u8>>) -> bool {
    forall|i: int| 0 <= i < lines.len() ==> is_line(#[trigger] lines[i])
}

/// `data` cut after each newline gives `lines`, with `rest` left over.
pub open spec fn cut_into(data: Seq<u8>, lines: Seq<Seq<u8>>, rest: Seq<u8>) -> bool {
    &&& lines.flatten() + rest == data
    &&& all_lines(lines)
    &&& no_newline(rest)
}

/// What follows the last newline of `data` (all of it, if there is none).
pub open spec fn fragment(data: Seq<u8>) -> Seq<u8>
    decreases data.len(),
{
    if data.len() == 0 || data.last() == NEWLINE {
        Seq::empty()
    } else {
        fragment(data.drop_last()).push(data.last())
    }
}

/// The complete lines of `data`, each with its terminator, in order.
pub open spec fn complete_lines(data: Seq<u8>) -> Seq<Seq<u8>>
    decreases data.len(),
{
    if data.len() == 0 {
        Seq::empty()
    } else if data.last() == NEWLINE {
        complete_lines(data.drop_last()).push(fragment(data.drop_last()).push(NEWLINE))
    } else {
        complete_lines(data.drop_last())
    }
}

/// The complete lines of `data` and its fragment are a cut of `data`:
/// put back together they give `data` byte for byte.
pub proof fn lemma_cut(data: Seq<u8>)
    ensures
        cut_into(data, complete_lines(data), fragment(data)),
    decreases data.len(),
{
    if data.len() == 0 {
        assert(complete_lines(data).flatten() + fragment(data) =~= data);
    } else {
        let before = data.drop_last();
        lemma_cut(before);
        let lines = complete_lines(before);
        let rest = fragment(before);
        if data.last() == NEWLINE {
            let line = rest.push(NEWLINE);
            assert(line.drop_last() =~= rest);
            lines.lemma_flatten_push(line);
            assert(data =~= before.push(NEWLINE));
            assert(lines.flatten() + line =~= (lines.flatten() + rest).push(NEWLINE));
            assert(lines.push(line).flatten() + Seq::<u8>::empty() =~= data);
            assert forall|i: int| 0 <= i < lines.push(line).len() implies is_line(
                #[trigger] lines.push(line)[i],
            ) by {
                if i < lines.len() {
                    assert(lines.push(line)[i] == lines[i]);
                }
            }
        } else {
            assert(data =~= before.push(data.last()));
            assert(lines.flatten() + rest.push(data.last()) =~= (lines.flatten() + rest).push(
                data.last(),
            ));
        }
    }
}

/// A non-empty list of complete lines flattens to a non-empty sequence
/// whose last byte is a newline.
proof fn lemma_flatten_lines_last(lines: Seq<Seq<u8>>)
    requires
        all_lines(lines),
        lines.len() > 0,
    ensures
        lines.flatten() == lines.drop_last().flatten() + lines.last(),
        lines.flatten().len() > 0,
        lines.flatten().last() == NEWLINE,
{
    let front = lines.drop_last();
    let line = lines.last();
    assert(lines =~= front.push(line));
    front.lemma_flatten_push(line);
    assert(is_line(lines[lines.len() - 1]));
}

/// There is only one way to cut `data` after each newline.
pub proof fn lemma_cut_unique(data: Seq<u8>, lines: Seq<Seq<u8>>, rest: Seq<u8>)
    requires
        cut_into(data, lines, rest),
    ensures
        lines == complete_lines(data),
        rest == fragment(data),
    decreases data.len(),
{
    if data.len() == 0 {
        assert(rest =~= Seq::<u8>::empty());
        if lines.len() > 0 {
            lemma_flatten_lines_last(lines);
        }
        assert(lines =~= Seq::<Seq<u8>>::empty());
    } else if rest.len() > 0 {
        let before = data.drop_last();
        let shorter = rest.drop_last();
        assert(data.last() == rest.last());
        assert(lines.flatten() + shorter =~= before);
        lemma_cut_unique(before, lines, shorter);
        assert(shorter.push(rest.last()) =~= rest);
    } else {
        assert(lines.flatten() =~= data);
        if lines.len() == 0 {
            assert(lines.flatten() =~= Seq::<u8>::empty());
        }
        lemma_flatten_lines_last(lines);
        let front = lines.drop_last();
        let line = lines.last();
        let before = data.drop_last();
        assert(is_line(lines[lines.len() - 1]));
        assert(front.flatten() + line.drop_last() =~= before);
        assert forall|i: int| 0 <= i < front.len() implies is_line(#[trigger] front[i]) by {
            assert(front[i] == lines[i]);
        }
        lemma_cut_unique(before, front, line.drop_last());
        assert(line.drop_last().push(NEWLINE) =~= line);
        assert(front.push(line) =~= lines);
    }
}

/// Cutting a stream does not depend on how it arrives: the lines of `a`
/// followed by the lines of what `a` left over and `b` are the lines of
/// `a + b`, and the same fragment is left.
pub proof fn lemma_cut_in_pieces(a: Seq<u8>, b: Seq<u8>)
    ensures
        complete_lines(a + b) == complete_lines(a) + complete_lines(fragment(a) + b),
        fragment(a + b) == fragment(fragment(a) + b),
{
    let first = complete_lines(a);
    let held = fragment(a);
    let second = complete_lines(held + b);
    let rest = fragment(held + b);
    lemma_cut(a);
    lemma_cut(held + b);
    vstd::seq_lib::lemma_flatten_concat(first, second);
    assert((first + second).flatten() + rest =~= a + b) by {
        assert(first.flatten() + (second.flatten() + rest) =~= first.flatten() + second.flatten()
            + rest);
        assert(first.flatten() + (held + b) =~= (first.flatten() + held) + b);
    }
    assert forall|i: int| 0 <= i < (first + second).len() implies is_line(
        #[trigger] (first + second)[i],
    ) by {
        if i < first.len() {
            assert((first + second)[i] == first[i]);
        } else {
            assert((first + second)[i] == second[i - first.len()]);
        }
    }
    lemma_cut_unique(a + b, first + second, rest);
}

/// A line buffer: the bytes received since the last newline. It never
/// holds a newline itself.
pub struct LineBuffer {
    pending: Vec<u8>,
}

impl View for LineBuffer {
    type V = Seq<u8>;

    closed spec fn view(&self) -> Seq<u8> {
        self.pending@
    }
}

impl LineBuffer {
    /// The bytes held back never contain a newline.
    #[verifier::type_invariant]
    spec fn holds_no_newline(&self) -> bool {
        no_newline(self.pending@)
    }

    /// An empty buffer.
    pub fn new() -> (buffer: LineBuffer)
        ensures
            buffer@ == Seq::<u8>::empty(),
    {
        LineBuffer { pending: Vec::new() }
    }

    /// Takes `chunk` in and hands out the lines that it completes, each with
    /// its terminator; what follows the last newline is held back.
    pub fn feed(&mut self, chunk: &[u8]) -> (lines: Vec<Vec<u8>>)
        ensures
            views(lines@) == complete_lines(old(self)@ + chunk@),
            final(self)@ == fragment(old(self)@ + chunk@),
    {
        proof {
            use_type_invariant(&*self);
        }
        let ghost start = self.pending@;
        let mut held: Vec<u8> = Vec::new();
        core::mem::swap(&mut held, &mut self.pending);
        let mut lines: Vec<Vec<u8>> = Vec::new();
        let mut i: usize = 0;
        proof {
            lemma_cut_unique(start, Seq::empty(), start);
            assert(start + chunk@.take(0) =~= start);
            assert(views(lines@) =~= Seq::<Seq<u8>>::empty());
        }
        while i < chunk.len()
            invariant
                i <= chunk.len(),
                views(lines@) == complete_lines(start + chunk@.take(i as int)),
                held@ == fragment(start + chunk@.take(i as int)),
            decreases chunk.len() - i,
        {
            let byte = chunk[i];
            let ghost seen = start + chunk@.take(i as int);
            let ghost before = held@;
            proof {
                assert(start + chunk@.take(i + 1) =~= seen.push(byte));
                assert(seen.push(byte).drop_last() =~= seen);
            }
            held.push(byte);
            if byte == NEWLINE {
                let mut line: Vec<u8> = Vec::new();
                core::mem::swap(&mut line, &mut held);
                let ghost earlier = lines@;
                lines.push(line);
                proof {
                    assert(views(lines@) =~= views(earlier).push(before.push(NEWLINE)));
                }
            }
            i += 1;
        }
        proof {
            assert(chunk@.take(chunk.len() as int) =~= chunk@);
            lemma_cut(start + chunk@);
        }
        self.pending = held;
        lines
    }

    /// Ends the stream: hands out what was held back and leaves the buffer
    /// empty.
    pub fn finish(&mut self) -> (rest: Vec<u8>)
        ensures
            rest@ == old(self)@,
            final(self)@ == Seq::<u8>::empty(),
    {
        let mut rest: Vec<u8> = Vec::new();
        core::mem::swap(&mut rest, &mut self.pending);
        rest
    }
}

/// `line` without the newline at its end, and without the carriage return
/// before that newline if there is one. A line that does not end in a
/// newline is left as it is.
pub open spec fn chomp(line: Seq<u8>) -> Seq<u8> {
    if line.len() > 0 && line.last() == NEWLINE {
        let body = line.drop_last();
        if body.len() > 0 && body.last() == CARRIAGE_RETURN {
            body.drop_last()
        } else {
            body
        }
    } else {
        line
    }
}

/// The lines of a text as a reader sees them: each complete line without
/// its terminator, then the unterminated rest if it is not empty.
pub open spec fn text_lines(content: Seq<u8>) -> Seq<Seq<u8>> {
    let whole = complete_lines(content).map_values(|l: Seq<u8>| chomp(l));
    if fragment(content).len() > 0 {
        whole.push(fragment(content))
    } else {
        whole
    }
}

/// Removes the terminator of a line, if it has one.
pub fn strip_terminator(line: Vec<u8>) -> (body: Vec<u8>)
    ensures
        body@ == chomp(line@),
{
    let mut body = line;
    let len = body.len();
    if len > 0 && body[len - 1] == NEWLINE {
        body.pop();
        if len > 1 && body[len - 2] == CARRIAGE_RETURN {
            body.pop();
        }
    }
    body
}

/// Reads `content` as lines.
pub fn read_lines(content: &[u8]) -> (lines: Vec<Vec<u8>>)
    ensures
        views(lines@) == text_lines(content@),
{
    let mut buffer = LineBuffer::new();
    let mut whole = buffer.feed(content);
    let rest = buffer.finish();
    proof {
        assert(Seq::<u8>::empty() + content@ =~= content@);
        lemma_cut(content@);
    }
    let ghost cut = complete_lines(content@);
    let mut lines: Vec<Vec<u8>> = Vec::new();
    let n = whole.len();
    let mut i: usize = 0;
    while i < n
        invariant
            i <= n,
            n == whole.len(),
            cut.len() == n,
            all_lines(cut),
            forall|k: int| i <= k < n ==> (#[trigger] whole@[k])@ == cut[k],
            views(lines@) == cut.take(i as int).map_values(|l: Seq<u8>| chomp(l)),
        decreases n - i,
    {
        let mut line: Vec<u8> = Vec::new();
        core::mem::swap(&mut line, &mut whole[i]);
        proof {
            assert(is_line(cut[i as int]));
        }
        let ghost earlier = lines@;
        let body = strip_terminator(line);
        lines.push(body);
        proof {
            assert(cut.take(i + 1) =~= cut.take(i as int).push(cut[i as int]));
            assert(views(lines@) =~= views(earlier).push(chomp(cut[i as int])));
            assert(cut.take(i + 1).map_values(|l: Seq<u8>| chomp(l)) =~= cut.take(
                i as int,
            ).map_values(|l: Seq<u8>| chomp(l)).push(chomp(cut[i as int])));
        }
        i += 1;
    }
    proof {
        assert(cut.take(n as int) =~= cut);
    }
    if rest.len() > 0 {
        let ghost earlier = lines@;
        lines.push(rest);
        proof {
            assert(views(lines@) =~= views(earlier).push(fragment(content@)));
        }
    }
    lines
}

/// `needle` stands in `hay` at position `at`.
pub open spec fn occurs_at(hay: Seq<u8>, needle: Seq<u8>, at: int) -> bool {
    &&& 0 <= at
    &&& at + needle.len() <= hay.len()
    &&& hay.subrange(at, at + needle.len()) == needle
}

/// `needle` stands somewhere in `hay`. The empty needle stands everywhere.
pub open spec fn has_substring(hay: Seq<u8>, needle: Seq<u8>) -> bool {
    exists|at: int| occurs_at(hay, needle, at)
}

/// Whether `needle` stands in `hay` at `at`.
fn matches_at(hay: &[u8], needle: &[u8], at: usize) -> (found: bool)
    requires
        at + needle@.len() <= hay@.len(),
    ensures
        found == occurs_at(hay@, needle@, at as int),
{
    let n = hay.len();
    let m = needle.len();
    let mut j: usize = 0;
    while j < m
        invariant
            j <= m,
            m == needle@.len(),
            n == hay@.len(),
            at + m <= n,
            forall|k: int| 0 <= k < j ==> hay@[at + k] == needle@[k],
        decreases m - j,
    {
        if hay[at + j] != needle[j] {
            proof {
                assert(hay@.subrange(at as int, at + m)[j as int] == hay@[at + j]);
            }
            return false;
        }
        j += 1;
    }
    proof {
        assert(hay@.subrange(at as int, at + m) =~= needle@);
    }
    true
}

/// Case-sensitive substring test on bytes.
pub fn contains(hay: &[u8], needle: &[u8]) -> (found: bool)
    ensures
        found == has_substring(hay@, needle@),
{
    let n = hay.len();
    let m = needle.len();
    if m > n {
        return false;
    }
    let last = n - m;
    let mut at: usize = 0;
    while at < last
        invariant
            n == hay@.len(),
            m == needle@.len(),
            last == n - m,
            at <= last,
            forall|k: int| 0 <= k < at ==> !occurs_at(hay@, needle@, k),
        decreases last - at,
    {
        if matches_at(hay, needle, at) {
            return true;
        }
        at += 1;
    }
    matches_at(hay, needle, last)
}

} // verus!
