//! Listing the registered captures: which directories count, in what
//! order they are shown, and what a row says.

use crate::meta::{meta_view, Meta, MetaView};
use crate::text::{decimal, decimal_text, join, joined, pad, padded};
use vstd::multiset::Multiset;
use vstd::prelude::*;
use vstd::string::*;
use vstd::utf8::encode_utf8;

verus! {

/// A directory of the registry as it was found: its name, its metadata
/// record where that could be read, and whether the recorded process was
/// found to exist.
pub struct Scanned {
    pub name: String,
    pub meta: Option<Meta>,
    pub alive: bool,
}

/// The mathematical content of a [`Scanned`].
pub ghost struct ScannedView {
    pub name: Seq<char>,
    pub meta: Option<MetaView>,
    pub alive: bool,
}

impl View for Scanned {
    type V = ScannedView;

    open spec fn view(&self) -> ScannedView {
        ScannedView { name: self.name@, meta: meta_view(self.meta), alive: self.alive }
    }
}

/// A capture that is listed.
pub struct Entry {
    pub name: String,
    pub meta: Meta,
    pub alive: bool,
}

/// The mathematical content of an [`Entry`].
pub ghost struct EntryView {
    pub name: Seq<char>,
    pub meta: MetaView,
    pub alive: bool,
}

impl View for Entry {
    type V = EntryView;

    open spec fn view(&self) -> EntryView {
        EntryView { name: self.name@, meta: self.meta@, alive: self.alive }
    }
}

/// The content of a list of directories found.
pub open spec fn scanned_views(scanned: Seq<Scanned>) -> Seq<ScannedView> {
    scanned.map_values(|s: Scanned| s@)
}

/// The content of a list of entries.
pub open spec fn entry_views(entries: Seq<Entry>) -> Seq<EntryView> {
    entries.map_values(|e: Entry| e@)
}

/// The entry of a directory: there is one where its record could be read.
pub open spec fn entry_of(scanned: ScannedView) -> Option<EntryView> {
    match scanned.meta {
        Some(meta) => Some(EntryView { name: scanned.name, meta, alive: scanned.alive }),
        None => None,
    }
}

/// The captures that are listed: the directories whose record could be
/// read, in the order in which they were found. The others are passed
/// over.
pub open spec fn registered(scanned: Seq<ScannedView>) -> Seq<EntryView> {
    scanned.filter_map(|s: ScannedView| entry_of(s))
}

/// `a` does not come after `b` in the order of byte strings: byte by
/// byte, and a prefix before what continues it.
pub open spec fn lex_le(a: Seq<u8>, b: Seq<u8>) -> bool
    decreases a.len(),
{
    if a.len() == 0 {
        true
    } else if b.len() == 0 {
        false
    } else if a[0] != b[0] {
        a[0] < b[0]
    } else {
        lex_le(a.drop_first(), b.drop_first())
    }
}

/// The order of names: that of their bytes.
pub open spec fn name_le(a: Seq<char>, b: Seq<char>) -> bool {
    lex_le(encode_utf8(a), encode_utf8(b))
}

/// Of two byte strings one does not come after the other.
pub proof fn lemma_lex_total(a: Seq<u8>, b: Seq<u8>)
    ensures
        lex_le(a, b) || lex_le(b, a),
    decreases a.len(),
{
    if a.len() > 0 && b.len() > 0 && a[0] == b[0] {
        lemma_lex_total(a.drop_first(), b.drop_first());
    }
}

/// The order of byte strings is transitive.
pub proof fn lemma_lex_transitive(a: Seq<u8>, b: Seq<u8>, c: Seq<u8>)
    requires
        lex_le(a, b),
        lex_le(b, c),
    ensures
        lex_le(a, c),
    decreases a.len(),
{
    if a.len() > 0 && b.len() > 0 && c.len() > 0 && a[0] == b[0] && b[0] == c[0] {
        lemma_lex_transitive(a.drop_first(), b.drop_first(), c.drop_first());
    }
}

/// Two byte strings of which neither comes after the other are equal.
pub proof fn lemma_lex_antisymmetric(a: Seq<u8>, b: Seq<u8>)
    requires
        lex_le(a, b),
        lex_le(b, a),
    ensures
        a == b,
    decreases a.len(),
{
    if a.len() > 0 && b.len() > 0 {
        lemma_lex_antisymmetric(a.drop_first(), b.drop_first());
        assert(a =~= seq![a[0]] + a.drop_first());
        assert(b =~= seq![b[0]] + b.drop_first());
    } else {
        assert(a =~= b);
    }
}

/// Two names of which neither comes after the other are the same name.
pub proof fn lemma_name_antisymmetric(a: Seq<char>, b: Seq<char>)
    requires
        name_le(a, b),
        name_le(b, a),
    ensures
        a == b,
{
    lemma_lex_antisymmetric(encode_utf8(a), encode_utf8(b));
    vstd::utf8::encode_utf8_decode_utf8(a);
    vstd::utf8::encode_utf8_decode_utf8(b);
}

/// Whether `a` does not come after `b` in the order of byte strings.
pub fn bytes_le(a: &[u8], b: &[u8]) -> (le: bool)
    ensures
        le == lex_le(a@, b@),
{
    let mut i: usize = 0;
    assert(a@.skip(0) =~= a@ && b@.skip(0) =~= b@);
    loop
        invariant
            i <= a@.len(),
            i <= b@.len(),
            lex_le(a@, b@) == lex_le(a@.skip(i as int), b@.skip(i as int)),
        decreases a@.len() - i,
    {
        if i == a.len() {
            return true;
        }
        if i == b.len() {
            return false;
        }
        let x = a[i];
        let y = b[i];
        proof {
            assert(a@.skip(i as int)[0] == x && b@.skip(i as int)[0] == y);
            assert(a@.skip(i as int).drop_first() =~= a@.skip(i + 1));
            assert(b@.skip(i as int).drop_first() =~= b@.skip(i + 1));
        }
        if x != y {
            return x < y;
        }
        i += 1;
    }
}

/// `entries` stand in the order of their names.
pub open spec fn sorted(entries: Seq<EntryView>) -> bool {
    forall|i: int, j: int|
        0 <= i < j < entries.len() ==> name_le(
            (#[trigger] entries[i]).name,
            (#[trigger] entries[j]).name,
        )
}

/// `entry` put into the sorted `entries`, behind every entry that does not
/// come after it.
pub open spec fn inserted(entries: Seq<EntryView>, entry: EntryView) -> Seq<EntryView>
    decreases entries.len(),
{
    if entries.len() == 0 || name_le(entries.last().name, entry.name) {
        entries.push(entry)
    } else {
        inserted(entries.drop_last(), entry).push(entries.last())
    }
}

/// `entries` sorted by name; entries of one name keep their order.
pub open spec fn by_name(entries: Seq<EntryView>) -> Seq<EntryView>
    decreases entries.len(),
{
    if entries.len() == 0 {
        Seq::empty()
    } else {
        inserted(by_name(entries.drop_last()), entries.last())
    }
}

/// Where an entry goes in: at `at`, if every entry from there on comes
/// after it and the entry before does not.
proof fn lemma_inserted_at(entries: Seq<EntryView>, entry: EntryView, at: int)
    requires
        0 <= at <= entries.len(),
        forall|k: int| at <= k < entries.len() ==> !name_le(entries[k].name, entry.name),
        at > 0 ==> name_le(entries[at - 1].name, entry.name),
    ensures
        inserted(entries, entry) == entries.insert(at, entry),
    decreases entries.len(),
{
    if at == entries.len() {
        assert(entries.insert(at, entry) =~= entries.push(entry));
    } else {
        let front = entries.drop_last();
        lemma_inserted_at(front, entry, at);
        assert(front.insert(at, entry).push(entries.last()) =~= entries.insert(at, entry));
    }
}

/// Putting an entry into sorted entries leaves them sorted, and adds that
/// entry and no other.
pub proof fn lemma_inserted(entries: Seq<EntryView>, entry: EntryView)
    requires
        sorted(entries),
    ensures
        sorted(inserted(entries, entry)),
        inserted(entries, entry).to_multiset() == entries.to_multiset().insert(entry),
        inserted(entries, entry).len() == entries.len() + 1,
    decreases entries.len(),
{
    broadcast use vstd::seq_lib::group_to_multiset_ensures;

    if entries.len() == 0 || name_le(entries.last().name, entry.name) {
        let out = entries.push(entry);
        assert forall|i: int, j: int| 0 <= i < j < out.len() implies name_le(
            (#[trigger] out[i]).name,
            (#[trigger] out[j]).name,
        ) by {
            if j == entries.len() && i < entries.len() - 1 {
                assert(name_le(entries[i].name, entries[entries.len() - 1].name));
                lemma_lex_transitive(
                    encode_utf8(entries[i].name),
                    encode_utf8(entries.last().name),
                    encode_utf8(entry.name),
                );
            }
        }
    } else {
        let front = entries.drop_last();
        let last = entries.last();
        assert forall|i: int, j: int| 0 <= i < j < front.len() implies name_le(
            (#[trigger] front[i]).name,
            (#[trigger] front[j]).name,
        ) by {
            assert(front[i] == entries[i] && front[j] == entries[j]);
        }
        lemma_inserted(front, entry);
        let mid = inserted(front, entry);
        let out = mid.push(last);
        lemma_lex_total(encode_utf8(last.name), encode_utf8(entry.name));
        assert forall|i: int| 0 <= i < mid.len() implies name_le(
            (#[trigger] mid[i]).name,
            last.name,
        ) by {
            assert(mid.to_multiset().count(mid[i]) > 0);
            if mid[i] != entry {
                assert(front.to_multiset().count(mid[i]) > 0);
                let k = choose|k: int| 0 <= k < front.len() && front[k] == mid[i];
                assert(name_le(entries[k].name, entries[entries.len() - 1].name));
            }
        }
        assert forall|i: int, j: int| 0 <= i < j < out.len() implies name_le(
            (#[trigger] out[i]).name,
            (#[trigger] out[j]).name,
        ) by {
            if j < mid.len() {
                assert(out[i] == mid[i] && out[j] == mid[j]);
            } else {
                assert(out[i] == mid[i]);
            }
        }
        assert(entries =~= front.push(last));
        assert(out.to_multiset() =~= entries.to_multiset().insert(entry));
    }
}

/// Sorting by name gives the same entries, in the order of their names.
pub proof fn lemma_by_name(entries: Seq<EntryView>)
    ensures
        sorted(by_name(entries)),
        by_name(entries).to_multiset() == entries.to_multiset(),
        by_name(entries).len() == entries.len(),
    decreases entries.len(),
{
    broadcast use vstd::seq_lib::group_to_multiset_ensures;

    if entries.len() == 0 {
        assert(entries =~= Seq::<EntryView>::empty());
    } else {
        lemma_by_name(entries.drop_last());
        lemma_inserted(by_name(entries.drop_last()), entries.last());
        assert(entries =~= entries.drop_last().push(entries.last()));
    }
}

/// No two of `entries` have the same name.
pub open spec fn distinct_names(entries: Seq<EntryView>) -> bool {
    forall|i: int, j: int|
        0 <= i < j < entries.len() ==> (#[trigger] entries[i]).name != (#[trigger] entries[j]).name
}

/// Among these entries a name stands for one entry, which occurs once.
spec fn names_identify(entries: Multiset<EntryView>) -> bool {
    &&& forall|e: EntryView| entries.count(e) <= 1
    &&& forall|e: EntryView, f: EntryView|
        entries.count(e) > 0 && entries.count(f) > 0 && e.name == f.name ==> e == f
}

/// Entries with distinct names are identified by their names.
proof fn lemma_names_identify(entries: Seq<EntryView>)
    requires
        distinct_names(entries),
    ensures
        names_identify(entries.to_multiset()),
{
    broadcast use vstd::seq_lib::group_to_multiset_ensures;

    assert(entries.no_duplicates()) by {
        assert forall|i: int, j: int|
            0 <= i < entries.len() && 0 <= j < entries.len() && i != j implies entries[i]
            != entries[j] by {
            if i < j {
                assert(entries[i].name != entries[j].name);
            } else {
                assert(entries[j].name != entries[i].name);
            }
        }
    }
    entries.lemma_multiset_has_no_duplicates();
    let all = entries.to_multiset();
    assert forall|e: EntryView, f: EntryView|
        all.count(e) > 0 && all.count(f) > 0 && e.name == f.name implies e == f by {
        assert(entries.contains(e) && entries.contains(f));
        let i = choose|i: int| 0 <= i < entries.len() && entries[i] == e;
        let j = choose|j: int| 0 <= j < entries.len() && entries[j] == f;
        if i < j {
            assert(entries[i].name != entries[j].name);
        } else if j < i {
            assert(entries[j].name != entries[i].name);
        }
    }
    assert forall|e: EntryView| all.count(e) <= 1 by {
        if all.count(e) > 0 {
            assert(all.contains(e));
        }
    }
}

/// Two sorted lists of the same entries are the same list, where names
/// identify the entries.
proof fn lemma_sorted_same(x: Seq<EntryView>, y: Seq<EntryView>)
    requires
        sorted(x),
        sorted(y),
        x.to_multiset() == y.to_multiset(),
        names_identify(x.to_multiset()),
    ensures
        x == y,
    decreases x.len(),
{
    broadcast use vstd::seq_lib::group_to_multiset_ensures;

    assert(x.len() == x.to_multiset().len() && y.len() == y.to_multiset().len());
    if x.len() == 0 {
        assert(x =~= y);
    } else {
        let first = x[0];
        let other = y[0];
        assert(x.contains(first) && y.contains(other));
        assert(x.to_multiset().count(other) > 0 && y.to_multiset().count(first) > 0);
        assert(x.contains(other) && y.contains(first));
        let m = choose|m: int| 0 <= m < x.len() && x[m] == other;
        let k = choose|k: int| 0 <= k < y.len() && y[k] == first;
        lemma_lex_total(encode_utf8(first.name), encode_utf8(first.name));
        lemma_lex_total(encode_utf8(other.name), encode_utf8(other.name));
        if m > 0 {
            assert(name_le(x[0].name, x[m].name));
        }
        if k > 0 {
            assert(name_le(y[0].name, y[k].name));
        }
        lemma_name_antisymmetric(first.name, other.name);
        assert(first == other);
        let xs = x.remove(0);
        let ys = y.remove(0);
        assert(xs.to_multiset() == ys.to_multiset());
        assert forall|i: int, j: int| 0 <= i < j < xs.len() implies name_le(
            (#[trigger] xs[i]).name,
            (#[trigger] xs[j]).name,
        ) by {
            assert(xs[i] == x[i + 1] && xs[j] == x[j + 1]);
        }
        assert forall|i: int, j: int| 0 <= i < j < ys.len() implies name_le(
            (#[trigger] ys[i]).name,
            (#[trigger] ys[j]).name,
        ) by {
            assert(ys[i] == y[i + 1] && ys[j] == y[j + 1]);
        }
        assert(names_identify(xs.to_multiset())) by {
            let whole = x.to_multiset();
            let part = xs.to_multiset();
            assert(part == whole.remove(first));
            assert forall|e: EntryView| part.count(e) <= whole.count(e) by {}
        }
        lemma_sorted_same(xs, ys);
        assert(x =~= seq![first] + xs);
        assert(y =~= seq![other] + ys);
    }
}

/// The listing does not depend on the order in which the captures were
/// found: of the same captures, with a name for each, it is the same
/// lines. With what [`run`] returns this makes a listing repeatable: the
/// same registry is always listed alike.
pub proof fn lemma_listing_order_free(a: Seq<EntryView>, b: Seq<EntryView>)
    requires
        a.to_multiset() == b.to_multiset(),
        distinct_names(a),
    ensures
        by_name(a) == by_name(b),
        listing(a) == listing(b),
{
    broadcast use vstd::seq_lib::group_to_multiset_ensures;

    lemma_by_name(a);
    lemma_by_name(b);
    lemma_names_identify(a);
    lemma_sorted_same(by_name(a), by_name(b));
    assert(a.len() == a.to_multiset().len() && b.len() == b.to_multiset().len());
}

/// The captures listed of two runs of directories are those of the first
/// followed by those of the second.
proof fn lemma_registered_concat(u: Seq<ScannedView>, v: Seq<ScannedView>)
    ensures
        registered(u + v) == registered(u) + registered(v),
    decreases v.len(),
{
    if v.len() == 0 {
        assert(u + v =~= u);
        assert(registered(u) + registered(v) =~= registered(u));
    } else {
        lemma_registered_concat(u, v.drop_last());
        assert((u + v).drop_last() =~= u + v.drop_last());
        assert((u + v).last() == v.last());
        match entry_of(v.last()) {
            Some(e) => {
                assert(registered(u) + (registered(v.drop_last()) + seq![e]) =~= (registered(u)
                    + registered(v.drop_last())) + seq![e]);
            },
            None => {},
        }
    }
}

/// The captures listed without the directory at `at` are those listed
/// with it, less its entry if it has one.
proof fn lemma_registered_remove(s: Seq<ScannedView>, at: int)
    requires
        0 <= at < s.len(),
    ensures
        registered(s).to_multiset() == match entry_of(s[at]) {
            Some(e) => registered(s.remove(at)).to_multiset().insert(e),
            None => registered(s.remove(at)).to_multiset(),
        },
{
    broadcast use vstd::seq_lib::group_to_multiset_ensures;

    let front = s.take(at);
    let one = seq![s[at]];
    let back = s.skip(at + 1);
    assert(s =~= front + one + back);
    assert(s.remove(at) =~= front + back);
    lemma_registered_concat(front + one, back);
    lemma_registered_concat(front, one);
    lemma_registered_concat(front, back);
    vstd::seq_lib::lemma_multiset_commutative(registered(front) + registered(one), registered(back));
    vstd::seq_lib::lemma_multiset_commutative(registered(front), registered(one));
    vstd::seq_lib::lemma_multiset_commutative(registered(front), registered(back));
    assert(one.drop_last() =~= Seq::<ScannedView>::empty());
    assert(registered(one.drop_last()) =~= Seq::<EntryView>::empty());
    match entry_of(s[at]) {
        Some(e) => {
            assert(registered(one) =~= seq![e]);
            assert(seq![e] =~= Seq::<EntryView>::empty().push(e));
            assert(registered(one).to_multiset() =~= Multiset::<EntryView>::empty().insert(e));
            assert(registered(s).to_multiset() =~= registered(s.remove(at)).to_multiset().insert(
                e,
            ));
        },
        None => {
            assert(registered(one) =~= Seq::<EntryView>::empty());
            assert(registered(s).to_multiset() =~= registered(s.remove(at)).to_multiset());
        },
    }
}

/// The same directories, found in another order, give the same captures
/// to list.
proof fn lemma_registered_order_free(a: Seq<ScannedView>, b: Seq<ScannedView>)
    requires
        a.to_multiset() == b.to_multiset(),
    ensures
        registered(a).to_multiset() == registered(b).to_multiset(),
    decreases a.len(),
{
    broadcast use vstd::seq_lib::group_to_multiset_ensures;

    assert(a.len() == a.to_multiset().len() && b.len() == b.to_multiset().len());
    if a.len() == 0 {
        assert(a =~= b);
    } else {
        let last = a.last();
        assert(a.contains(last));
        assert(b.to_multiset().count(last) > 0);
        assert(b.contains(last));
        let at = choose|at: int| 0 <= at < b.len() && b[at] == last;
        let front = a.remove(a.len() - 1);
        let rest = b.remove(at);
        assert(front.to_multiset() == rest.to_multiset());
        lemma_registered_order_free(front, rest);
        lemma_registered_remove(a, a.len() - 1);
        lemma_registered_remove(b, at);
    }
}

/// Listing is repeatable: the registry is a set of directories, and the
/// listing of the same directories is the same lines whatever the order in
/// which they are found, provided that the captures listed differ in their
/// names.
pub proof fn lemma_listing_repeatable(a: Seq<ScannedView>, b: Seq<ScannedView>)
    requires
        a.to_multiset() == b.to_multiset(),
        distinct_names(registered(a)),
    ensures
        listing(registered(a)) == listing(registered(b)),
{
    lemma_registered_order_free(a, b);
    lemma_listing_order_free(registered(a), registered(b));
}

/// No two of the directories found have the same name.
pub open spec fn distinct_dirs(scanned: Seq<ScannedView>) -> bool {
    forall|i: int, j: int|
        0 <= i < j < scanned.len() ==> (#[trigger] scanned[i]).name != (#[trigger] scanned[j]).name
}

/// Every capture listed is the entry of a directory found.
proof fn lemma_registered_from(scanned: Seq<ScannedView>, entry: EntryView)
    requires
        registered(scanned).contains(entry),
    ensures
        exists|k: int| 0 <= k < scanned.len() && entry_of(#[trigger] scanned[k]) == Some(entry),
    decreases scanned.len(),
{
    if scanned.len() > 0 {
        let front = scanned.drop_last();
        let at = choose|at: int| 0 <= at < registered(scanned).len() && registered(scanned)[at]
            == entry;
        if at < registered(front).len() {
            assert(registered(front)[at] == entry);
            lemma_registered_from(front, entry);
            let k = choose|k: int| 0 <= k < front.len() && entry_of(#[trigger] front[k]) == Some(
                entry,
            );
            assert(scanned[k] == front[k]);
        } else {
            assert(entry_of(scanned[scanned.len() - 1]) == Some(entry));
        }
    }
}

/// A capture whose directory is gone is no longer listed: without the
/// directory at `at`, no capture of its name is shown.
pub proof fn lemma_removed_not_listed(scanned: Seq<ScannedView>, at: int)
    requires
        0 <= at < scanned.len(),
        distinct_dirs(scanned),
    ensures
        forall|e: EntryView| #[trigger]
            by_name(registered(scanned.remove(at))).contains(e) ==> e.name != scanned[at].name,
{
    broadcast use vstd::seq_lib::group_to_multiset_ensures;

    let left = scanned.remove(at);
    lemma_by_name(registered(left));
    assert forall|e: EntryView| #[trigger] by_name(registered(left)).contains(e) implies e.name
        != scanned[at].name by {
        assert(by_name(registered(left)).to_multiset().count(e) > 0);
        assert(registered(left).contains(e));
        lemma_registered_from(left, e);
        let k = choose|k: int| 0 <= k < left.len() && entry_of(#[trigger] left[k]) == Some(e);
        if k < at {
            assert(left[k] == scanned[k]);
            assert(scanned[k].name != scanned[at].name);
        } else {
            assert(left[k] == scanned[k + 1]);
            assert(scanned[at].name != scanned[k + 1].name);
        }
    }
}

/// What is printed where no capture is listed.
pub open spec fn nothing() -> Seq<char> {
    "no active captures"@
}

/// The word for a capture's process: running, or dead.
pub open spec fn status(alive: bool) -> Seq<char> {
    if alive {
        "running"@
    } else {
        "dead"@
    }
}

/// A row of the table: four columns filled up to their widths and one
/// that is not, with a space between each two.
pub open spec fn columns(
    name: Seq<char>,
    pid: Seq<char>,
    status: Seq<char>,
    started: Seq<char>,
    command: Seq<char>,
) -> Seq<char> {
    padded(name, 16) + " "@ + padded(pid, 8) + " "@ + padded(status, 10) + " "@ + padded(
        started,
        24,
    ) + " "@ + command
}

/// The head of the table.
pub open spec fn header() -> Seq<char> {
    columns("NAME"@, "PID"@, "STATUS"@, "STARTED"@, "COMMAND"@)
}

/// The row of an entry: its name, the recorded process identifier, whether
/// the process runs, the time of its start, and the command with a space
/// between each two words.
pub open spec fn row(entry: EntryView) -> Seq<char> {
    columns(
        entry.name,
        decimal(entry.meta.pid as nat),
        status(entry.alive),
        entry.meta.started_at,
        joined(entry.meta.command, " "@),
    )
}

/// The lines of the listing of `entries`: one line that says so where
/// there are none, else the head and one row for each, sorted by name.
pub open spec fn listing(entries: Seq<EntryView>) -> Seq<Seq<char>> {
    if entries.len() == 0 {
        seq![nothing()]
    } else {
        seq![header()] + by_name(entries).map_values(|e: EntryView| row(e))
    }
}

/// Whether the recorded process of a capture counts as existing, given
/// what the existence probe returned: it does where the probe returned
/// zero, and does not where no probe could be made.
pub fn alive(probe: Option<i32>) -> (alive: bool)
    ensures
        alive == (probe == Some(0i32)),
{
    match probe {
        Some(status) => status == 0,
        None => false,
    }
}

/// Puts the columns of a row together.
fn columns_text(name: &str, pid: &str, status: &str, started: &str, command: &str) -> (out: String)
    ensures
        out@ == columns(name@, pid@, status@, started@, command@),
{
    let mut out = pad(name, 16);
    out.append(" ");
    out.append(pad(pid, 8).as_str());
    out.append(" ");
    out.append(pad(status, 10).as_str());
    out.append(" ");
    out.append(pad(started, 24).as_str());
    out.append(" ");
    out.append(command);
    out
}

/// The row of `entry`.
pub fn row_text(entry: &Entry) -> (out: String)
    ensures
        out@ == row(entry@),
{
    let pid = decimal_text(entry.meta.pid as u64);
    let word = if entry.alive {
        "running"
    } else {
        "dead"
    };
    let command = join(&entry.meta.command, " ");
    columns_text(
        entry.name.as_str(),
        pid.as_str(),
        word,
        entry.meta.started_at.as_str(),
        command.as_str(),
    )
}

/// Puts `entry` into the sorted `entries`.
fn insert(entries: &mut Vec<Entry>, entry: Entry)
    ensures
        entry_views(final(entries)@) == inserted(entry_views(old(entries)@), entry@),
{
    let ghost before = entry_views(entries@);
    let name = entry.name.as_str().as_bytes();
    let mut at: usize = entries.len();
    while at > 0 && !bytes_le(entries[at - 1].name.as_str().as_bytes(), name)
        invariant
            name@ == encode_utf8(entry@.name),
            at <= entries.len(),
            before == entry_views(entries@),
            forall|k: int| at <= k < before.len() ==> !name_le(before[k].name, entry@.name),
        decreases at,
    {
        at -= 1;
    }
    proof {
        lemma_inserted_at(before, entry@, at as int);
    }
    entries.insert(at, entry);
    proof {
        assert(entry_views(entries@) =~= before.insert(at as int, entry@));
    }
}

/// Lists the captures found in the registry: what is printed, line by
/// line. Directories without a readable record are passed over; the
/// others are shown sorted by name, whatever the order in which they were
/// found.
pub fn run(scanned: Vec<Scanned>) -> (lines: Vec<String>)
    ensures
        lines.deep_view() == listing(registered(scanned_views(scanned@))),
{
    let ghost all = scanned_views(scanned@);
    let ghost pick = |s: ScannedView| entry_of(s);
    let mut scanned = scanned;
    let mut shown: Vec<Entry> = Vec::new();
    let n = scanned.len();
    let mut i: usize = 0;
    proof {
        assert(all.take(0) =~= Seq::<ScannedView>::empty());
        assert(entry_views(shown@) =~= Seq::<EntryView>::empty());
    }
    while i < n
        invariant
            i <= n,
            scanned.len() == n - i,
            all.len() == n,
            pick == (|s: ScannedView| entry_of(s)),
            scanned_views(scanned@) == all.skip(i as int),
            entry_views(shown@) == by_name(all.take(i as int).filter_map(pick)),
        decreases n - i,
    {
        let ghost rest = scanned@;
        let found = scanned.remove(0);
        proof {
            assert(scanned_views(rest)[0] == all[i as int]);
            assert(found@ == all[i as int]);
            assert(scanned_views(scanned@) =~= all.skip(i + 1)) by {
                assert forall|k: int| 0 <= k < scanned@.len() implies scanned_views(scanned@)[k]
                    == all.skip(i + 1)[k] by {
                    assert(scanned@[k] == rest[k + 1]);
                    assert(scanned_views(rest)[k + 1] == all.skip(i as int)[k + 1]);
                }
            }
            all.lemma_filter_map_take_succ(pick, i as int);
        }
        let Scanned { name, meta, alive } = found;
        match meta {
            Some(meta) => {
                let entry = Entry { name, meta, alive };
                proof {
                    let earlier = all.take(i as int).filter_map(pick);
                    assert(all.take(i + 1).filter_map(pick) =~= earlier.push(entry@));
                    assert(earlier.push(entry@).drop_last() =~= earlier);
                }
                insert(&mut shown, entry);
            },
            None => {
                proof {
                    assert(all.take(i + 1).filter_map(pick) =~= all.take(i as int).filter_map(
                        pick,
                    ));
                }
            },
        }
        i += 1;
    }
    proof {
        assert(all.take(n as int) =~= all);
        lemma_by_name(registered(all));
    }
    let ghost entries = registered(all);
    let mut lines: Vec<String> = Vec::new();
    if shown.len() == 0 {
        lines.push(String::from_str("no active captures"));
        assert(lines.deep_view() =~= seq![nothing()]);
        return lines;
    }
    lines.push(columns_text("NAME", "PID", "STATUS", "STARTED", "COMMAND"));
    let mut k: usize = 0;
    while k < shown.len()
        invariant
            k <= shown.len(),
            lines.len() == k + 1,
            lines@[0]@ == header(),
            forall|j: int| 0 <= j < k ==> (#[trigger] lines@[j + 1])@ == row(shown@[j]@),
        decreases shown.len() - k,
    {
        let text = row_text(&shown[k]);
        lines.push(text);
        k += 1;
    }
    proof {
        let rows = by_name(entries).map_values(|e: EntryView| row(e));
        assert(entry_views(shown@) == by_name(entries));
        assert forall|j: int| 0 <= j < lines.len() implies lines.deep_view()[j] == (seq![header()]
            + rows)[j] by {
            if j > 0 {
                assert(lines@[j - 1 + 1]@ == row(shown@[j - 1]@));
                assert(entry_views(shown@)[j - 1] == shown@[j - 1]@);
            }
        }
        assert(lines.deep_view() =~= seq![header()] + rows);
    }
    lines
}

} // verus!
