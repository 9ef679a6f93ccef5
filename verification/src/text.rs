//! Small text helpers: copying, joining, padding and decimal numbers.

use vstd::prelude::*;
use vstd::string::*;

verus! {

/// A copy of `s`.
pub fn copy_text(s: &String) -> (copy: String)
    ensures
        copy@ == s@,
{
    s.clone()
}

/// A copy of `list`, element by element.
pub fn copy_texts(list: &Vec<String>) -> (copy: Vec<String>)
    ensures
        copy.deep_view() == list.deep_view(),
{
    let mut copy: Vec<String> = Vec::new();
    let mut i: usize = 0;
    while i < list.len()
        invariant
            i <= list.len(),
            copy.len() == i,
            forall|k: int| 0 <= k < i ==> (#[trigger] copy@[k])@ == list@[k]@,
        decreases list.len() - i,
    {
        copy.push(list[i].clone());
        i += 1;
    }
    assert(copy.deep_view() =~= list.deep_view());
    copy
}

/// `n` spaces.
pub open spec fn spaces(n: nat) -> Seq<char> {
    Seq::new(n, |i: int| ' ')
}

/// `s` filled up with spaces on the right to `width` characters; a longer
/// `s` is left as it is.
pub open spec fn padded(s: Seq<char>, width: nat) -> Seq<char> {
    if s.len() >= width {
        s
    } else {
        s + spaces((width - s.len()) as nat)
    }
}

/// Pads `s` on the right to `width` characters.
pub fn pad(s: &str, width: usize) -> (out: String)
    ensures
        out@ == padded(s@, width as nat),
{
    let len = s.unicode_len();
    let mut out = String::from_str(s);
    let mut n: usize = len;
    proof {
        reveal_strlit(" ");
        assert(s@ + spaces(0) =~= s@);
    }
    while n < width
        invariant
            len == s@.len(),
            len <= n,
            n <= width || n == len,
            out@ == s@ + spaces((n - len) as nat),
            " "@ == seq![' '],
        decreases width - n,
    {
        out.append(" ");
        proof {
            assert(s@ + spaces((n - len) as nat) + seq![' '] =~= s@ + spaces((n + 1 - len) as nat));
        }
        n += 1;
    }
    out
}

/// The elements of `words` with `sep` between each two.
pub open spec fn joined(words: Seq<Seq<char>>, sep: Seq<char>) -> Seq<char>
    decreases words.len(),
{
    if words.len() == 0 {
        Seq::empty()
    } else if words.len() == 1 {
        words[0]
    } else {
        joined(words.drop_last(), sep) + sep + words.last()
    }
}

/// Joins `words` with `sep` between each two.
pub fn join(words: &Vec<String>, sep: &str) -> (out: String)
    ensures
        out@ == joined(words.deep_view(), sep@),
{
    let ghost all = words.deep_view();
    let mut out = String::new();
    let mut i: usize = 0;
    assert(all.take(0) =~= Seq::<Seq<char>>::empty());
    while i < words.len()
        invariant
            i <= words.len(),
            all == words.deep_view(),
            out@ == joined(all.take(i as int), sep@),
        decreases words.len() - i,
    {
        proof {
            let next = all.take(i + 1);
            assert(next.drop_last() =~= all.take(i as int));
            assert(next.last() == words@[i as int]@);
        }
        if i > 0 {
            out.append(sep);
        } else {
            assert(Seq::<char>::empty() + words@[0]@ =~= words@[0]@);
        }
        out.append(words[i].as_str());
        i += 1;
    }
    assert(all.take(words.len() as int) =~= all);
    out
}

/// The character of a decimal digit.
pub open spec fn digit_char(d: int) -> char {
    if d == 0 {
        '0'
    } else if d == 1 {
        '1'
    } else if d == 2 {
        '2'
    } else if d == 3 {
        '3'
    } else if d == 4 {
        '4'
    } else if d == 5 {
        '5'
    } else if d == 6 {
        '6'
    } else if d == 7 {
        '7'
    } else if d == 8 {
        '8'
    } else {
        '9'
    }
}

/// `n` in decimal, without sign or leading zeros.
pub open spec fn decimal(n: nat) -> Seq<char>
    decreases n,
{
    if n < 10 {
        seq![digit_char(n as int)]
    } else {
        decimal(n / 10).push(digit_char((n % 10) as int))
    }
}

/// The text of one decimal digit.
fn digit_text(d: u64) -> (out: &'static str)
    requires
        d < 10,
    ensures
        out@ == seq![digit_char(d as int)],
{
    proof {
        reveal_strlit("0");
        reveal_strlit("1");
        reveal_strlit("2");
        reveal_strlit("3");
        reveal_strlit("4");
        reveal_strlit("5");
        reveal_strlit("6");
        reveal_strlit("7");
        reveal_strlit("8");
        reveal_strlit("9");
    }
    let out = if d == 0 {
        "0"
    } else if d == 1 {
        "1"
    } else if d == 2 {
        "2"
    } else if d == 3 {
        "3"
    } else if d == 4 {
        "4"
    } else if d == 5 {
        "5"
    } else if d == 6 {
        "6"
    } else if d == 7 {
        "7"
    } else if d == 8 {
        "8"
    } else {
        "9"
    };
    assert(out@ =~= seq![digit_char(d as int)]);
    out
}

/// Writes `n` in decimal.
pub fn decimal_text(n: u64) -> (out: String)
    ensures
        out@ == decimal(n as nat),
    decreases n,
{
    if n < 10 {
        String::from_str(digit_text(n))
    } else {
        let mut out = decimal_text(n / 10);
        out.append(digit_text(n % 10));
        assert(out@ =~= decimal((n / 10) as nat).push(digit_char((n % 10) as int)));
        out
    }
}

} // verus!
