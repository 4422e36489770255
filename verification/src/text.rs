//! Line-oriented text model: splitting a message into lines, joining lines
//! back into document text, classifying blank and entry-marking lines, and
//! rendering decimal ordinals.

use vstd::prelude::*;

verus! {

/// Characters treated as horizontal whitespace when a line is trimmed.
pub open spec fn is_space_char(c: char) -> bool {
    c == ' ' || c == '\t' || c == '\r'
}

/// Decimal digit characters.
pub open spec fn is_digit_char(c: char) -> bool {
    48 <= c as u32 <= 57
}

/// A line consisting only of whitespace (the empty line included).
pub open spec fn is_blank_line(l: Seq<char>) -> bool {
    forall|i: int| 0 <= i < l.len() ==> is_space_char(#[trigger] l[i])
}

/// A line whose trimmed form starts with a decimal digit: the shape of a
/// top-level ordinal entry in the today log.
pub open spec fn line_marks_entry(l: Seq<char>) -> bool {
    exists|i: int|
        0 <= i < l.len() && is_digit_char(#[trigger] l[i]) && (forall|j: int|
            0 <= j < i ==> is_space_char(#[trigger] l[j]))
}

/// The lines of a message, split on `'\n'`. Every message has at least one
/// line; the empty message has exactly the empty line.
pub open spec fn msg_lines(m: Seq<char>) -> Seq<Seq<char>>
    decreases m.len(),
{
    if m.len() == 0 {
        seq![m]
    } else {
        let prev = msg_lines(m.drop_last());
        let c = m.last();
        if c == '\n' {
            prev.push(Seq::empty())
        } else {
            prev.update(prev.len() - 1, prev.last().push(c))
        }
    }
}

/// The views of a sequence of owned line strings.
pub open spec fn lines_view(ss: Seq<String>) -> Seq<Seq<char>> {
    Seq::new(ss.len(), |i: int| ss[i]@)
}

/// The text of a document given as lines: each line followed by `'\n'`.
pub open spec fn text_of(ls: Seq<Seq<char>>) -> Seq<char>
    decreases ls.len(),
{
    if ls.len() == 0 {
        Seq::empty()
    } else {
        text_of(ls.drop_last()) + ls.last() + seq!['\n']
    }
}

/// The lines joined with `'\n'` separators and no trailing newline.
pub open spec fn join_lines(ls: Seq<Seq<char>>) -> Seq<char>
    decreases ls.len(),
{
    if ls.len() == 0 {
        Seq::empty()
    } else if ls.len() == 1 {
        ls[0]
    } else {
        join_lines(ls.drop_last()) + seq!['\n'] + ls.last()
    }
}

/// The decimal rendering of a natural number, most significant digit first.
pub open spec fn dec_str(n: nat) -> Seq<char>
    decreases n,
{
    if n < 10 {
        seq![digit_char(n)]
    } else {
        dec_str(n / 10).push(digit_char(n % 10))
    }
}

/// The digit character for a value below ten.
pub open spec fn digit_char(d: nat) -> char {
    if d == 0 {
        '0'
    } else if d == 1 {
        '1'
    } else if d == 2 {
        '2'
    } else if d == 3 {
        '3'
    } else if d == 4 {
        '4'
    } else if d == 5 {
        '5'
    } else if d == 6 {
        '6'
    } else if d == 7 {
        '7'
    } else if d == 8 {
        '8'
    } else {
        '9'
    }
}

pub proof fn lemma_msg_lines_len(m: Seq<char>)
    ensures
        msg_lines(m).len() >= 1,
    decreases m.len(),
{
    if m.len() > 0 {
        lemma_msg_lines_len(m.drop_last());
    }
}

/// No line produced by splitting contains a newline.
pub proof fn lemma_msg_lines_no_nl(m: Seq<char>)
    ensures
        forall|i: int|
            0 <= i < msg_lines(m).len() ==> !(#[trigger] msg_lines(m)[i]).contains('\n'),
    decreases m.len(),
{
    if m.len() == 0 {
        assert(!msg_lines(m)[0].contains('\n'));
    } else {
        lemma_msg_lines_no_nl(m.drop_last());
        lemma_msg_lines_len(m.drop_last());
        let prev = msg_lines(m.drop_last());
        let c = m.last();
        if c == '\n' {
            assert(!Seq::<char>::empty().contains('\n'));
        } else {
            let grown = prev.last().push(c);
            assert(!grown.contains('\n')) by {
                assert(!prev[prev.len() - 1].contains('\n'));
                assert(forall|j: int| 0 <= j < grown.len() ==> grown[j] != '\n');
            }
        }
    }
}

/// A message without newlines is a single line.
pub proof fn lemma_msg_lines_single(m: Seq<char>)
    requires
        !m.contains('\n'),
    ensures
        msg_lines(m) == seq![m],
    decreases m.len(),
{
    if m.len() == 0 {
    } else {
        assert(m[m.len() - 1] != '\n');
        assert(!m.drop_last().contains('\n')) by {
            assert(forall|i: int|
                0 <= i < m.drop_last().len() ==> m.drop_last()[i] == m[i] && m[i] != '\n');
        }
        lemma_msg_lines_single(m.drop_last());
        assert(msg_lines(m) =~~= seq![m]) by {
            assert(m.drop_last().push(m.last()) =~= m);
        }
    }
}

/// Appending a newline ends the current line and opens an empty one.
pub proof fn lemma_msg_lines_push_nl(m: Seq<char>)
    ensures
        msg_lines(m.push('\n')) == msg_lines(m).push(Seq::empty()),
{
    assert(m.push('\n').drop_last() =~= m);
    assert(m.push('\n').last() == '\n');
}

/// Appending a newline and then a newline-free line appends that line whole.
pub proof fn lemma_msg_lines_append_line(x: Seq<char>, z: Seq<char>)
    requires
        !z.contains('\n'),
    ensures
        msg_lines(x + seq!['\n'] + z) == msg_lines(x).push(z),
    decreases z.len(),
{
    lemma_msg_lines_len(x);
    if z.len() == 0 {
        assert(x + seq!['\n'] + z =~= x.push('\n'));
        lemma_msg_lines_push_nl(x);
        assert(msg_lines(x).push(z) =~~= msg_lines(x).push(Seq::empty()));
    } else {
        let w = x + seq!['\n'] + z;
        assert(w.last() == z.last());
        assert(z[z.len() - 1] != '\n');
        assert(!z.drop_last().contains('\n')) by {
            assert(forall|i: int|
                0 <= i < z.drop_last().len() ==> z.drop_last()[i] == z[i] && z[i] != '\n');
        }
        assert(w.drop_last() =~= x + seq!['\n'] + z.drop_last());
        lemma_msg_lines_append_line(x, z.drop_last());
        let prev = msg_lines(x).push(z.drop_last());
        assert(prev.last() == z.drop_last());
        assert(msg_lines(w) =~~= msg_lines(x).push(z)) by {
            assert(msg_lines(w) == prev.update(prev.len() - 1, prev.last().push(w.last())));
            assert(z.drop_last().push(z.last()) =~= z);
        }
    }
}

/// Every character of a decimal rendering is a digit, and there is at least
/// one; in particular the first character is a digit and not whitespace.
pub proof fn lemma_dec_str_digits(n: nat)
    ensures
        dec_str(n).len() >= 1,
        forall|i: int| 0 <= i < dec_str(n).len() ==> is_digit_char(#[trigger] dec_str(n)[i]),
    decreases n,
{
    if n >= 10 {
        lemma_dec_str_digits(n / 10);
    }
}

/// Digits are neither whitespace nor newlines.
pub proof fn lemma_digit_not_space(c: char)
    requires
        is_digit_char(c),
    ensures
        !is_space_char(c),
        c != '\n',
        c != '#',
{
}

/// Document text distributes over concatenation of line blocks.
pub proof fn lemma_text_of_append(a: Seq<Seq<char>>, b: Seq<Seq<char>>)
    ensures
        text_of(a + b) == text_of(a) + text_of(b),
    decreases b.len(),
{
    if b.len() == 0 {
        assert(a + b =~= a);
        assert(text_of(a) + text_of(b) =~= text_of(a));
    } else {
        assert((a + b).drop_last() =~= a + b.drop_last());
        lemma_text_of_append(a, b.drop_last());
        assert((a + b).last() == b.last());
        assert(text_of(a) + text_of(b) =~= text_of(a) + text_of(b.drop_last()) + b.last()
            + seq!['\n']);
    }
}

/// The lines a document's text denotes: the text split on `'\n'`, with the
/// line opened by a trailing newline not counted, and the empty text holding
/// no lines at all.
pub open spec fn doc_lines(t: Seq<char>) -> Seq<Seq<char>> {
    if t.len() == 0 {
        Seq::empty()
    } else if t.last() == '\n' {
        msg_lines(t.drop_last())
    } else {
        msg_lines(t)
    }
}

/// Splitting the text of a block of newline-free lines, followed by one more
/// newline-free line, recovers the lines.
pub proof fn lemma_msg_lines_text(ls: Seq<Seq<char>>, z: Seq<char>)
    requires
        forall|i: int| 0 <= i < ls.len() ==> !(#[trigger] ls[i]).contains('\n'),
        !z.contains('\n'),
    ensures
        msg_lines(text_of(ls) + z) == ls.push(z),
    decreases ls.len(),
{
    if ls.len() == 0 {
        assert(text_of(ls) + z =~= z);
        lemma_msg_lines_single(z);
        assert(seq![z] =~= ls.push(z));
    } else {
        let dl = ls.drop_last();
        lemma_msg_lines_text(dl, ls.last());
        assert(text_of(ls) + z =~= (text_of(dl) + ls.last()) + seq!['\n'] + z);
        lemma_msg_lines_append_line(text_of(dl) + ls.last(), z);
        assert(msg_lines(text_of(dl) + ls.last()) == dl.push(ls.last()));
        assert(dl.push(ls.last()) =~= ls);
    }
}

/// A document written as text and split again yields the same lines.
pub proof fn lemma_doc_round_trip(ls: Seq<Seq<char>>)
    requires
        forall|i: int| 0 <= i < ls.len() ==> !(#[trigger] ls[i]).contains('\n'),
    ensures
        doc_lines(text_of(ls)) == ls,
{
    if ls.len() == 0 {
        assert(doc_lines(text_of(ls)) =~~= ls);
    } else {
        let t = text_of(ls);
        assert(t.last() == '\n');
        assert(t.drop_last() =~= text_of(ls.drop_last()) + ls.last());
        lemma_msg_lines_text(ls.drop_last(), ls.last());
        assert(ls.drop_last().push(ls.last()) =~= ls);
    }
}

/// Whether `c` counts as horizontal whitespace.
pub fn is_space(c: char) -> (r: bool)
    ensures
        r == is_space_char(c),
{
    c == ' ' || c == '\t' || c == '\r'
}

/// Whether `c` is a decimal digit.
pub fn is_digit(c: char) -> (r: bool)
    ensures
        r == is_digit_char(c),
{
    let u = c as u32;
    48 <= u && u <= 57
}

/// Whether the line is empty or all whitespace.
pub fn line_is_blank(l: &str) -> (r: bool)
    ensures
        r == is_blank_line(l@),
{
    let len = l.unicode_len();
    let mut i: usize = 0;
    while i < len
        invariant
            i <= len,
            len == l@.len(),
            forall|j: int| 0 <= j < i ==> is_space_char(#[trigger] l@[j]),
        decreases len - i,
    {
        let c = l.get_char(i);
        if !is_space(c) {
            assert(!is_blank_line(l@));
            return false;
        }
        i = i + 1;
    }
    true
}

/// Whether the line's trimmed form starts with a decimal digit.
pub fn marks_entry(l: &str) -> (r: bool)
    ensures
        r == line_marks_entry(l@),
{
    let len = l.unicode_len();
    let mut i: usize = 0;
    while i < len
        invariant
            i <= len,
            len == l@.len(),
            forall|j: int| 0 <= j < i ==> is_space_char(#[trigger] l@[j]),
        decreases len - i,
    {
        let c = l.get_char(i);
        if is_space(c) {
            i = i + 1;
        } else if is_digit(c) {
            assert(line_marks_entry(l@));
            return true;
        } else {
            assert(!line_marks_entry(l@)) by {
                assert forall|k: int|
                    0 <= k < l@.len() && is_digit_char(l@[k]) && (forall|j: int|
                        0 <= j < k ==> is_space_char(l@[j])) implies false by {
                    if k < i as int {
                        assert(is_space_char(l@[k]));
                    } else {
                        assert(is_space_char(l@[i as int]));
                    }
                }
            }
            return false;
        }
    }
    assert(!line_marks_entry(l@)) by {
        assert forall|k: int|
            0 <= k < l@.len() && is_digit_char(l@[k]) && (forall|j: int|
                0 <= j < k ==> is_space_char(l@[j])) implies false by {
            assert(is_space_char(l@[k]));
        }
    }
    false
}

/// Splits a message into its lines on `'\n'`.
pub fn split_lines(s: &str) -> (r: Vec<String>)
    ensures
        lines_view(r@) == msg_lines(s@),
{
    let len = s.unicode_len();
    let mut acc: Vec<String> = Vec::new();
    let mut start: usize = 0;
    let mut i: usize = 0;
    while i < len
        invariant
            start <= i <= len,
            len == s@.len(),
            lines_view(acc@).push(s@.subrange(start as int, i as int)) == msg_lines(
                s@.take(i as int),
            ),
        decreases len - i,
    {
        let c = s.get_char(i);
        proof {
            assert(s@.take(i + 1).drop_last() =~= s@.take(i as int));
            assert(s@.take(i + 1).last() == s@[i as int]);
            lemma_msg_lines_len(s@.take(i as int));
        }
        if c == '\n' {
            let line = String::from_str(s.substring_char(start, i));
            proof {
                let cur = s@.subrange(start as int, i as int);
                assert(lines_view(acc@.push(line)).push(Seq::empty()) =~~= msg_lines(
                    s@.take(i + 1),
                )) by {
                    assert(lines_view(acc@.push(line)) =~= lines_view(acc@).push(cur));
                    assert(msg_lines(s@.take(i + 1)) == msg_lines(s@.take(i as int)).push(
                        Seq::empty(),
                    ));
                }
            }
            acc.push(line);
            start = i + 1;
            proof {
                assert(s@.subrange(start as int, i + 1) =~= Seq::<char>::empty());
            }
        } else {
            proof {
                let prev = lines_view(acc@).push(s@.subrange(start as int, i as int));
                assert(msg_lines(s@.take(i + 1)) == prev.update(
                    prev.len() - 1,
                    prev.last().push(s@[i as int]),
                ));
                assert(lines_view(acc@).push(s@.subrange(start as int, i + 1)) =~~= prev.update(
                    prev.len() - 1,
                    prev.last().push(s@[i as int]),
                )) by {
                    assert(s@.subrange(start as int, i as int).push(s@[i as int]) =~= s@.subrange(
                        start as int,
                        i + 1,
                    ));
                }
            }
        }
        i = i + 1;
    }
    let line = String::from_str(s.substring_char(start, len));
    proof {
        assert(s@.take(len as int) =~= s@);
        assert(lines_view(acc@.push(line)) =~~= msg_lines(s@)) by {
            assert(lines_view(acc@.push(line)) =~= lines_view(acc@).push(
                s@.subrange(start as int, len as int),
            ));
        }
    }
    acc.push(line);
    acc
}

/// Splits a document's text into its lines, not counting the line a trailing
/// newline opens. This is the inverse of [`lines_to_text`] on newline-free
/// lines.
pub fn text_to_doc_lines(s: &str) -> (r: Vec<String>)
    ensures
        lines_view(r@) == doc_lines(s@),
        forall|i: int| 0 <= i < r@.len() ==> !(#[trigger] r@[i]@).contains('\n'),
{
    let len = s.unicode_len();
    if len == 0 {
        let r: Vec<String> = Vec::new();
        proof {
            assert(lines_view(r@) =~~= doc_lines(s@));
        }
        return r;
    }
    let last = s.get_char(len - 1);
    let body: &str = if last == '\n' {
        s.substring_char(0, len - 1)
    } else {
        s
    };
    proof {
        if last == '\n' {
            assert(body@ =~= s@.drop_last());
        }
        lemma_msg_lines_no_nl(body@);
    }
    let r = split_lines(body);
    proof {
        assert forall|i: int| 0 <= i < r@.len() implies !(#[trigger] r@[i]@).contains('\n') by {
            assert(!msg_lines(body@)[i].contains('\n'));
            assert(r@[i]@ == lines_view(r@)[i]);
        }
    }
    r
}

/// Joins lines into document text, one `'\n'` after each line.
pub fn lines_to_text(lines: &Vec<String>) -> (r: String)
    ensures
        r@ == text_of(lines_view(lines@)),
{
    let mut out = String::new();
    let mut i: usize = 0;
    proof {
        reveal_strlit("\n");
        assert(lines_view(lines@).take(0) =~= Seq::<Seq<char>>::empty());
    }
    while i < lines.len()
        invariant
            i <= lines.len(),
            out@ == text_of(lines_view(lines@).take(i as int)),
        decreases lines.len() - i,
    {
        proof {
            reveal_strlit("\n");
        }
        out.append(lines[i].as_str());
        out.append("\n");
        proof {
            let full = lines_view(lines@);
            assert(full.take(i + 1).drop_last() =~= full.take(i as int));
            assert(("\n")@ =~= seq!['\n']);
            assert(out@ =~= text_of(full.take(i + 1)));
        }
        i = i + 1;
    }
    proof {
        assert(lines_view(lines@).take(lines@.len() as int) =~= lines_view(lines@));
    }
    out
}

/// The digit string for a value below ten.
fn digit_str(d: usize) -> (r: &'static str)
    requires
        d < 10,
    ensures
        r@ == seq![digit_char(d as nat)],
{
    proof {
        reveal_strlit("0");
        reveal_strlit("1");
        reveal_strlit("2");
        reveal_strlit("3");
        reveal_strlit("4");
        reveal_strlit("5");
        reveal_strlit("6");
        reveal_strlit("7");
        reveal_strlit("8");
        reveal_strlit("9");
    }
    let r: &'static str = if d == 0 {
        "0"
    } else if d == 1 {
        "1"
    } else if d == 2 {
        "2"
    } else if d == 3 {
        "3"
    } else if d == 4 {
        "4"
    } else if d == 5 {
        "5"
    } else if d == 6 {
        "6"
    } else if d == 7 {
        "7"
    } else if d == 8 {
        "8"
    } else {
        "9"
    };
    proof {
        assert(r@ =~= seq![digit_char(d as nat)]);
    }
    r
}

/// Renders an ordinal in decimal.
pub fn usize_to_string(n: usize) -> (r: String)
    ensures
        r@ == dec_str(n as nat),
    decreases n,
{
    if n < 10 {
        String::from_str(digit_str(n))
    } else {
        let mut s = usize_to_string(n / 10);
        s.append(digit_str(n % 10));
        proof {
            assert(s@ =~= dec_str(n as nat));
        }
        s
    }
}

/// String slice equality over the character views.
pub fn str_eq(a: &str, b: &str) -> (r: bool)
    ensures
        r == (a@ == b@),
{
    let alen = a.unicode_len();
    let blen = b.unicode_len();
    if alen != blen {
        return false;
    }
    let mut i: usize = 0;
    while i < alen
        invariant
            i <= alen,
            alen == a@.len(),
            alen == b@.len(),
            forall|j: int| 0 <= j < i ==> a@[j] == b@[j],
        decreases alen - i,
    {
        if a.get_char(i) != b.get_char(i) {
            return false;
        }
        i = i + 1;
    }
    proof {
        assert(a@ =~= b@);
    }
    true
}

} // verus!
