//! Text as sequences of characters: separated fields, escaping, and small
//! decimal numbers. The stored form of the progress cache is made of these.

use vstd::prelude::*;

verus! {

/// `String::push` of the standard library, which appends one character to a
/// string: afterwards the string holds what it held, followed by `c`.
#[verifier::external_body]
fn push_char(s: &mut String, c: char)
    ensures
        final(s)@ == old(s)@.push(c),
{
    s.push(c);
}

/// The characters of a string.
pub fn to_chars(s: &str) -> (chars: Vec<char>)
    ensures
        chars@ == s@,
{
    let mut chars: Vec<char> = Vec::new();
    for c in it: s.chars()
        invariant
            chars@ == it.seq().take(it.index() as int),
            it.seq() == s@,
    {
        chars.push(c);
    }
    assert(chars@ =~= s@);
    chars
}

/// Appends `chars` to `out`.
pub fn append_chars(out: &mut String, chars: &Vec<char>)
    ensures
        final(out)@ == old(out)@ + chars@,
{
    let mut i: usize = 0;
    while i < chars.len()
        invariant
            i <= chars.len(),
            out@ == old(out)@ + chars@.take(i as int),
        decreases chars.len() - i,
    {
        push_char(out, chars[i]);
        i = i + 1;
        assert(out@ =~= old(out)@ + chars@.take(i as int));
    }
    assert(chars@.take(chars.len() as int) =~= chars@);
}

/// The string made of `chars`.
pub fn from_chars(chars: &Vec<char>) -> (s: String)
    ensures
        s@ == chars@,
{
    let mut s = String::new();
    append_chars(&mut s, chars);
    assert(s@ =~= chars@);
    s
}

/// The texts of a sequence of character vectors.
pub open spec fn rows(fields: Seq<Vec<char>>) -> Seq<Seq<char>> {
    Seq::new(fields.len(), |i: int| fields[i]@)
}

/// The fields of `s`, which `sep` separates. A text without `sep` is one
/// field; every `sep` ends one field and begins the next.
pub open spec fn split(s: Seq<char>, sep: char) -> Seq<Seq<char>>
    decreases s.len(),
{
    if s.len() == 0 {
        seq![Seq::empty()]
    } else {
        let front = split(s.drop_last(), sep);
        if s.last() == sep {
            front.push(Seq::empty())
        } else {
            front.update(front.len() - 1, front.last().push(s.last()))
        }
    }
}

/// `fields` with `sep` between each two of them.
pub open spec fn join(fields: Seq<Seq<char>>, sep: char) -> Seq<char>
    decreases fields.len(),
{
    if fields.len() == 0 {
        Seq::empty()
    } else if fields.len() == 1 {
        fields[0]
    } else {
        join(fields.drop_last(), sep) + seq![sep] + fields.last()
    }
}

/// `lines`, each followed by `end`.
pub open spec fn terminated(lines: Seq<Seq<char>>, end: char) -> Seq<char>
    decreases lines.len(),
{
    if lines.len() == 0 {
        Seq::empty()
    } else {
        terminated(lines.drop_last(), end) + lines.last() + seq![end]
    }
}

/// A text has at least one field.
pub proof fn lemma_split_len(s: Seq<char>, sep: char)
    ensures
        split(s, sep).len() >= 1,
    decreases s.len(),
{
    if s.len() > 0 {
        lemma_split_len(s.drop_last(), sep);
    }
}

/// Text without `sep`, put behind a text, lengthens its last field.
pub proof fn lemma_split_append(a: Seq<char>, f: Seq<char>, sep: char)
    requires
        !f.contains(sep),
    ensures
        split(a, sep).len() >= 1,
        split(a + f, sep) == split(a, sep).update(
            split(a, sep).len() - 1,
            split(a, sep).last() + f,
        ),
    decreases f.len(),
{
    lemma_split_len(a, sep);
    let base = split(a, sep);
    if f.len() == 0 {
        assert(a + f =~= a);
        assert(base.last() + f =~= base.last());
        assert(base.update(base.len() - 1, base.last()) =~= base);
    } else {
        let g = f.drop_last();
        assert(f[f.len() - 1] == f.last());
        assert(f.last() != sep);
        assert forall|i: int| 0 <= i < g.len() implies g[i] != sep by {
            assert(f[i] == g[i]);
        }
        lemma_split_append(a, g, sep);
        assert((a + f).drop_last() =~= a + g);
        assert((a + f).last() == f.last());
        let front = split(a + g, sep);
        assert(front.last() == base.last() + g);
        assert(front.last().push(f.last()) =~= base.last() + f);
        assert(split(a + f, sep) == front.update(front.len() - 1, front.last().push(f.last())));
        assert(front.update(front.len() - 1, base.last() + f) =~= base.update(
            base.len() - 1,
            base.last() + f,
        ));
    }
}

/// Splitting undoes joining, if no field holds the separator.
pub proof fn lemma_split_join(fields: Seq<Seq<char>>, sep: char)
    requires
        fields.len() >= 1,
        forall|i: int| 0 <= i < fields.len() ==> !(#[trigger] fields[i]).contains(sep),
    ensures
        split(join(fields, sep), sep) == fields,
    decreases fields.len(),
{
    if fields.len() == 1 {
        lemma_split_append(Seq::empty(), fields[0], sep);
        assert(Seq::<char>::empty() + fields[0] =~= fields[0]);
        assert(split(Seq::<char>::empty(), sep) =~= seq![Seq::<char>::empty()]);
        assert(split(join(fields, sep), sep) =~= fields);
    } else {
        let front = fields.drop_last();
        assert forall|i: int| 0 <= i < front.len() implies !(#[trigger] front[i]).contains(sep) by {
            assert(front[i] == fields[i]);
        }
        lemma_split_join(front, sep);
        let a = join(front, sep) + seq![sep];
        assert(a.drop_last() =~= join(front, sep));
        assert(split(a, sep) == front.push(Seq::empty()));
        lemma_split_append(a, fields.last(), sep);
        assert(Seq::<char>::empty() + fields.last() =~= fields.last());
        assert(split(join(fields, sep), sep) =~= fields);
    }
}

/// Splitting a text of terminated lines gives the lines back, and an empty
/// field behind the last.
pub proof fn lemma_split_terminated(lines: Seq<Seq<char>>, end: char)
    requires
        forall|i: int| 0 <= i < lines.len() ==> !(#[trigger] lines[i]).contains(end),
    ensures
        split(terminated(lines, end), end) == lines.push(Seq::empty()),
    decreases lines.len(),
{
    if lines.len() == 0 {
        assert(split(terminated(lines, end), end) =~= lines.push(Seq::empty()));
    } else {
        let front = lines.drop_last();
        assert forall|i: int| 0 <= i < front.len() implies !(#[trigger] front[i]).contains(end) by {
            assert(front[i] == lines[i]);
        }
        lemma_split_terminated(front, end);
        let a = terminated(front, end);
        lemma_split_append(a, lines.last(), end);
        assert(Seq::<char>::empty() + lines.last() =~= lines.last());
        let b = a + lines.last();
        assert(split(b, end) =~= front.push(lines.last()));
        assert(front.push(lines.last()) =~= lines);
        assert((b + seq![end]).drop_last() =~= b);
        assert(terminated(lines, end) =~= b + seq![end]);
    }
}

/// The fields of `s`, which `sep` separates.
pub fn split_chars(s: &Vec<char>, sep: char) -> (fields: Vec<Vec<char>>)
    ensures
        rows(fields@) == split(s@, sep),
        fields.len() >= 1,
{
    let mut done: Vec<Vec<char>> = Vec::new();
    let mut current: Vec<char> = Vec::new();
    let mut i: usize = 0;
    assert(rows(done@).push(current@) =~= split(s@.take(0), sep));
    while i < s.len()
        invariant
            i <= s.len(),
            rows(done@).push(current@) == split(s@.take(i as int), sep),
        decreases s.len() - i,
    {
        let ghost before = rows(done@).push(current@);
        proof {
            assert(s@.take(i + 1).drop_last() =~= s@.take(i as int));
            assert(s@.take(i + 1).last() == s@[i as int]);
        }
        if s[i] == sep {
            done.push(current);
            current = Vec::new();
            assert(rows(done@).push(current@) =~= before.push(Seq::empty()));
        } else {
            current.push(s[i]);
            assert(rows(done@).push(current@) =~= before.update(
                before.len() - 1,
                before.last().push(s@[i as int]),
            ));
        }
        i = i + 1;
    }
    assert(s@.take(s.len() as int) =~= s@);
    let ghost before = rows(done@).push(current@);
    done.push(current);
    assert(rows(done@) =~= before);
    done
}

/// How one character is written inside a field: a backslash, a tab and a
/// line feed as a backslash and a letter, any other character as itself.
pub open spec fn escape_char(c: char) -> Seq<char> {
    if c == '\\' {
        seq!['\\', '\\']
    } else if c == '\t' {
        seq!['\\', 't']
    } else if c == '\n' {
        seq!['\\', 'n']
    } else {
        seq![c]
    }
}

/// How a text is written inside a field.
pub open spec fn escape(s: Seq<char>) -> Seq<char>
    decreases s.len(),
{
    if s.len() == 0 {
        Seq::empty()
    } else {
        escape(s.drop_last()) + escape_char(s.last())
    }
}

/// The character that a backslash and `c` stand for, if they stand for one.
pub open spec fn escaped_by(c: char) -> Option<char> {
    if c == '\\' {
        Some('\\')
    } else if c == 't' {
        Some('\t')
    } else if c == 'n' {
        Some('\n')
    } else {
        None
    }
}

/// `text` behind `head`, if there is a text.
pub open spec fn prepend(head: Seq<char>, text: Option<Seq<char>>) -> Option<Seq<char>> {
    match text {
        Some(rest) => Some(head + rest),
        None => None,
    }
}

/// The text that a field stands for; `None` if a backslash in it is
/// followed by nothing or by a character that it cannot escape.
pub open spec fn unescape(s: Seq<char>) -> Option<Seq<char>>
    decreases s.len(),
{
    if s.len() == 0 {
        Some(Seq::empty())
    } else if s[0] == '\\' {
        if s.len() < 2 {
            None
        } else {
            match escaped_by(s[1]) {
                Some(c) => prepend(seq![c], unescape(s.skip(2))),
                None => None,
            }
        }
    } else {
        prepend(seq![s[0]], unescape(s.drop_first()))
    }
}

/// The written form of a text begins with the written form of its first
/// character.
pub proof fn lemma_escape_front(s: Seq<char>)
    requires
        s.len() > 0,
    ensures
        escape(s) == escape_char(s[0]) + escape(s.drop_first()),
    decreases s.len(),
{
    if s.len() == 1 {
        assert(s.drop_last() =~= Seq::<char>::empty());
        assert(s.drop_first() =~= Seq::<char>::empty());
        assert(escape(s.drop_last()) =~= Seq::<char>::empty());
        assert(escape(s) =~= escape_char(s[0]) + escape(s.drop_first()));
    } else {
        let front = s.drop_last();
        lemma_escape_front(front);
        assert(front.drop_first() =~= s.drop_first().drop_last());
        assert(s.drop_first().last() == s.last());
        assert(escape(s) =~= escape_char(s[0]) + escape(s.drop_first()));
    }
}

/// Reading undoes writing.
pub proof fn lemma_unescape_escape(s: Seq<char>)
    ensures
        unescape(escape(s)) == Some(s),
    decreases s.len(),
{
    if s.len() > 0 {
        let c = s[0];
        let rest = escape(s.drop_first());
        lemma_escape_front(s);
        lemma_unescape_escape(s.drop_first());
        let written = escape_char(c) + rest;
        assert(seq![c] + s.drop_first() =~= s);
        if c == '\\' || c == '\t' || c == '\n' {
            assert(written[0] == '\\');
            assert(written.skip(2) =~= rest);
        } else {
            assert(written[0] == c);
            assert(written.drop_first() =~= rest);
        }
    }
}

/// The written form of a text holds neither a tab nor a line feed.
pub proof fn lemma_escape_has_no_separator(s: Seq<char>)
    ensures
        !escape(s).contains('\t'),
        !escape(s).contains('\n'),
    decreases s.len(),
{
    if s.len() > 0 {
        lemma_escape_has_no_separator(s.drop_last());
        let a = escape(s.drop_last());
        let b = escape_char(s.last());
        assert forall|i: int| 0 <= i < (a + b).len() implies (a + b)[i] != '\t' && (a + b)[i]
            != '\n' by {
            if i < a.len() {
                assert(a.contains(a[i]));
            } else {
                assert((a + b)[i] == b[i - a.len()]);
            }
        }
    }
}

/// Appends the written form of `s` to `out`.
pub fn write_escaped(out: &mut String, s: &str)
    ensures
        final(out)@ == old(out)@ + escape(s@),
{
    let chars = to_chars(s);
    let mut i: usize = 0;
    assert(out@ =~= old(out)@ + escape(chars@.take(0)));
    while i < chars.len()
        invariant
            i <= chars.len(),
            out@ == old(out)@ + escape(chars@.take(i as int)),
        decreases chars.len() - i,
    {
        let ghost before = out@;
        proof {
            assert(chars@.take(i + 1).drop_last() =~= chars@.take(i as int));
            assert(chars@.take(i + 1).last() == chars@[i as int]);
        }
        let c = chars[i];
        if c == '\\' {
            push_char(out, '\\');
            push_char(out, '\\');
        } else if c == '\t' {
            push_char(out, '\\');
            push_char(out, 't');
        } else if c == '\n' {
            push_char(out, '\\');
            push_char(out, 'n');
        } else {
            push_char(out, c);
        }
        assert(out@ =~= before + escape_char(c));
        i = i + 1;
        assert(out@ =~= old(out)@ + escape(chars@.take(i as int)));
    }
    assert(chars@.take(chars.len() as int) =~= chars@);
}

/// The text that the field `s` stands for, if it stands for one.
pub fn read_escaped(s: &Vec<char>) -> (text: Option<String>)
    ensures
        match text {
            Some(t) => unescape(s@) == Some(t@),
            None => unescape(s@) is None,
        },
{
    let mut out = String::new();
    let mut i: usize = 0;
    assert(s@.skip(0) =~= s@);
    assert(out@ + s@ =~= s@);
    while i < s.len()
        invariant
            i <= s.len(),
            unescape(s@) == prepend(out@, unescape(s@.skip(i as int))),
        decreases s.len() - i,
    {
        let ghost rest = s@.skip(i as int);
        let ghost before = out@;
        assert(rest[0] == s@[i as int]);
        let c = s[i];
        if c == '\\' {
            if i + 1 >= s.len() {
                return None;
            }
            assert(rest[1] == s@[i + 1]);
            let e = s[i + 1];
            let plain = if e == '\\' {
                '\\'
            } else if e == 't' {
                '\t'
            } else if e == 'n' {
                '\n'
            } else {
                return None;
            };
            push_char(&mut out, plain);
            i = i + 2;
            proof {
                assert(rest.skip(2) =~= s@.skip(i as int));
                let tail = unescape(s@.skip(i as int));
                if tail is Some {
                    assert(before + (seq![plain] + tail->Some_0) =~= out@ + tail->Some_0);
                }
            }
        } else {
            push_char(&mut out, c);
            i = i + 1;
            proof {
                assert(rest.drop_first() =~= s@.skip(i as int));
                let tail = unescape(s@.skip(i as int));
                if tail is Some {
                    assert(before + (seq![c] + tail->Some_0) =~= out@ + tail->Some_0);
                }
            }
        }
    }
    assert(s@.skip(s.len() as int) =~= Seq::<char>::empty());
    assert(out@ + Seq::<char>::empty() =~= out@);
    Some(out)
}

/// The character of a decimal digit.
pub open spec fn digit_char(d: int) -> char {
    if d == 0 {
        '0'
    } else if d == 1 {
        '1'
    } else if d == 2 {
        '2'
    } else if d == 3 {
        '3'
    } else if d == 4 {
        '4'
    } else if d == 5 {
        '5'
    } else if d == 6 {
        '6'
    } else if d == 7 {
        '7'
    } else if d == 8 {
        '8'
    } else {
        '9'
    }
}

/// The value of a decimal digit, if the character is one.
pub open spec fn digit_value(c: char) -> Option<int> {
    if c == '0' {
        Some(0)
    } else if c == '1' {
        Some(1)
    } else if c == '2' {
        Some(2)
    } else if c == '3' {
        Some(3)
    } else if c == '4' {
        Some(4)
    } else if c == '5' {
        Some(5)
    } else if c == '6' {
        Some(6)
    } else if c == '7' {
        Some(7)
    } else if c == '8' {
        Some(8)
    } else if c == '9' {
        Some(9)
    } else {
        None
    }
}

/// A number below 256 in decimal digits, without leading zeros.
pub open spec fn decimal(n: u8) -> Seq<char> {
    if n < 10 {
        seq![digit_char(n as int)]
    } else if n < 100 {
        seq![digit_char(n as int / 10), digit_char(n as int % 10)]
    } else {
        seq![digit_char(n as int / 100), digit_char(n as int / 10 % 10), digit_char(n as int % 10)]
    }
}

/// The number below 256 that one to three decimal digits stand for; `None`
/// for any other text.
pub open spec fn number(s: Seq<char>) -> Option<u8> {
    if s.len() == 1 {
        match digit_value(s[0]) {
            Some(a) => Some(a as u8),
            None => None,
        }
    } else if s.len() == 2 {
        match (digit_value(s[0]), digit_value(s[1])) {
            (Some(a), Some(b)) => Some((10 * a + b) as u8),
            _ => None,
        }
    } else if s.len() == 3 {
        match (digit_value(s[0]), digit_value(s[1]), digit_value(s[2])) {
            (Some(a), Some(b), Some(c)) => if 100 * a + 10 * b + c <= 255 {
                Some((100 * a + 10 * b + c) as u8)
            } else {
                None
            },
            _ => None,
        }
    } else {
        None
    }
}

/// Reading a number undoes writing it, and its digits are no separators.
pub proof fn lemma_number_decimal(n: u8)
    ensures
        number(decimal(n)) == Some(n),
        !decimal(n).contains('\t'),
        !decimal(n).contains('\n'),
{
    let d = decimal(n);
    assert forall|i: int| 0 <= i < d.len() implies d[i] != '\t' && d[i] != '\n' by {}
}

fn digit(d: u8) -> (c: char)
    requires
        d < 10,
    ensures
        c == digit_char(d as int),
{
    if d == 0 {
        '0'
    } else if d == 1 {
        '1'
    } else if d == 2 {
        '2'
    } else if d == 3 {
        '3'
    } else if d == 4 {
        '4'
    } else if d == 5 {
        '5'
    } else if d == 6 {
        '6'
    } else if d == 7 {
        '7'
    } else if d == 8 {
        '8'
    } else {
        '9'
    }
}

fn value_of_digit(c: char) -> (d: Option<u8>)
    ensures
        match d {
            Some(v) => digit_value(c) == Some(v as int) && v < 10,
            None => digit_value(c) is None,
        },
{
    if c == '0' {
        Some(0)
    } else if c == '1' {
        Some(1)
    } else if c == '2' {
        Some(2)
    } else if c == '3' {
        Some(3)
    } else if c == '4' {
        Some(4)
    } else if c == '5' {
        Some(5)
    } else if c == '6' {
        Some(6)
    } else if c == '7' {
        Some(7)
    } else if c == '8' {
        Some(8)
    } else if c == '9' {
        Some(9)
    } else {
        None
    }
}

/// Appends `n` in decimal digits to `out`.
pub fn write_decimal(out: &mut String, n: u8)
    ensures
        final(out)@ == old(out)@ + decimal(n),
{
    if n >= 100 {
        push_char(out, digit(n / 100));
        push_char(out, digit(n / 10 % 10));
        push_char(out, digit(n % 10));
    } else if n >= 10 {
        push_char(out, digit(n / 10));
        push_char(out, digit(n % 10));
    } else {
        push_char(out, digit(n));
    }
    assert(out@ =~= old(out)@ + decimal(n));
}

/// The number that the field `s` stands for, if it stands for one.
pub fn read_decimal(s: &Vec<char>) -> (n: Option<u8>)
    ensures
        n == number(s@),
{
    if s.len() == 1 {
        value_of_digit(s[0])
    } else if s.len() == 2 {
        match (value_of_digit(s[0]), value_of_digit(s[1])) {
            (Some(a), Some(b)) => Some(10 * a + b),
            _ => None,
        }
    } else if s.len() == 3 {
        match (value_of_digit(s[0]), value_of_digit(s[1]), value_of_digit(s[2])) {
            (Some(a), Some(b), Some(c)) => {
                let value: u16 = 100 * (a as u16) + 10 * (b as u16) + (c as u16);
                if value <= 255 {
                    Some(value as u8)
                } else {
                    None
                }
            },
            _ => None,
        }
    } else {
        None
    }
}

} // verus!
