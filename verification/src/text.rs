//! Cutting text into pieces.
//!
//! The specifications speak of character sequences. The code works on the
//! bytes of a `&str` and never copies: every piece it returns borrows from the
//! text it was given. A text is cut only where a character of it ends, which
//! the proofs here establish from the definition of UTF-8: an ASCII byte is
//! always a character of its own, and the encoding of a prefix of a text is a
//! prefix of the encoding of the text.

use vstd::prelude::*;
use vstd::string::*;
use vstd::utf8::*;

verus! {

/// The position of the first `c` in `s`, or `s.len()` where `s` holds no `c`.
pub open spec fn find(s: Seq<char>, c: char) -> int
    decreases s.len(),
{
    if s.len() == 0 || s[0] == c {
        0
    } else {
        1 + find(s.drop_first(), c)
    }
}

/// What stands before and after the first `c` in `s`, where `s` holds a `c`.
pub open spec fn split_once(s: Seq<char>, c: char) -> Option<(Seq<char>, Seq<char>)> {
    let i = find(s, c);
    if 0 <= i < s.len() {
        Some((s.subrange(0, i), s.subrange(i + 1, s.len() as int)))
    } else {
        None
    }
}

/// The pieces of `s` between its occurrences of `c`, in order. A text with
/// `n` occurrences has `n + 1` pieces, some of which may be empty.
pub open spec fn split(s: Seq<char>, c: char) -> Seq<Seq<char>>
    decreases s.len(),
{
    let i = find(s, c);
    if 0 <= i < s.len() {
        seq![s.subrange(0, i)] + split(s.subrange(i + 1, s.len() as int), c)
    } else {
        seq![s]
    }
}

/// `line` without one carriage return at its end, if it has one there.
pub open spec fn strip_carriage_return(line: Seq<char>) -> Seq<char> {
    if line.len() > 0 && line.last() == '\r' {
        line.drop_last()
    } else {
        line
    }
}

/// The lines of `s`. A line ends at a line feed; a carriage return right
/// before that line feed belongs to the line ending too. Text after the last
/// line feed is a line of its own, taken as it stands, unless it is empty.
pub open spec fn lines(s: Seq<char>) -> Seq<Seq<char>>
    decreases s.len(),
{
    let i = find(s, '\n');
    if s.len() == 0 {
        seq![]
    } else if 0 <= i < s.len() {
        seq![strip_carriage_return(s.subrange(0, i))] + lines(s.subrange(i + 1, s.len() as int))
    } else {
        seq![s]
    }
}

/// The results of `f` on the elements of `items`, in order, without those on
/// which `f` gives `None`.
pub open spec fn filter_map<A, B>(items: Seq<A>, f: spec_fn(A) -> Option<B>) -> Seq<B>
    decreases items.len(),
{
    if items.len() == 0 {
        seq![]
    } else {
        (match f(items[0]) {
            Some(b) => seq![b],
            None => seq![],
        }) + filter_map(items.drop_first(), f)
    }
}

/// The length of the longest prefix of `s` whose characters all satisfy
/// `keep`.
pub open spec fn prefix_len(s: Seq<char>, keep: spec_fn(char) -> bool) -> int
    decreases s.len(),
{
    if s.len() == 0 || !keep(s[0]) {
        0
    } else {
        1 + prefix_len(s.drop_first(), keep)
    }
}

/// The longest prefix of `s` whose characters all satisfy `keep`.
pub open spec fn leading(s: Seq<char>, keep: spec_fn(char) -> bool) -> Seq<char> {
    s.take(prefix_len(s, keep))
}

/// What is left of `s` after its longest prefix of characters that satisfy
/// `keep`.
pub open spec fn after_leading(s: Seq<char>, keep: spec_fn(char) -> bool) -> Seq<char> {
    s.skip(prefix_len(s, keep))
}

/// Whether `c` is white space: one of the twenty-five characters with the
/// Unicode property of that name.
pub open spec fn is_white_space(c: char) -> bool {
    let v = c as u32;
    ||| 0x09 <= v <= 0x0D
    ||| v == 0x20
    ||| v == 0x85
    ||| v == 0xA0
    ||| v == 0x1680
    ||| 0x2000 <= v <= 0x200A
    ||| v == 0x2028
    ||| v == 0x2029
    ||| v == 0x202F
    ||| v == 0x205F
    ||| v == 0x3000
}

/// The texts of `pieces`, in order.
pub open spec fn texts(pieces: Seq<&str>) -> Seq<Seq<char>> {
    Seq::new(pieces.len(), |i: int| pieces[i]@)
}

/// Whether `c` is an ASCII character.
pub open spec fn is_ascii_char(c: char) -> bool {
    (c as u32) < 0x80
}

/// `find` returns the least position of `c`, and the length where there is
/// none.
pub proof fn lemma_find(s: Seq<char>, c: char)
    ensures
        0 <= find(s, c) <= s.len(),
        find(s, c) < s.len() ==> s[find(s, c)] == c,
        forall|j: int| 0 <= j < find(s, c) ==> s[j] != c,
        find(s, c) == s.len() <==> !s.contains(c),
    decreases s.len(),
{
    if s.len() == 0 || s[0] == c {
    } else {
        let rest = s.drop_first();
        lemma_find(rest, c);
        assert forall|j: int| 0 <= j < find(s, c) implies s[j] != c by {
            if j > 0 {
                assert(rest[j - 1] == s[j]);
            }
        }
        if find(s, c) < s.len() {
            assert(rest[find(rest, c)] == s[find(s, c)]);
        }
    }
}

/// A position that holds `c` with no `c` before it is the one `find` returns.
pub proof fn lemma_find_is(s: Seq<char>, c: char, i: int)
    requires
        0 <= i < s.len(),
        s[i] == c,
        forall|j: int| 0 <= j < i ==> s[j] != c,
    ensures
        find(s, c) == i,
{
    lemma_find(s, c);
}

/// `prefix_len` counts characters that satisfy `keep` and stops at the first
/// that does not.
pub proof fn lemma_prefix_len(s: Seq<char>, keep: spec_fn(char) -> bool)
    ensures
        0 <= prefix_len(s, keep) <= s.len(),
        forall|j: int| 0 <= j < prefix_len(s, keep) ==> keep(s[j]),
        prefix_len(s, keep) < s.len() ==> !keep(s[prefix_len(s, keep)]),
    decreases s.len(),
{
    if s.len() == 0 || !keep(s[0]) {
    } else {
        let rest = s.drop_first();
        lemma_prefix_len(rest, keep);
        assert forall|j: int| 0 <= j < prefix_len(s, keep) implies keep(s[j]) by {
            if j > 0 {
                assert(rest[j - 1] == s[j]);
            }
        }
        if prefix_len(s, keep) < s.len() {
            assert(rest[prefix_len(rest, keep)] == s[prefix_len(s, keep)]);
        }
    }
}

/// A length up to which every character satisfies `keep`, and at which the
/// text ends or a character does not, is the one `prefix_len` returns.
pub proof fn lemma_prefix_len_is(s: Seq<char>, keep: spec_fn(char) -> bool, n: int)
    requires
        0 <= n <= s.len(),
        forall|j: int| 0 <= j < n ==> keep(s[j]),
        n < s.len() ==> !keep(s[n]),
    ensures
        prefix_len(s, keep) == n,
{
    lemma_prefix_len(s, keep);
}

/// A cut of `s` into a first piece whose characters all satisfy `keep`, and a
/// second that is empty or starts with a character that does not, is the cut
/// after the longest prefix of characters that satisfy `keep`.
pub proof fn lemma_leading_is(
    s: Seq<char>,
    keep: spec_fn(char) -> bool,
    head: Seq<char>,
    tail: Seq<char>,
)
    requires
        s == head + tail,
        forall|j: int| 0 <= j < head.len() ==> keep(#[trigger] head[j]),
        tail.len() > 0 ==> !keep(tail[0]),
    ensures
        head == leading(s, keep),
        tail == after_leading(s, keep),
{
    let n = head.len() as int;
    assert forall|j: int| 0 <= j < n implies keep(s[j]) by {
        assert(s[j] == head[j]);
    }
    if n < s.len() {
        assert(s[n] == tail[0]);
    }
    lemma_prefix_len_is(s, keep, n);
    assert(s.take(n) =~= head);
    assert(s.skip(n) =~= tail);
}

/// UTF-8 encodes a concatenation piece by piece.
proof fn lemma_encode_concat(a: Seq<char>, b: Seq<char>)
    ensures
        encode_utf8(a + b) == encode_utf8(a) + encode_utf8(b),
    decreases a.len(),
{
    if a.len() == 0 {
        assert(a + b =~= b);
        assert(encode_utf8(a) + encode_utf8(b) =~= encode_utf8(b));
    } else {
        lemma_encode_concat(a.drop_first(), b);
        assert((a + b).drop_first() =~= a.drop_first() + b);
        assert(encode_utf8(a + b) =~= encode_utf8(a) + encode_utf8(b));
    }
}

/// UTF-8 encodes an ASCII character as the one byte with its number.
proof fn lemma_encode_ascii(c: char)
    requires
        is_ascii_char(c),
    ensures
        encode_utf8(seq![c]) == seq![c as u8],
{
    let v = c as u32;
    assert((v & 0x7F) as u8 == v as u8) by (bit_vector)
        requires
            v < 0x80,
    ;
    reveal_with_fuel(encode_utf8, 2);
    assert(encode_scalar(v) =~= seq![c as u8]);
    assert(encode_utf8(seq![c]) =~= seq![c as u8]);
}

/// Where a text holds an ASCII character, its encoding holds that byte.
proof fn lemma_ascii_char_in_bytes(s: Seq<char>, c: char)
    requires
        is_ascii_char(c),
        s.contains(c),
    ensures
        encode_utf8(s).contains(c as u8),
{
    let i = choose|i: int| 0 <= i < s.len() && s[i] == c;
    let before = s.subrange(0, i);
    let after = s.subrange(i + 1, s.len() as int);
    assert(s =~= before + seq![c] + after);
    lemma_encode_concat(before + seq![c], after);
    lemma_encode_concat(before, seq![c]);
    lemma_encode_ascii(c);
    let bytes = encode_utf8(before) + seq![c as u8] + encode_utf8(after);
    assert(bytes[encode_utf8(before).len() as int] == c as u8);
}

/// Where a text ends in an ASCII character, its encoding ends in that byte.
proof fn lemma_ascii_last_in_bytes(s: Seq<char>)
    requires
        s.len() > 0,
        is_ascii_char(s.last()),
    ensures
        encode_utf8(s).len() > 0,
        encode_utf8(s).last() == s.last() as u8,
{
    assert(s =~= s.drop_last() + seq![s.last()]);
    lemma_encode_concat(s.drop_last(), seq![s.last()]);
    lemma_encode_ascii(s.last());
}

/// In the encoding of a text, the place where a prefix of the text ends is a
/// character boundary, with the encoding of the prefix before it and that of
/// the rest after it.
proof fn lemma_cut(a: Seq<char>, b: Seq<char>)
    ensures
        is_char_boundary(encode_utf8(a + b), encode_utf8(a).len() as int),
        encode_utf8(a + b).subrange(0, encode_utf8(a).len() as int) == encode_utf8(a),
        encode_utf8(a + b).subrange(
            encode_utf8(a).len() as int,
            encode_utf8(a + b).len() as int,
        ) == encode_utf8(b),
    decreases a.len(),
{
    let bytes = encode_utf8(a + b);
    let n = encode_utf8(a).len() as int;
    lemma_encode_concat(a, b);
    encode_utf8_valid_utf8(a + b);
    assert(bytes.subrange(0, n) =~= encode_utf8(a));
    assert(bytes.subrange(n, bytes.len() as int) =~= encode_utf8(b));
    if a.len() > 0 {
        let rest = a.drop_first();
        lemma_cut(rest, b);
        lemma_encode_concat(rest, b);
        encode_utf8_first_scalar(a + b);
        assert((a + b).drop_first() =~= rest + b);
        assert(pop_first_scalar(bytes) =~= encode_utf8(rest + b));
        assert(n - length_of_first_scalar(bytes) == encode_utf8(rest).len());
        assert(is_char_boundary(bytes, n)) by {
            reveal_with_fuel(is_char_boundary, 2);
        }
    }
}

/// The position of the first byte `b` in `bytes`, or the length where there
/// is none.
fn find_byte(bytes: &[u8], b: u8) -> (p: usize)
    ensures
        p <= bytes@.len(),
        p < bytes@.len() ==> bytes@[p as int] == b,
        forall|j: int| 0 <= j < p ==> bytes@[j] != b,
{
    let mut p: usize = 0;
    while p < bytes.len() && bytes[p] != b
        invariant
            p <= bytes@.len(),
            forall|j: int| 0 <= j < p ==> bytes@[j] != b,
        decreases bytes@.len() - p,
    {
        p += 1;
    }
    p
}

/// Cuts `s` in two around the ASCII character whose byte stands at `p`.
fn cut_at<'a>(s: &'a str, p: usize) -> (parts: (&'a str, &'a str))
    requires
        p < s.spec_bytes().len(),
        s.spec_bytes()[p as int] < 0x80,
    ensures
        parts.0.spec_bytes() == s.spec_bytes().subrange(0, p as int),
        parts.1.spec_bytes() == s.spec_bytes().subrange(p + 1, s.spec_bytes().len() as int),
        s@ == parts.0@ + seq![s.spec_bytes()[p as int] as char] + parts.1@,
{
    let ghost bytes = s.spec_bytes();
    proof {
        encode_utf8_valid_utf8(s@);
        is_char_boundary_iff_is_leading_byte(bytes, p as int);
    }
    let (head, tail) = s.split_at(p);
    let ghost tail_bytes = tail.spec_bytes();
    proof {
        encode_utf8_valid_utf8(tail@);
        assert(tail_bytes[0] == bytes[p as int]);
        assert(is_char_boundary(tail_bytes, 1)) by {
            reveal_with_fuel(is_char_boundary, 2);
            reveal_with_fuel(valid_utf8, 2);
        }
    }
    let (_, rest) = tail.split_at(1);
    proof {
        let b = bytes[p as int];
        encode_utf8_decode_utf8(s@);
        encode_utf8_decode_utf8(head@);
        encode_utf8_decode_utf8(tail@);
        encode_utf8_decode_utf8(rest@);
        decode_utf8_split(bytes, p as int);
        assert(s@ =~= head@ + tail@);
        assert((b & 0x7F) as u32 == b as u32) by (bit_vector)
            requires
                b < 0x80,
        ;
        assert(pop_first_scalar(tail_bytes) =~= rest.spec_bytes());
        assert(tail@ =~= seq![b as char] + rest@);
        assert(rest.spec_bytes() =~= bytes.subrange(p + 1, bytes.len() as int));
    }
    (head, rest)
}

/// Cuts `s` at its first `delimiter`, which is left out of both pieces.
/// Gives `None` where `s` holds no `delimiter`.
pub(crate) fn split_first<'a>(s: &'a str, delimiter: char) -> (parts: Option<(&'a str, &'a str)>)
    requires
        is_ascii_char(delimiter),
    ensures
        match parts {
            Some((head, tail)) => split_once(s@, delimiter) == Some((head@, tail@))
                && tail.spec_bytes().len() < s.spec_bytes().len(),
            None => split_once(s@, delimiter) is None,
        },
{
    let bytes = s.as_bytes();
    let b = delimiter as u8;
    let p = find_byte(bytes, b);
    if p < bytes.len() {
        let (head, tail) = cut_at(s, p);
        proof {
            assert((b as char) == delimiter);
            if head@.contains(delimiter) {
                lemma_ascii_char_in_bytes(head@, delimiter);
                let j = choose|j: int|
                    0 <= j < head.spec_bytes().len() && head.spec_bytes()[j] == delimiter as u8;
                assert(bytes@[j] == b);
            }
            let i = head@.len() as int;
            assert(s@[i] == delimiter);
            assert forall|j: int| 0 <= j < i implies s@[j] != delimiter by {
                assert(s@[j] == head@[j]);
            }
            lemma_find_is(s@, delimiter, i);
            assert(s@.subrange(0, i) =~= head@);
            assert(s@.subrange(i + 1, s@.len() as int) =~= tail@);
        }
        Some((head, tail))
    } else {
        proof {
            if s@.contains(delimiter) {
                lemma_ascii_char_in_bytes(s@, delimiter);
                let j = choose|j: int| 0 <= j < bytes@.len() && bytes@[j] == delimiter as u8;
                assert(bytes@[j] != b);
            }
            lemma_find(s@, delimiter);
        }
        None
    }
}

/// Takes one carriage return off the end of `line`, if it has one there.
pub(crate) fn trim_carriage_return<'a>(line: &'a str) -> (trimmed: &'a str)
    ensures
        trimmed@ == strip_carriage_return(line@),
{
    let bytes = line.as_bytes();
    let n = bytes.len();
    if n > 0 && bytes[n - 1] == 0x0D {
        let (head, rest) = cut_at(line, n - 1);
        proof {
            encode_utf8_decode_utf8(rest@);
            assert(rest.spec_bytes() =~= Seq::<u8>::empty());
            assert(rest@ =~= Seq::<char>::empty());
            assert((0x0Du8 as char) == '\r');
            assert(line@ =~= head@ + seq!['\r']);
            assert(line@.drop_last() =~= head@);
        }
        head
    } else {
        proof {
            if line@.len() > 0 && line@.last() == '\r' {
                lemma_ascii_last_in_bytes(line@);
            }
        }
        line
    }
}

/// Takes the first line off a text that is not empty, and gives the line
/// and the text after its line ending.
pub(crate) fn next_line<'a>(s: &'a str) -> (parts: (&'a str, &'a str))
    requires
        s@.len() > 0,
    ensures
        lines(s@) == seq![parts.0@] + lines(parts.1@),
        parts.1@.len() < s@.len(),
        parts.1.spec_bytes().len() < s.spec_bytes().len(),
{
    match split_first(s, '\n') {
        Some((line, rest)) => (trim_carriage_return(line), rest),
        None => {
            proof {
                encode_utf8_valid_utf8(s@);
                is_char_boundary_start_end_of_seq(s.spec_bytes());
            }
            let (line, rest) = s.split_at(s.as_bytes().len());
            proof {
                encode_utf8_decode_utf8(s@);
                encode_utf8_decode_utf8(line@);
                encode_utf8_decode_utf8(rest@);
                assert(line.spec_bytes() =~= s.spec_bytes());
                assert(rest.spec_bytes() =~= Seq::<u8>::empty());
                assert(rest@ =~= Seq::<char>::empty());
                assert(lines(s@) =~= seq![line@] + lines(rest@));
            }
            (line, rest)
        },
    }
}

/// Cuts `s` at every `delimiter` and gives the pieces in order.
pub(crate) fn split_all<'a>(s: &'a str, delimiter: char) -> (pieces: Vec<&'a str>)
    requires
        is_ascii_char(delimiter),
    ensures
        texts(pieces@) == split(s@, delimiter),
{
    let mut pieces: Vec<&'a str> = Vec::new();
    let mut rest = s;
    let mut done = false;
    while !done
        invariant
            is_ascii_char(delimiter),
            !done ==> texts(pieces@) + split(rest@, delimiter) == split(s@, delimiter),
            done ==> texts(pieces@) == split(s@, delimiter),
        decreases
                (if done {
                    0
                } else {
                    rest@.len() + 1
                }),
    {
        let ghost before = pieces@;
        match split_first(rest, delimiter) {
            Some((head, tail)) => {
                pieces.push(head);
                proof {
                    assert(texts(pieces@) =~= texts(before) + seq![head@]);
                    assert(texts(pieces@) + split(tail@, delimiter) =~= texts(before) + split(
                        rest@,
                        delimiter,
                    ));
                }
                rest = tail;
            },
            None => {
                pieces.push(rest);
                proof {
                    assert(texts(pieces@) =~= texts(before) + seq![rest@]);
                }
                done = true;
            },
        }
    }
    pieces
}

/// The number of lines of `s`.
pub(crate) fn count_lines(s: &str) -> (count: usize)
    ensures
        count == lines(s@).len(),
{
    let mut count: usize = 0;
    let mut rest = s;
    let total = s.as_bytes().len();
    while !rest.is_empty()
        invariant
            count + lines(rest@).len() == lines(s@).len(),
            count + rest.spec_bytes().len() <= total,
        decreases rest@.len(),
    {
        let (_, tail) = next_line(rest);
        count += 1;
        rest = tail;
    }
    count
}

/// The number of bytes that UTF-8 spends on `c`.
fn utf8_width(c: char) -> (n: usize)
    ensures
        n == encode_scalar(c as u32).len(),
        1 <= n <= 4,
{
    let v = c as u32;
    proof {
        char_is_scalar(c);
    }
    if v < 0x80 {
        1
    } else if v < 0x800 {
        2
    } else if v < 0x10000 {
        3
    } else {
        4
    }
}

/// Cuts `s` after its first `n` bytes, which hold its first `k` characters.
fn cut_prefix<'a>(s: &'a str, n: usize, Ghost(k): Ghost<int>) -> (parts: (&'a str, &'a str))
    requires
        0 <= k <= s@.len(),
        n == encode_utf8(s@.take(k)).len(),
    ensures
        parts.0@ == s@.take(k),
        parts.1@ == s@.skip(k),
        parts.1.spec_bytes().len() + n == s.spec_bytes().len(),
{
    proof {
        assert(s@ =~= s@.take(k) + s@.skip(k));
        lemma_cut(s@.take(k), s@.skip(k));
        lemma_encode_concat(s@.take(k), s@.skip(k));
    }
    let (head, tail) = s.split_at(n);
    proof {
        assert(tail.spec_bytes().len() == s.spec_bytes().len() - n);
        encode_utf8_decode_utf8(head@);
        encode_utf8_decode_utf8(tail@);
        encode_utf8_decode_utf8(s@.take(k));
        encode_utf8_decode_utf8(s@.skip(k));
    }
    (head, tail)
}

/// The first character of `s`, if it has one.
pub(crate) fn first_char(s: &str) -> (first: Option<char>)
    ensures
        match first {
            Some(c) => s@.len() > 0 && c == s@[0],
            None => s@.len() == 0,
        },
{
    if s.is_empty() {
        None
    } else {
        Some(s.get_char(0))
    }
}

/// Takes the first character off `s`, if it has one.
pub(crate) fn split_first_char<'a>(s: &'a str) -> (parts: Option<(char, &'a str)>)
    ensures
        match parts {
            Some((c, rest)) => s@.len() > 0 && c == s@[0] && rest@ == s@.drop_first()
                && rest.spec_bytes().len() + encode_scalar(c as u32).len() == s.spec_bytes().len(),
            None => s@.len() == 0,
        },
{
    if s.is_empty() {
        return None;
    }
    let c = s.get_char(0);
    let n = utf8_width(c);
    proof {
        reveal_with_fuel(encode_utf8, 2);
        assert(s@.take(1) =~= seq![c]);
        assert(encode_utf8(seq![c]) =~= encode_scalar(c as u32));
    }
    let (_, rest) = cut_prefix(s, n, Ghost(1));
    proof {
        assert(s@.skip(1) =~= s@.drop_first());
    }
    Some((c, rest))
}

/// Without its first character: the text after the first character of `s`.
pub(crate) fn drop_first_char<'a>(s: &'a str) -> (rest: &'a str)
    requires
        s@.len() > 0,
    ensures
        rest@ == s@.drop_first(),
{
    match split_first_char(s) {
        Some((_, rest)) => rest,
        None => s,
    }
}

/// Cuts `s` after its longest prefix of characters on which `keep` answers
/// `true`: `keep` accepts every character of the first piece, and turns down
/// the first character of the second, if there is one.
pub(crate) fn span<'a, F: Fn(char) -> bool>(s: &'a str, keep: F) -> (parts: (&'a str, &'a str))
    requires
        forall|c: char| call_requires(keep, (c,)),
    ensures
        s@ == parts.0@ + parts.1@,
        forall|i: int|
            0 <= i < parts.0@.len() ==> call_ensures(keep, (#[trigger] parts.0@[i],), true),
        parts.1@.len() > 0 ==> call_ensures(keep, (parts.1@[0],), false),
        parts.1.spec_bytes().len() <= s.spec_bytes().len(),
{
    let mut rest = s;
    let mut n: usize = 0;
    let mut done = false;
    let total = s.as_bytes().len();
    let ghost mut k: int = 0;
    proof {
        assert(s@.skip(0) =~= s@);
        assert(s@.take(0) =~= Seq::<char>::empty());
    }
    while !done
        invariant
            forall|c: char| call_requires(keep, (c,)),
            0 <= k <= s@.len(),
            rest@ == s@.skip(k),
            n == encode_utf8(s@.take(k)).len(),
            n + rest.spec_bytes().len() == total,
            total == s.spec_bytes().len(),
            forall|j: int| 0 <= j < k ==> call_ensures(keep, (#[trigger] s@[j],), true),
            done ==> k == s@.len() || call_ensures(keep, (s@[k],), false),
        decreases
                (if done {
                    0
                } else {
                    rest@.len() + 1
                }),
    {
        match split_first_char(rest) {
            None => {
                done = true;
            },
            Some((c, tail)) => {
                if keep(c) {
                    proof {
                        assert(s@.take(k + 1) =~= s@.take(k) + seq![c]);
                        lemma_encode_concat(s@.take(k), seq![c]);
                        reveal_with_fuel(encode_utf8, 2);
                        assert(encode_utf8(seq![c]) =~= encode_scalar(c as u32));
                        assert(tail@ =~= s@.skip(k + 1));
                        k = k + 1;
                    }
                    n += utf8_width(c);
                    rest = tail;
                } else {
                    done = true;
                }
            },
        }
    }
    let parts = cut_prefix(s, n, Ghost(k));
    proof {
        assert(s@ =~= s@.take(k) + s@.skip(k));
    }
    parts
}

/// Whether `a` and `b` are the same text.
pub(crate) fn same_text(a: &str, b: &str) -> (same: bool)
    ensures
        same == (a@ == b@),
{
    let x = a.as_bytes();
    let y = b.as_bytes();
    proof {
        encode_utf8_decode_utf8(a@);
        encode_utf8_decode_utf8(b@);
    }
    if x.len() != y.len() {
        return false;
    }
    let mut i: usize = 0;
    while i < x.len()
        invariant
            x@.len() == y@.len(),
            i <= x@.len(),
            forall|j: int| 0 <= j < i ==> x@[j] == y@[j],
            x@ == a.spec_bytes(),
            y@ == b.spec_bytes(),
        decreases x@.len() - i,
    {
        if x[i] != y[i] {
            return false;
        }
        i += 1;
    }
    proof {
        assert(x@ =~= y@);
    }
    true
}

/// Whether `c` is white space.
pub fn is_white_space_char(c: char) -> (white: bool)
    ensures
        white == is_white_space(c),
{
    let v = c as u32;
    (0x09 <= v && v <= 0x0D) || v == 0x20 || v == 0x85 || v == 0xA0 || v == 0x1680 || (0x2000 <= v
        && v <= 0x200A) || v == 0x2028 || v == 0x2029 || v == 0x202F || v == 0x205F || v == 0x3000
}

} // verus!
