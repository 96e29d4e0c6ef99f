//! The lines of a byte stream: each ends with a line feed, which is not part
//! of it, nor is a carriage return just before that line feed; what follows the
//! last line feed is a line too, unless it is empty.
use crate::text::{index_of, lemma_index_of, lemma_index_of_is};
use vstd::prelude::*;
use vstd::slice::slice_subrange;
use vstd::string::StringSliceAdditionalSpecFns;
use vstd::utf8::{
    decode_utf8, decode_utf8_encode_utf8, encode_scalar, encode_utf8, encode_utf8_decode_utf8,
    encode_utf8_valid_utf8, has_width_1_encoding, valid_utf8,
};

verus! {

/// The error of `core::str::from_utf8`; nothing is read from it.
#[verifier::external_type_specification]
#[verifier::external_body]
pub struct ExUtf8Error(core::str::Utf8Error);

/// `core::str::from_utf8`: it succeeds on exactly the byte sequences that are
/// valid UTF-8, and the string it then returns has those bytes.
pub assume_specification[ core::str::from_utf8 ](v: &[u8]) -> (r: Result<
    &str,
    core::str::Utf8Error,
>)
    ensures
        r is Ok <==> valid_utf8(v@),
        r matches Ok(s) ==> s.spec_bytes() == v@,
;

/// The byte that ends a line.
pub open spec fn line_feed() -> u8 {
    0x0A
}

/// The byte that may stand before the line feed without belonging to the line.
pub open spec fn carriage_return() -> u8 {
    0x0D
}

/// `line` without a carriage return at its end.
pub open spec fn strip_carriage_return(line: Seq<u8>) -> Seq<u8> {
    if line.len() > 0 && line.last() == carriage_return() {
        line.drop_last()
    } else {
        line
    }
}

/// The lines of `data`.
pub open spec fn split_lines(data: Seq<u8>) -> Seq<Seq<u8>>
    decreases data.len(),
{
    if data.len() == 0 {
        Seq::empty()
    } else {
        let n = index_of(data, line_feed());
        if 0 <= n < data.len() {
            seq![strip_carriage_return(data.take(n))] + split_lines(data.skip(n + 1))
        } else {
            seq![data]
        }
    }
}

/// A line as text: its characters where the bytes are UTF-8, and nothing
/// where they are not.
pub open spec fn line_text(line: Seq<u8>) -> Seq<char> {
    if valid_utf8(line) {
        decode_utf8(line)
    } else {
        Seq::empty()
    }
}

/// The lines of `data` as text.
pub open spec fn text_lines(data: Seq<u8>) -> Seq<Seq<char>> {
    split_lines(data).map_values(|line: Seq<u8>| line_text(line))
}

/// Whether every line of `data` is UTF-8.
pub open spec fn is_text(data: Seq<u8>) -> bool {
    forall|i: int| 0 <= i < split_lines(data).len() ==> valid_utf8(#[trigger] split_lines(data)[i])
}

/// The text with each of `lines` followed by a line feed.
pub open spec fn join_lines(lines: Seq<Seq<char>>) -> Seq<char>
    decreases lines.len(),
{
    if lines.len() == 0 {
        Seq::empty()
    } else {
        join_lines(lines.drop_last()) + lines.last() + seq!['\n']
    }
}

/// Whether `line` can stand as a line of a text and be read back as it is: it
/// holds no line feed and does not end with a carriage return.
pub open spec fn is_line(line: Seq<char>) -> bool {
    &&& !line.contains('\n')
    &&& (line.len() > 0 ==> line.last() != '\r')
}

/// The UTF-8 bytes of a character below 128 are that one value; those of any
/// other character are all 128 or more.
pub proof fn lemma_encode_scalar(c: char)
    ensures
        c < 128 ==> encode_scalar(c as u32) == seq![c as u8],
        c >= 128 ==> forall|i: int|
            0 <= i < encode_scalar(c as u32).len() ==> #[trigger] encode_scalar(c as u32)[i] >= 128,
        encode_scalar(c as u32).len() >= 1,
{
    let s = c as u32;
    let e = encode_scalar(s);
    if has_width_1_encoding(s) {
        assert((s & 0x7F) as u8 == s as u8) by (bit_vector)
            requires
                s <= 0x7F,
        ;
        assert(e =~= seq![c as u8]);
    } else {
        assert((0xC0u8 | ((s >> 6) & 0x1F) as u8) >= 128) by (bit_vector);
        assert((0xE0u8 | ((s >> 12) & 0x0F) as u8) >= 128) by (bit_vector);
        assert((0xF0u8 | ((s >> 18) & 0x7) as u8) >= 128) by (bit_vector);
        assert((0x80u8 | (s & 0x3F) as u8) >= 128) by (bit_vector);
        assert((0x80u8 | ((s >> 6) & 0x3F) as u8) >= 128) by (bit_vector);
        assert((0x80u8 | ((s >> 12) & 0x3F) as u8) >= 128) by (bit_vector);
    }
}

/// A character below 128 is the byte of its value.
proof fn lemma_char_byte(c: char)
    ensures
        c as u32 == c as int,
        c < 128 ==> c as u8 == c as int,
{
}

/// The UTF-8 bytes of a text of one character are those of the character.
pub proof fn lemma_encode_single(c: char)
    ensures
        encode_utf8(seq![c]) == encode_scalar(c as u32),
{
    let s = seq![c];
    assert(s.len() == 1 && s[0] == c);
    assert(s.drop_first() =~= Seq::<char>::empty());
    assert(encode_utf8(s.drop_first()) =~= Seq::<u8>::empty());
    assert(encode_utf8(s) =~= encode_scalar(c as u32));
}

/// The UTF-8 bytes of two texts, one after the other, are those of the texts
/// put together.
pub proof fn lemma_encode_concat(a: Seq<char>, b: Seq<char>)
    ensures
        encode_utf8(a + b) == encode_utf8(a) + encode_utf8(b),
    decreases a.len(),
{
    if a.len() == 0 {
        assert(a + b =~= b);
        assert(encode_utf8(a) + encode_utf8(b) =~= encode_utf8(b));
    } else {
        lemma_encode_concat(a.drop_first(), b);
        assert((a + b).drop_first() =~= a.drop_first() + b);
        assert((a + b)[0] == a[0]);
        assert(encode_utf8(a + b) =~= encode_utf8(a) + encode_utf8(b));
    }
}

/// The UTF-8 bytes of a text hold a value below 128 exactly where the text
/// holds the character of that value, and end with it exactly where the text
/// ends with that character.
pub proof fn lemma_encode_ascii(s: Seq<char>, c: char)
    requires
        c < 128,
    ensures
        encode_utf8(s).contains(c as u8) <==> s.contains(c),
        encode_utf8(s).len() == 0 <==> s.len() == 0,
        s.len() > 0 ==> (encode_utf8(s).last() == c as u8 <==> s.last() == c),
    decreases s.len(),
{
    if s.len() > 0 {
        let head = s.drop_last();
        let last = s.last();
        lemma_encode_ascii(head, c);
        lemma_encode_scalar(last);
        assert(s =~= head + seq![last]);
        lemma_encode_concat(head, seq![last]);
        lemma_encode_single(last);
        let eh = encode_utf8(head);
        let el = encode_scalar(last as u32);
        let e = encode_utf8(s);
        assert(e == eh + el);
        assert(e.last() == el.last());
        if last < 128 {
            assert(el.last() == last as u8);
            lemma_char_byte(last);
            lemma_char_byte(c);
        }
        if e.contains(c as u8) {
            let i = choose|i: int| 0 <= i < e.len() && e[i] == c as u8;
            if i < eh.len() {
                assert(eh[i] == c as u8);
                assert(eh.contains(c as u8));
                let j = choose|j: int| 0 <= j < head.len() && head[j] == c;
                assert(s[j] == c);
            } else {
                assert(el[i - eh.len()] == c as u8);
                assert(s[s.len() - 1] == c);
            }
        }
        if s.contains(c) {
            let j = choose|j: int| 0 <= j < s.len() && s[j] == c;
            if j < head.len() {
                assert(head[j] == c);
                assert(head.contains(c));
                let i = choose|i: int| 0 <= i < eh.len() && eh[i] == c as u8;
                assert(e[i] == c as u8);
            } else {
                assert(e[eh.len() as int] == el[0]);
            }
        }
    }
}

/// The first of some lines, a line feed and the rest joined are the lines
/// joined.
pub proof fn lemma_join_lines_first(lines: Seq<Seq<char>>)
    requires
        lines.len() > 0,
    ensures
        join_lines(lines) == lines.first() + seq!['\n'] + join_lines(lines.drop_first()),
    decreases lines.len(),
{
    if lines.len() == 1 {
        assert(lines.drop_last() =~= Seq::<Seq<char>>::empty());
        assert(lines.drop_first() =~= Seq::<Seq<char>>::empty());
        assert(join_lines(lines) =~= lines.first() + seq!['\n'] + join_lines(lines.drop_first()));
    } else {
        let head = lines.drop_last();
        lemma_join_lines_first(head);
        assert(head.first() == lines.first());
        assert(head.drop_first() =~= lines.drop_first().drop_last());
        assert(lines.drop_first().last() == lines.last());
        assert(join_lines(lines) =~= lines.first() + seq!['\n'] + join_lines(lines.drop_first()));
    }
}

/// Lines joined, and then more lines joined, are all of them joined.
pub proof fn lemma_join_lines_concat(a: Seq<Seq<char>>, b: Seq<Seq<char>>)
    ensures
        join_lines(a + b) == join_lines(a) + join_lines(b),
    decreases b.len(),
{
    if b.len() == 0 {
        assert(a + b =~= a);
        assert(join_lines(a) + join_lines(b) =~= join_lines(a));
    } else {
        lemma_join_lines_concat(a, b.drop_last());
        assert((a + b).drop_last() =~= a + b.drop_last());
        assert((a + b).last() == b.last());
        assert(join_lines(a + b) =~= join_lines(a) + join_lines(b));
    }
}

/// `line` as it comes back when it is written out and read again: without a
/// carriage return at its end.
pub open spec fn without_return(line: Seq<char>) -> Seq<char> {
    if line.len() > 0 && line.last() == '\r' {
        line.drop_last()
    } else {
        line
    }
}

/// The bytes of a text without the carriage return at their end are the bytes
/// of the text without the carriage return at its end.
proof fn lemma_strip_encoded(line: Seq<char>)
    ensures
        strip_carriage_return(encode_utf8(line)) == encode_utf8(without_return(line)),
{
    lemma_encode_ascii(line, '\r');
    if line.len() > 0 && line.last() == '\r' {
        let head = line.drop_last();
        assert(line =~= head + seq!['\r']);
        lemma_encode_concat(head, seq!['\r']);
        lemma_encode_single('\r');
        lemma_encode_scalar('\r');
        assert(encode_utf8(line).drop_last() =~= encode_utf8(head));
    }
}

/// The bytes of joined lines fall back into those lines: of lines without
/// line feed, each comes back without the carriage return at its end.
pub proof fn lemma_lines_of_joined_text(lines: Seq<Seq<char>>)
    requires
        forall|i: int| 0 <= i < lines.len() ==> !(#[trigger] lines[i]).contains('\n'),
    ensures
        split_lines(encode_utf8(join_lines(lines))) == lines.map_values(
            |line: Seq<char>| encode_utf8(without_return(line)),
        ),
        is_text(encode_utf8(join_lines(lines))),
        text_lines(encode_utf8(join_lines(lines))) == lines.map_values(
            |line: Seq<char>| without_return(line),
        ),
    decreases lines.len(),
{
    let data = encode_utf8(join_lines(lines));
    let encoded = lines.map_values(|line: Seq<char>| encode_utf8(without_return(line)));
    if lines.len() == 0 {
        assert(split_lines(data) =~= encoded);
    } else {
        let first = lines.first();
        let rest = lines.drop_first();
        lemma_join_lines_first(lines);
        lemma_encode_concat(first + seq!['\n'], join_lines(rest));
        lemma_encode_concat(first, seq!['\n']);
        lemma_encode_scalar('\n');
        lemma_encode_single('\n');
        assert(encode_utf8(seq!['\n']) =~= seq![line_feed()]);
        let ef = encode_utf8(first);
        let er = encode_utf8(join_lines(rest));
        assert(data == ef + seq![line_feed()] + er);
        lemma_encode_ascii(first, '\n');
        assert forall|j: int| 0 <= j < ef.len() implies data[j] != line_feed() by {
            assert(data[j] == ef[j]);
            assert(ef.contains(ef[j]));
        }
        assert(data[ef.len() as int] == line_feed());
        lemma_index_of_is(data, line_feed(), ef.len() as int);
        assert(data.take(ef.len() as int) =~= ef);
        assert(data.skip(ef.len() as int + 1) =~= er);
        lemma_strip_encoded(first);
        assert forall|i: int| 0 <= i < rest.len() implies !(#[trigger] rest[i]).contains(
            '\n',
        ) by {
            assert(rest[i] == lines[i + 1]);
        }
        lemma_lines_of_joined_text(rest);
        assert(split_lines(data) =~= seq![encode_utf8(without_return(first))] + split_lines(er));
        assert(split_lines(data) =~= encoded);
    }
    assert forall|i: int| 0 <= i < split_lines(data).len() implies valid_utf8(
        #[trigger] split_lines(data)[i],
    ) by {
        encode_utf8_valid_utf8(without_return(lines[i]));
    }
    assert(text_lines(data) =~= lines.map_values(|line: Seq<char>| without_return(line))) by {
        assert forall|i: int| 0 <= i < lines.len() implies text_lines(data)[i] == without_return(
            lines[i],
        ) by {
            encode_utf8_valid_utf8(without_return(lines[i]));
            encode_utf8_decode_utf8(without_return(lines[i]));
        }
    }
}

/// The bytes of joined lines fall back into those lines: of lines that can
/// stand as lines, each comes back as it was.
pub proof fn lemma_lines_of_joined(lines: Seq<Seq<char>>)
    requires
        forall|i: int| 0 <= i < lines.len() ==> is_line(#[trigger] lines[i]),
    ensures
        split_lines(encode_utf8(join_lines(lines))) == lines.map_values(
            |line: Seq<char>| encode_utf8(line),
        ),
        is_text(encode_utf8(join_lines(lines))),
        text_lines(encode_utf8(join_lines(lines))) == lines,
{
    lemma_lines_of_joined_text(lines);
    let data = encode_utf8(join_lines(lines));
    assert(lines.map_values(|line: Seq<char>| encode_utf8(without_return(line)))
        =~= lines.map_values(|line: Seq<char>| encode_utf8(line)));
    assert(lines.map_values(|line: Seq<char>| without_return(line)) =~= lines);
}

/// No line of a byte stream holds a line feed.
pub proof fn lemma_split_lines_no_feed(data: Seq<u8>)
    ensures
        forall|i: int|
            0 <= i < split_lines(data).len() ==> !(#[trigger] split_lines(data)[i]).contains(
                line_feed(),
            ),
    decreases data.len(),
{
    if data.len() > 0 {
        let n = index_of(data, line_feed());
        lemma_index_of(data, line_feed());
        if 0 <= n < data.len() {
            let rest = data.skip(n + 1);
            lemma_split_lines_no_feed(rest);
            let first = strip_carriage_return(data.take(n));
            assert(!first.contains(line_feed())) by {
                if first.contains(line_feed()) {
                    let j = choose|j: int| 0 <= j < first.len() && first[j] == line_feed();
                    assert(data[j] == line_feed());
                }
            }
            assert forall|i: int| 0 <= i < split_lines(data).len() implies !(
            #[trigger] split_lines(data)[i]).contains(line_feed()) by {
                if i > 0 {
                    assert(split_lines(data)[i] == split_lines(rest)[i - 1]);
                }
            }
        } else {
            assert(!data.contains(line_feed()));
        }
    }
}

/// No line of a text holds a line feed.
pub proof fn lemma_text_lines_no_feed(data: Seq<u8>)
    ensures
        forall|i: int|
            0 <= i < text_lines(data).len() ==> !(#[trigger] text_lines(data)[i]).contains('\n'),
{
    lemma_split_lines_no_feed(data);
    assert forall|i: int| 0 <= i < text_lines(data).len() implies !(#[trigger] text_lines(
        data,
    )[i]).contains('\n') by {
        let bytes = split_lines(data)[i];
        let line = text_lines(data)[i];
        if valid_utf8(bytes) {
            decode_utf8_encode_utf8(bytes);
            lemma_encode_ascii(line, '\n');
        }
    }
}

/// The text of `line`, where its bytes are UTF-8.
pub fn read_text(line: &[u8]) -> (r: Option<&str>)
    ensures
        r is Some <==> valid_utf8(line@),
        r matches Some(s) ==> s@ == line_text(line@),
{
    match core::str::from_utf8(line) {
        Ok(s) => {
            proof {
                encode_utf8_decode_utf8(s@);
            }
            Some(s)
        },
        Err(_) => None,
    }
}

/// The first line of what `data` holds from `pos` on, and where the rest
/// begins.
pub fn next_line(data: &[u8], pos: usize) -> (r: (&[u8], usize))
    requires
        pos < data@.len(),
    ensures
        pos < r.1 <= data@.len(),
        split_lines(data@.skip(pos as int)) == seq![r.0@] + split_lines(data@.skip(r.1 as int)),
{
    let n = data.len();
    let ghost rest = data@.skip(pos as int);
    let mut i: usize = pos;
    while i < n && data[i] != 0x0A
        invariant
            pos <= i <= n,
            n == data@.len(),
            forall|j: int| pos <= j < i ==> data@[j] != line_feed(),
        decreases n - i,
    {
        i = i + 1;
    }
    proof {
        lemma_index_of_is(rest, line_feed(), i - pos);
    }
    if i == n {
        let line = slice_subrange(data, pos, n);
        proof {
            assert(line@ =~= rest);
            assert(data@.skip(n as int) =~= Seq::<u8>::empty());
            assert(split_lines(data@.skip(n as int)) =~= Seq::<Seq<u8>>::empty());
            assert(seq![line@] + Seq::<Seq<u8>>::empty() =~= seq![line@]);
        }
        (line, n)
    } else {
        let end = if i > pos && data[i - 1] == 0x0D {
            i - 1
        } else {
            i
        };
        let line = slice_subrange(data, pos, end);
        proof {
            let whole = rest.take(i - pos);
            assert(whole =~= data@.subrange(pos as int, i as int));
            assert(line@ =~= strip_carriage_return(whole));
            assert(rest.skip(i - pos + 1) =~= data@.skip(i + 1));
        }
        (line, i + 1)
    }
}

} // verus!
