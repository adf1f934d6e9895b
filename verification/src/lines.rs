//! Splitting a text into its lines.

use vstd::prelude::*;
use vstd::string::StringSliceAdditionalSpecFns;
use vstd::utf8::{
    char_is_scalar, encode_scalar, encode_utf8, encode_utf8_decode_utf8, encode_utf8_valid_utf8,
    is_char_boundary, is_char_boundary_iff_not_is_continuation_byte, pop_first_scalar, valid_utf8,
};

verus! {

/// The number of characters of `text` that stand before its first line feed,
/// or the length of `text` if it holds none.
pub open spec fn first_line_len(text: Seq<char>) -> nat
    decreases text.len(),
{
    if text.len() == 0 || text[0] == '\n' {
        0
    } else {
        1 + first_line_len(text.drop_first())
    }
}

/// The lines of `text`: the pieces between its line feeds, in order. A text
/// with `n` line feeds has `n + 1` lines, some of which may be empty.
pub open spec fn lines_of(text: Seq<char>) -> Seq<Seq<char>>
    decreases text.len(),
{
    let k = first_line_len(text) as int;
    if k < text.len() {
        seq![text.take(k)] + lines_of(text.skip(k + 1))
    } else {
        seq![text]
    }
}

/// The text whose lines are `lines`: the lines in order, with one line feed
/// between each two neighbours.
pub open spec fn join_lines(lines: Seq<Seq<char>>) -> Seq<char>
    decreases lines.len(),
{
    if lines.len() == 0 {
        Seq::empty()
    } else if lines.len() == 1 {
        lines[0]
    } else {
        lines[0] + seq!['\n'] + join_lines(lines.drop_first())
    }
}

/// The first line ends at the first line feed and holds none itself.
pub proof fn lemma_first_line(text: Seq<char>)
    ensures
        first_line_len(text) <= text.len(),
        first_line_len(text) < text.len() ==> text[first_line_len(text) as int] == '\n',
        forall|i: int| 0 <= i < first_line_len(text) ==> text[i] != '\n',
    decreases text.len(),
{
    if !(text.len() == 0 || text[0] == '\n') {
        lemma_first_line(text.drop_first());
        assert forall|i: int| 0 <= i < first_line_len(text) implies text[i] != '\n' by {
            if i > 0 {
                assert(text[i] == text.drop_first()[i - 1]);
            }
        }
    }
}

/// A text without a line feed is its own first line.
pub proof fn lemma_first_line_of_plain(text: Seq<char>)
    requires
        !text.contains('\n'),
    ensures
        first_line_len(text) == text.len(),
{
    lemma_first_line(text);
}

/// The first line of a line-feed-free text followed by a line feed and more
/// is that text.
pub proof fn lemma_first_line_of_concat(head: Seq<char>, tail: Seq<char>)
    requires
        !head.contains('\n'),
    ensures
        first_line_len(head + seq!['\n'] + tail) == head.len(),
    decreases head.len(),
{
    let text = head + seq!['\n'] + tail;
    if head.len() > 0 {
        lemma_first_line_of_concat(head.drop_first(), tail);
        assert(text.drop_first() =~= head.drop_first() + seq!['\n'] + tail);
    }
}

/// No line holds a line feed, and there is at least one line.
pub proof fn lemma_lines_are_plain(text: Seq<char>)
    ensures
        lines_of(text).len() >= 1,
        forall|k: int| 0 <= k < lines_of(text).len() ==> !(#[trigger] lines_of(text)[k]).contains('\n'),
    decreases text.len(),
{
    let k = first_line_len(text) as int;
    lemma_first_line(text);
    if k < text.len() {
        lemma_lines_are_plain(text.skip(k + 1));
    }
}

/// Joining the lines of a text gives the text back.
pub proof fn lemma_join_of_lines(text: Seq<char>)
    ensures
        join_lines(lines_of(text)) == text,
    decreases text.len(),
{
    let k = first_line_len(text) as int;
    lemma_first_line(text);
    if k < text.len() {
        let rest = text.skip(k + 1);
        lemma_join_of_lines(rest);
        lemma_lines_are_plain(rest);
        assert(lines_of(text).drop_first() =~= lines_of(rest));
    }
}

/// Splitting undoes joining: a non-empty sequence of line-feed-free lines is
/// the sequence of lines of its joined text.
pub proof fn lemma_lines_of_join(lines: Seq<Seq<char>>)
    requires
        lines.len() >= 1,
        forall|k: int| 0 <= k < lines.len() ==> !(#[trigger] lines[k]).contains('\n'),
    ensures
        lines_of(join_lines(lines)) == lines,
    decreases lines.len(),
{
    let text = join_lines(lines);
    if lines.len() == 1 {
        lemma_first_line_of_plain(lines[0]);
    } else {
        let rest = lines.drop_first();
        lemma_lines_of_join(rest);
        lemma_first_line_of_concat(lines[0], join_lines(rest));
        let k = lines[0].len() as int;
        assert(text.take(k) =~= lines[0]);
        assert(text.skip(k + 1) =~= join_lines(rest));
    }
}

/// A text has one line more than it has line feeds.
pub proof fn lemma_line_count(text: Seq<char>)
    ensures
        lines_of(text).len() == text.filter(|c: char| c == '\n').len() + 1,
    decreases text.len(),
{
    let is_feed = |c: char| c == '\n';
    let k = first_line_len(text) as int;
    lemma_first_line(text);
    lemma_no_line_feed_to_keep(text.take(k));
    if k < text.len() {
        let rest = text.skip(k + 1);
        lemma_line_count(rest);
        assert(text =~= text.take(k) + (seq!['\n'] + rest));
        Seq::filter_distributes_over_add(text.take(k), seq!['\n'] + rest, is_feed);
        Seq::filter_distributes_over_add(seq!['\n'], rest, is_feed);
        assert(seq!['\n'].filter(is_feed) =~= seq!['\n']) by {
            Seq::<char>::empty().lemma_filter_push('\n', is_feed);
            lemma_no_line_feed_to_keep(Seq::empty());
        }
    } else {
        assert(text.take(k) =~= text);
    }
}

/// Filtering a text without line feeds for line feeds leaves nothing.
proof fn lemma_no_line_feed_to_keep(text: Seq<char>)
    requires
        forall|i: int| 0 <= i < text.len() ==> text[i] != '\n',
    ensures
        text.filter(|c: char| c == '\n').len() == 0,
    decreases text.len(),
{
    reveal(Seq::filter);
    if text.len() > 0 {
        lemma_no_line_feed_to_keep(text.drop_last());
    }
}

/// Splits `content` at every line feed. Nothing else is removed or changed:
/// carriage returns, blanks and empty lines stay as they are.
pub fn split_lines(content: &String) -> (lines: Vec<String>)
    ensures
        lines.deep_view() == lines_of(content@),
        join_lines(lines.deep_view()) == content@,
        lines.len() == content@.filter(|c: char| c == '\n').len() + 1,
        forall|k: int| 0 <= k < lines.len() ==> !(#[trigger] lines.deep_view()[k]).contains('\n'),
{
    let mut lines: Vec<String> = Vec::new();
    let mut rest: &str = content.as_str();
    loop
        invariant_except_break
            lines.deep_view() + lines_of(rest@) == lines_of(content@),
        ensures
            lines.deep_view() == lines_of(content@),
        decreases rest@.len(),
    {
        let ghost text = rest@;
        let ghost p = first_line_len(text) as int;
        let bytes = rest.as_bytes();
        let k = find_line_feed(bytes);
        proof {
            lemma_first_line_feed_byte(text, k as int);
        }
        if k == bytes.len() {
            lines.push(rest.to_owned());
            break ;
        }
        proof {
            encode_utf8_valid_utf8(text);
            is_char_boundary_iff_not_is_continuation_byte(bytes@, k as int);
        }
        let (head, tail) = rest.split_at(k);
        proof {
            encode_utf8_valid_utf8(tail@);
            lemma_boundary_after_line_feed(tail.spec_bytes());
        }
        let (_, after) = tail.split_at(1);
        proof {
            assert(after.spec_bytes() =~= bytes@.skip(k + 1));
            lemma_same_encoding(head@, text.take(p));
            lemma_same_encoding(after@, text.skip(p + 1));
        }
        lines.push(head.to_owned());
        rest = after;
    }
    proof {
        lemma_join_of_lines(content@);
        lemma_line_count(content@);
        lemma_lines_are_plain(content@);
    }
    lines
}

/// Returns the index of the first line-feed byte of `bytes`, or the length of
/// `bytes` if there is none.
fn find_line_feed(bytes: &[u8]) -> (k: usize)
    ensures
        k <= bytes@.len(),
        forall|q: int| 0 <= q < k ==> #[trigger] bytes@[q] != 0x0Au8,
        k < bytes@.len() ==> bytes@[k as int] == 0x0Au8,
{
    let mut k: usize = 0;
    while k < bytes.len() && bytes[k] != 0x0Au8
        invariant
            k <= bytes@.len(),
            forall|q: int| 0 <= q < k ==> #[trigger] bytes@[q] != 0x0Au8,
        decreases bytes@.len() - k,
    {
        k += 1;
    }
    k
}

/// Texts with the same UTF-8 encoding are the same.
proof fn lemma_same_encoding(x: Seq<char>, y: Seq<char>)
    requires
        encode_utf8(x) == encode_utf8(y),
    ensures
        x == y,
{
    encode_utf8_decode_utf8(x);
    encode_utf8_decode_utf8(y);
}

/// In valid UTF-8 that starts with a line-feed byte, a character starts at
/// the second byte.
proof fn lemma_boundary_after_line_feed(bytes: Seq<u8>)
    requires
        valid_utf8(bytes),
        bytes.len() > 0,
        bytes[0] == 0x0Au8,
    ensures
        is_char_boundary(bytes, 1),
{
    reveal_with_fuel(is_char_boundary, 2);
}

/// No byte of the UTF-8 encoding of a character other than the line feed is
/// the line-feed byte, and the line feed is encoded as that byte alone.
proof fn lemma_line_feed_byte(c: char)
    ensures
        c == '\n' ==> encode_scalar(c as u32) == seq![0x0Au8],
        c != '\n' ==> forall|q: int| 0 <= q < encode_scalar(c as u32).len() ==> #[trigger] encode_scalar(c as u32)[q] != 0x0Au8,
        1 <= encode_scalar(c as u32).len() <= 4,
{
    let s = c as u32;
    char_is_scalar(c);
    assert((10u32 & 0x7F) as u8 == 10u8) by (bit_vector);
    assert(s <= 0x7F && s != 10 ==> (s & 0x7F) as u8 != 10u8) by (bit_vector);
    assert((0xC0u8 | ((s >> 6) & 0x1F) as u8) != 10u8) by (bit_vector);
    assert((0xE0u8 | ((s >> 12) & 0x0F) as u8) != 10u8) by (bit_vector);
    assert((0xF0u8 | ((s >> 18) & 0x7) as u8) != 10u8) by (bit_vector);
    assert((0x80u8 | (s & 0x3F) as u8) != 10u8) by (bit_vector);
    assert((0x80u8 | ((s >> 6) & 0x3F) as u8) != 10u8) by (bit_vector);
    assert((0x80u8 | ((s >> 12) & 0x3F) as u8) != 10u8) by (bit_vector);
}

/// The first line-feed byte of the UTF-8 encoding of a text stands where the
/// encoding of its first line ends, and the encoding of the rest of the text
/// follows it.
proof fn lemma_first_line_feed_byte(text: Seq<char>, k: int)
    requires
        0 <= k <= encode_utf8(text).len(),
        forall|q: int| 0 <= q < k ==> #[trigger] encode_utf8(text)[q] != 0x0Au8,
        k < encode_utf8(text).len() ==> encode_utf8(text)[k] == 0x0Au8,
    ensures
        k == encode_utf8(text).len() <==> first_line_len(text) == text.len(),
        first_line_len(text) <= text.len(),
        encode_utf8(text.take(first_line_len(text) as int)) == encode_utf8(text).take(k),
        first_line_len(text) < text.len() ==> encode_utf8(text.skip(first_line_len(text) as int + 1))
            == encode_utf8(text).skip(k + 1),
    decreases text.len(),
{
    let bytes = encode_utf8(text);
    let p = first_line_len(text) as int;
    if text.len() > 0 {
        let c = text[0];
        let rest = text.drop_first();
        lemma_line_feed_byte(c);
        if c == '\n' {
            assert(bytes[0] == 0x0Au8);
        } else {
            let w = encode_scalar(c as u32).len() as int;
            assert forall|q: int| 0 <= q < k - w implies #[trigger] encode_utf8(rest)[q] != 0x0Au8 by {
                assert(encode_utf8(rest)[q] == bytes[q + w]);
            }
            lemma_first_line_feed_byte(rest, k - w);
            let q = first_line_len(rest) as int;
            assert(text.take(p).drop_first() =~= rest.take(q));
            if p < text.len() {
                assert(text.skip(p + 1) =~= rest.skip(q + 1));
            }
        }
    }
}

} // verus!
