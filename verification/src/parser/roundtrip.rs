//! What a [`LineReader`](super::LineReader) gives back of what a
//! [`LineWriter`](super::LineWriter) wrote.

use vstd::prelude::*;
use vstd::utf8::*;

use super::line::{
    after_first_logical, chunk_len, continuation_count, first_logical, fold_line, fold_rest,
    is_continuation, lemma_chunk_len, lemma_next_lf_bounds, line_room, logical_lines, next_lf,
    nonempty_lines, physical_lines_from, strip_line_end, unfold_continuations, decoded,
};

verus! {

/// The physical lines, without line breaks, that the rest `bytes` of a logical line is folded
/// into; all but the first carry a leading space.
pub open spec fn folded_lines(bytes: Seq<u8>, first: bool) -> Seq<Seq<u8>>
    decreases bytes.len(),
{
    if bytes.len() == 0 {
        seq![]
    } else {
        let n = chunk_len(bytes, line_room(first));
        proof {
            lemma_chunk_len(bytes, line_room(first));
        }
        seq![
            (if first {
                seq![]
            } else {
                seq![32u8]
            }) + bytes.subrange(0, n),
        ] + folded_lines(bytes.subrange(n, bytes.len() as int), false)
    }
}

/// Physical lines, each followed by CRLF.
pub open spec fn join_crlf(lines: Seq<Seq<u8>>) -> Seq<u8>
    decreases lines.len(),
{
    if lines.len() == 0 {
        seq![]
    } else {
        lines[0] + seq![13u8, 10u8] + join_crlf(lines.drop_first())
    }
}

/// The physical lines of a sequence of logical lines.
pub open spec fn folded_all(lines: Seq<Seq<u8>>) -> Seq<Seq<u8>>
    decreases lines.len(),
{
    if lines.len() == 0 {
        seq![]
    } else {
        folded_lines(lines[0], true) + folded_all(lines.drop_first())
    }
}

/// The bytes that writing each of the logical lines in turn produces.
pub open spec fn written_all(lines: Seq<Seq<u8>>) -> Seq<u8>
    decreases lines.len(),
{
    if lines.len() == 0 {
        seq![]
    } else {
        fold_line(lines[0]) + written_all(lines.drop_first())
    }
}

/// A logical line that the folding and unfolding of RFC 5545 carry unchanged: not empty and
/// without line feed; unless it is the first one, it must not start with a space or a tab either.
pub open spec fn writable_line(line: Seq<u8>, first: bool) -> bool {
    &&& line.len() > 0
    &&& forall|i: int| 0 <= i < line.len() ==> line[i] != 10u8
    &&& !first ==> !is_continuation(line)
}

proof fn lemma_fold_rest_joins(bytes: Seq<u8>, first: bool)
    ensures
        fold_rest(bytes, first) == join_crlf(folded_lines(bytes, first)),
    decreases bytes.len(),
{
    if bytes.len() > 0 {
        let n = chunk_len(bytes, line_room(first));
        lemma_chunk_len(bytes, line_room(first));
        let rest = bytes.subrange(n, bytes.len() as int);
        lemma_fold_rest_joins(rest, false);
        let fl = folded_lines(bytes, first);
        assert(fl.drop_first() =~= folded_lines(rest, false));
        let prefix = if first {
            Seq::<u8>::empty()
        } else {
            seq![32u8]
        };
        assert(fold_rest(bytes, first) =~= fl[0] + seq![13u8, 10u8] + join_crlf(fl.drop_first()));
    }
}

proof fn lemma_join_crlf_append(a: Seq<Seq<u8>>, b: Seq<Seq<u8>>)
    ensures
        join_crlf(a + b) == join_crlf(a) + join_crlf(b),
    decreases a.len(),
{
    if a.len() == 0 {
        assert(a + b =~= b);
    } else {
        assert((a + b).drop_first() =~= a.drop_first() + b);
        lemma_join_crlf_append(a.drop_first(), b);
        assert(join_crlf(a + b) =~= join_crlf(a) + join_crlf(b));
    }
}

proof fn lemma_written_all(lines: Seq<Seq<u8>>)
    ensures
        written_all(lines) == join_crlf(folded_all(lines)),
    decreases lines.len(),
{
    if lines.len() > 0 {
        lemma_written_all(lines.drop_first());
        lemma_fold_rest_joins(lines[0], true);
        lemma_join_crlf_append(folded_lines(lines[0], true), folded_all(lines.drop_first()));
    }
}

/// Every folded physical line is non-empty and holds a line feed only where its logical line does.
proof fn lemma_folded_lines_shape(bytes: Seq<u8>, first: bool)
    requires
        forall|i: int| 0 <= i < bytes.len() ==> bytes[i] != 10u8,
    ensures
        forall|j: int|
            0 <= j < folded_lines(bytes, first).len() ==> (#[trigger] folded_lines(bytes, first)[j]).len()
                > 0,
        forall|j: int, i: int|
            0 <= j < folded_lines(bytes, first).len() && 0 <= i < folded_lines(
                bytes,
                first,
            )[j].len() ==> #[trigger] folded_lines(bytes, first)[j][i] != 10u8,
    decreases bytes.len(),
{
    if bytes.len() > 0 {
        let n = chunk_len(bytes, line_room(first));
        lemma_chunk_len(bytes, line_room(first));
        let rest = bytes.subrange(n, bytes.len() as int);
        lemma_folded_lines_shape(rest, false);
        let fl = folded_lines(bytes, first);
        assert forall|j: int, i: int| 0 <= j < fl.len() && 0 <= i < fl[j].len() implies #[trigger] fl[j][i]
            != 10u8 by {
            if j > 0 {
                assert(fl[j] == folded_lines(rest, false)[j - 1]);
            } else {
                if !first && i == 0 {
                } else {
                    let k = if first {
                        i
                    } else {
                        i - 1
                    };
                    assert(fl[0][i] == bytes[k]);
                }
            }
        }
        assert forall|j: int| 0 <= j < fl.len() implies (#[trigger] fl[j]).len() > 0 by {
            if j > 0 {
                assert(fl[j] == folded_lines(rest, false)[j - 1]);
            }
        }
    }
}

proof fn lemma_folded_all_shape(lines: Seq<Seq<u8>>)
    requires
        forall|k: int| 0 <= k < lines.len() ==> writable_line(#[trigger] lines[k], k == 0),
    ensures
        forall|j: int| 0 <= j < folded_all(lines).len() ==> (#[trigger] folded_all(lines)[j]).len() > 0,
        forall|j: int, i: int|
            0 <= j < folded_all(lines).len() && 0 <= i < folded_all(lines)[j].len()
                ==> #[trigger] folded_all(lines)[j][i] != 10u8,
    decreases lines.len(),
{
    if lines.len() > 0 {
        let rest = lines.drop_first();
        assert forall|k: int| 0 <= k < rest.len() implies writable_line(#[trigger] rest[k], k == 0) by {
            assert(rest[k] == lines[k + 1]);
            assert(writable_line(lines[k + 1], false));
        }
        assert(writable_line(lines[0], true));
        lemma_folded_all_shape(rest);
        lemma_folded_lines_shape(lines[0], true);
        let a = folded_lines(lines[0], true);
        let b = folded_all(rest);
        assert forall|j: int| 0 <= j < (a + b).len() implies (#[trigger] (a + b)[j]).len() > 0 by {
            if j >= a.len() {
                assert((a + b)[j] == b[j - a.len()]);
            }
        }
        assert forall|j: int, i: int|
            0 <= j < (a + b).len() && 0 <= i < (a + b)[j].len() implies #[trigger] (a + b)[j][i]
            != 10u8 by {
            if j >= a.len() {
                assert((a + b)[j] == b[j - a.len()]);
            }
        }
    }
}

// ---------------------------------------------------------------------------------------------
// Splitting written bytes into physical lines
// ---------------------------------------------------------------------------------------------

proof fn lemma_next_lf_shift(a: Seq<u8>, b: Seq<u8>, k: int)
    requires
        0 <= k <= b.len(),
    ensures
        next_lf(a + b, a.len() + k) == a.len() + next_lf(b, k),
    decreases b.len() - k,
{
    if k < b.len() {
        assert((a + b)[a.len() + k] == b[k]);
        if b[k] != 10u8 {
            lemma_next_lf_shift(a, b, k + 1);
        }
    }
}

proof fn lemma_physical_shift(a: Seq<u8>, b: Seq<u8>, k: int)
    requires
        0 <= k <= b.len(),
    ensures
        physical_lines_from(a + b, a.len() + k) == physical_lines_from(b, k),
    decreases b.len() - k,
{
    if k < b.len() {
        lemma_next_lf_shift(a, b, k);
        lemma_next_lf_bounds(b, k);
        let e = next_lf(b, k);
        assert((a + b).subrange(a.len() + k, a.len() + e) =~= b.subrange(k, e));
        if e < b.len() {
            lemma_physical_shift(a, b, e + 1);
        }
    }
}

proof fn lemma_physical_of_joined(lines: Seq<Seq<u8>>)
    requires
        forall|j: int, i: int|
            0 <= j < lines.len() && 0 <= i < lines[j].len() ==> #[trigger] lines[j][i] != 10u8,
    ensures
        physical_lines_from(join_crlf(lines), 0) == lines,
    decreases lines.len(),
{
    if lines.len() == 0 {
    } else {
        let l = lines[0];
        let head = l + seq![13u8, 10u8];
        let tail = join_crlf(lines.drop_first());
        let data = join_crlf(lines);
        assert(data =~= head + tail);
        assert forall|j: int, i: int|
            0 <= j < lines.drop_first().len() && 0 <= i < lines.drop_first()[j].len()
                implies #[trigger] lines.drop_first()[j][i] != 10u8 by {
            assert(lines.drop_first()[j] == lines[j + 1]);
        }
        lemma_physical_of_joined(lines.drop_first());
        // the first line feed is the one after the first line
        assert forall|i: int| 0 <= i < l.len() + 1 implies data[i] != 10u8 by {
            if i < l.len() {
                assert(lines[0][i] != 10u8);
            } else {
                assert(data[i] == 13u8);
            }
        }
        lemma_next_lf_upto(data, 0, l.len() + 1int);
        assert(data[l.len() + 1int] == 10u8);
        assert(data[l.len() as int] == 13u8);
        let raw = data.subrange(0, l.len() + 1int);
        assert(raw.drop_last() =~= l);
        assert(strip_line_end(raw, true) == l);
        lemma_physical_shift(head, tail, 0);
        assert(head.len() == l.len() + 2);
        assert(physical_lines_from(data, 0) =~= seq![l] + physical_lines_from(tail, 0));
    }
}

proof fn lemma_next_lf_upto(data: Seq<u8>, pos: int, e: int)
    requires
        0 <= pos <= e < data.len(),
        data[e] == 10u8,
        forall|i: int| pos <= i < e ==> data[i] != 10u8,
    ensures
        next_lf(data, pos) == e,
    decreases e - pos,
{
    if pos < e {
        lemma_next_lf_upto(data, pos + 1, e);
    }
}

proof fn lemma_nonempty_id(lines: Seq<Seq<u8>>)
    requires
        forall|j: int| 0 <= j < lines.len() ==> (#[trigger] lines[j]).len() > 0,
    ensures
        nonempty_lines(lines) == lines,
    decreases lines.len(),
{
    if lines.len() > 0 {
        assert forall|j: int| 0 <= j < lines.drop_first().len() implies (
        #[trigger] lines.drop_first()[j]).len() > 0 by {
            assert(lines.drop_first()[j] == lines[j + 1]);
        }
        lemma_nonempty_id(lines.drop_first());
        assert(seq![lines[0]] + lines.drop_first() =~= lines);
    }
}

// ---------------------------------------------------------------------------------------------
// Unfolding physical lines into logical lines
// ---------------------------------------------------------------------------------------------

proof fn lemma_fold_chunks_concat(bytes: Seq<u8>, rest: Seq<Seq<u8>>)
    requires
        rest.len() == 0 || !is_continuation(rest[0]),
    ensures
        unfold_continuations(folded_lines(bytes, false) + rest) == bytes,
        continuation_count(folded_lines(bytes, false) + rest) == folded_lines(bytes, false).len(),
    decreases bytes.len(),
{
    let fl = folded_lines(bytes, false);
    if bytes.len() == 0 {
        assert(fl + rest =~= rest);
    } else {
        let n = chunk_len(bytes, line_room(false));
        lemma_chunk_len(bytes, line_room(false));
        let tail = bytes.subrange(n, bytes.len() as int);
        lemma_fold_chunks_concat(tail, rest);
        let s = fl + rest;
        assert(s[0] == seq![32u8] + bytes.subrange(0, n));
        assert(is_continuation(s[0]));
        assert(s.drop_first() =~= folded_lines(tail, false) + rest);
        assert(s[0].drop_first() =~= bytes.subrange(0, n));
        assert(bytes.subrange(0, n) + tail =~= bytes);
    }
}

proof fn lemma_first_logical_of_folded(bytes: Seq<u8>, rest: Seq<Seq<u8>>)
    requires
        bytes.len() > 0,
        rest.len() == 0 || !is_continuation(rest[0]),
    ensures
        first_logical(folded_lines(bytes, true) + rest) == bytes,
        after_first_logical(folded_lines(bytes, true) + rest) == rest,
{
    let n = chunk_len(bytes, line_room(true));
    lemma_chunk_len(bytes, line_room(true));
    let tail = bytes.subrange(n, bytes.len() as int);
    let s = folded_lines(bytes, true) + rest;
    lemma_fold_chunks_concat(tail, rest);
    assert(s[0] =~= bytes.subrange(0, n));
    assert(s.drop_first() =~= folded_lines(tail, false) + rest);
    assert(bytes.subrange(0, n) + tail =~= bytes);
    assert(s.subrange(1 + folded_lines(tail, false).len() as int, s.len() as int) =~= rest);
}

proof fn lemma_logical_of_folded_all(lines: Seq<Seq<u8>>)
    requires
        forall|k: int| 0 <= k < lines.len() ==> writable_line(#[trigger] lines[k], k == 0),
    ensures
        logical_lines(folded_all(lines)) == lines,
    decreases lines.len(),
{
    if lines.len() > 0 {
        let rest = lines.drop_first();
        assert forall|k: int| 0 <= k < rest.len() implies writable_line(#[trigger] rest[k], k == 0) by {
            assert(rest[k] == lines[k + 1]);
            assert(writable_line(lines[k + 1], false));
        }
        lemma_logical_of_folded_all(rest);
        let fr = folded_all(rest);
        if rest.len() > 0 {
            assert(writable_line(lines[1], false));
            let l1 = rest[0];
            lemma_chunk_len(l1, line_room(true));
            let n1 = chunk_len(l1, line_room(true));
            assert(folded_lines(l1, true)[0] =~= l1.subrange(0, n1));
            assert(fr[0] == folded_lines(l1, true)[0]);
            assert(fr[0][0] == l1[0]);
        }
        assert(writable_line(lines[0], true));
        lemma_first_logical_of_folded(lines[0], fr);
        assert(folded_all(lines) == folded_lines(lines[0], true) + fr);
        assert(seq![lines[0]] + rest =~= lines);
    }
}

/// Reading back what was written: the non-empty physical lines of the bytes that the writer
/// produces for `lines`, unfolded into logical lines, are `lines` again, provided that each is
/// non-empty, has no line feed, and (after the first) does not start with a space or a tab.
pub proof fn lemma_read_back_written(lines: Seq<Seq<u8>>)
    requires
        forall|k: int| 0 <= k < lines.len() ==> writable_line(#[trigger] lines[k], k == 0),
    ensures
        logical_lines(nonempty_lines(physical_lines_from(written_all(lines), 0))) == lines,
{
    lemma_written_all(lines);
    lemma_folded_all_shape(lines);
    lemma_physical_of_joined(folded_all(lines));
    lemma_nonempty_id(folded_all(lines));
    lemma_logical_of_folded_all(lines);
}

// ---------------------------------------------------------------------------------------------
// Text lines
// ---------------------------------------------------------------------------------------------

proof fn lemma_high_bytes(y: u8)
    by (bit_vector)
    ensures
        (0xC0u8 | y) >= 0x80u8,
        (0xE0u8 | y) >= 0x80u8,
        (0xF0u8 | y) >= 0x80u8,
        (0x80u8 | y) >= 0x80u8,
{
}

proof fn lemma_low_byte(v: u32)
    by (bit_vector)
    requires
        v <= 0x7f,
    ensures
        ((v & 0x7f) as u8) as u32 == v,
{
}

/// The bytes of a scalar's encoding: a single byte below 0x80 is the scalar itself, all others
/// are at least 0x80.
proof fn lemma_encode_scalar_bytes(v: u32)
    requires
        is_scalar(v),
    ensures
        encode_scalar(v).len() > 0,
        has_width_1_encoding(v) ==> encode_scalar(v).len() == 1 && encode_scalar(v)[0] as u32 == v,
        !has_width_1_encoding(v) ==> forall|i: int|
            0 <= i < encode_scalar(v).len() ==> #[trigger] encode_scalar(v)[i] >= 0x80u8,
{
    if has_width_1_encoding(v) {
        lemma_low_byte(v);
    } else {
        lemma_high_bytes(((v >> 6) & 0x1F) as u8);
        lemma_high_bytes(((v >> 12) & 0x0F) as u8);
        lemma_high_bytes(((v >> 18) & 0x7) as u8);
        lemma_high_bytes((v & 0x3F) as u8);
        lemma_high_bytes(((v >> 6) & 0x3F) as u8);
        lemma_high_bytes(((v >> 12) & 0x3F) as u8);
    }
}

proof fn lemma_encode_no_lf(chars: Seq<char>)
    requires
        forall|k: int| 0 <= k < chars.len() ==> chars[k] != '\n',
    ensures
        forall|i: int| 0 <= i < encode_utf8(chars).len() ==> encode_utf8(chars)[i] != 10u8,
    decreases chars.len(),
{
    if chars.len() > 0 {
        let rest = chars.drop_first();
        assert forall|k: int| 0 <= k < rest.len() implies rest[k] != '\n' by {
            assert(rest[k] == chars[k + 1]);
        }
        lemma_encode_no_lf(rest);
        let v = chars[0] as u32;
        char_is_scalar(chars[0]);
        lemma_encode_scalar_bytes(v);
        let e = encode_utf8(chars);
        let h = encode_scalar(v);
        assert(e == h + encode_utf8(rest));
        assert forall|i: int| 0 <= i < e.len() implies e[i] != 10u8 by {
            if i >= h.len() {
                assert(e[i] == encode_utf8(rest)[i - h.len()]);
            } else if has_width_1_encoding(v) {
                assert(e[i] == h[0]);
                if e[i] == 10u8 {
                    char_u32_cast(chars[0], v);
                    assert(v == 10);
                    assert((10u32 as char) == '\n');
                }
            } else {
                assert(h[i] >= 0x80u8);
            }
        }
    }
}

/// A text line that the folding and unfolding of RFC 5545 carry unchanged: not empty, without
/// line feed, and, unless it is the first one, not starting with a space or a tab.
pub open spec fn writable_text(line: Seq<char>, first: bool) -> bool {
    &&& line.len() > 0
    &&& forall|i: int| 0 <= i < line.len() ==> line[i] != '\n'
    &&& !first ==> line[0] != ' ' && line[0] != '\t'
}

proof fn lemma_writable_text(line: Seq<char>, first: bool)
    requires
        writable_text(line, first),
    ensures
        writable_line(encode_utf8(line), first),
        decoded(encode_utf8(line)) == Some(line),
{
    lemma_encode_no_lf(line);
    let v = line[0] as u32;
    char_is_scalar(line[0]);
    lemma_encode_scalar_bytes(v);
    let e = encode_utf8(line);
    assert(e == encode_scalar(v) + encode_utf8(line.drop_first()));
    assert(e[0] == encode_scalar(v)[0]);
    encode_utf8_valid_utf8(line);
    encode_utf8_decode_utf8(line);
}

/// Reading back written text: for text lines that are not empty, hold no line feed and (after
/// the first) do not start with a space or a tab, the reader returns exactly the lines that the
/// writer was given, each decoded from its own logical line.
pub proof fn lemma_read_back_written_text(lines: Seq<Seq<char>>)
    requires
        forall|k: int| 0 <= k < lines.len() ==> writable_text(#[trigger] lines[k], k == 0),
    ensures
        logical_lines(
            nonempty_lines(
                physical_lines_from(written_all(lines.map_values(|l: Seq<char>| encode_utf8(l))), 0),
            ),
        ) == lines.map_values(|l: Seq<char>| encode_utf8(l)),
        forall|k: int|
            0 <= k < lines.len() ==> decoded(encode_utf8(#[trigger] lines[k])) == Some(lines[k]),
{
    let bytes = lines.map_values(|l: Seq<char>| encode_utf8(l));
    assert forall|k: int| 0 <= k < bytes.len() implies writable_line(#[trigger] bytes[k], k == 0) by {
        lemma_writable_text(lines[k], k == 0);
    }
    assert forall|k: int| 0 <= k < lines.len() implies decoded(encode_utf8(#[trigger] lines[k]))
        == Some(lines[k]) by {
        lemma_writable_text(lines[k], k == 0);
    }
    lemma_read_back_written(bytes);
}

} // verus!
