use vstd::prelude::*;
use vstd::string::StringSliceAdditionalSpecFns;
use vstd::utf8::*;

verus! {

/// The maximum number of bytes of a physical line, without its line break (RFC 5545, 3.1).
pub const MAX_LINE_LEN: usize = 75;

// ---------------------------------------------------------------------------------------------
// Physical lines
// ---------------------------------------------------------------------------------------------

/// Index of the first line feed at or after `pos`, or the length of `data` if there is none.
pub open spec fn next_lf(data: Seq<u8>, pos: int) -> int
    decreases data.len() - pos,
{
    if pos < 0 || pos >= data.len() {
        data.len() as int
    } else if data[pos] == 10u8 {
        pos
    } else {
        next_lf(data, pos + 1)
    }
}

/// A physical line that ended with a line feed loses one carriage return before it.
pub open spec fn strip_line_end(raw: Seq<u8>, had_lf: bool) -> Seq<u8> {
    if had_lf && raw.len() > 0 && raw.last() == 13u8 {
        raw.drop_last()
    } else {
        raw
    }
}

pub proof fn lemma_next_lf_bounds(data: Seq<u8>, pos: int)
    requires
        0 <= pos <= data.len(),
    ensures
        pos <= next_lf(data, pos) <= data.len(),
        next_lf(data, pos) < data.len() ==> data[next_lf(data, pos)] == 10u8,
        forall|i: int| pos <= i < next_lf(data, pos) ==> data[i] != 10u8,
    decreases data.len() - pos,
{
    if pos < data.len() && data[pos] != 10u8 {
        lemma_next_lf_bounds(data, pos + 1);
    }
}

/// The physical lines of `data` from byte `pos` on: the pieces between line feeds, each without
/// its line ending. A final piece without a line feed counts as a line too.
pub open spec fn physical_lines_from(data: Seq<u8>, pos: int) -> Seq<Seq<u8>>
    decreases data.len() - pos,
{
    if pos < 0 || pos >= data.len() {
        seq![]
    } else {
        let end = next_lf(data, pos);
        proof {
            lemma_next_lf_bounds(data, pos);
        }
        seq![strip_line_end(data.subrange(pos, end), end < data.len())] + if end < data.len() {
            physical_lines_from(data, end + 1)
        } else {
            seq![]
        }
    }
}

/// The lines of `lines` that are not empty, in their order.
pub open spec fn nonempty_lines(lines: Seq<Seq<u8>>) -> Seq<Seq<u8>>
    decreases lines.len(),
{
    if lines.len() == 0 {
        seq![]
    } else if lines[0].len() == 0 {
        nonempty_lines(lines.drop_first())
    } else {
        seq![lines[0]] + nonempty_lines(lines.drop_first())
    }
}

// ---------------------------------------------------------------------------------------------
// Logical lines
// ---------------------------------------------------------------------------------------------

/// A physical line that starts with a space or a tab continues the previous one.
pub open spec fn is_continuation(line: Seq<u8>) -> bool {
    line.len() > 0 && (line[0] == 32u8 || line[0] == 9u8)
}

/// The number of continuation lines at the start of `lines`.
pub open spec fn continuation_count(lines: Seq<Seq<u8>>) -> nat
    decreases lines.len(),
{
    if lines.len() == 0 || !is_continuation(lines[0]) {
        0
    } else {
        1 + continuation_count(lines.drop_first())
    }
}

/// The continuation lines at the start of `lines`, joined without their leading whitespace.
pub open spec fn unfold_continuations(lines: Seq<Seq<u8>>) -> Seq<u8>
    decreases lines.len(),
{
    if lines.len() == 0 || !is_continuation(lines[0]) {
        seq![]
    } else {
        lines[0].drop_first() + unfold_continuations(lines.drop_first())
    }
}

/// The logical line that `lines` starts with: the first line and its continuations.
pub open spec fn first_logical(lines: Seq<Seq<u8>>) -> Seq<u8>
    recommends
        lines.len() > 0,
{
    lines[0] + unfold_continuations(lines.drop_first())
}

/// What is left of `lines` after its first logical line.
pub open spec fn after_first_logical(lines: Seq<Seq<u8>>) -> Seq<Seq<u8>>
    recommends
        lines.len() > 0,
{
    lines.subrange(1 + continuation_count(lines.drop_first()) as int, lines.len() as int)
}

pub proof fn lemma_continuation_count_bound(lines: Seq<Seq<u8>>)
    ensures
        continuation_count(lines) <= lines.len(),
    decreases lines.len(),
{
    if lines.len() > 0 && is_continuation(lines[0]) {
        lemma_continuation_count_bound(lines.drop_first());
    }
}

/// All logical lines of a sequence of non-empty physical lines.
pub open spec fn logical_lines(lines: Seq<Seq<u8>>) -> Seq<Seq<u8>>
    decreases lines.len(),
{
    if lines.len() == 0 {
        seq![]
    } else {
        proof {
            lemma_continuation_count_bound(lines.drop_first());
        }
        seq![first_logical(lines)] + logical_lines(after_first_logical(lines))
    }
}

/// The logical lines of non-empty physical lines are their first logical line, then the logical
/// lines of what follows it; there are none exactly where there are no physical lines.
pub proof fn lemma_logical_lines_first(lines: Seq<Seq<u8>>)
    ensures
        lines.len() > 0 <==> logical_lines(lines).len() > 0,
        lines.len() > 0 ==> logical_lines(lines)[0] == first_logical(lines) && logical_lines(
            lines,
        ).drop_first() == logical_lines(after_first_logical(lines)),
{
    if lines.len() > 0 {
        let rest = logical_lines(after_first_logical(lines));
        assert(logical_lines(lines) == seq![first_logical(lines)] + rest);
        assert((seq![first_logical(lines)] + rest).drop_first() =~= rest);
    }
}

/// The string that a logical line decodes to, if its bytes are valid UTF-8.
pub open spec fn decoded(bytes: Seq<u8>) -> Option<Seq<char>> {
    if valid_utf8(bytes) {
        Some(decode_utf8(bytes))
    } else {
        None
    }
}

// ---------------------------------------------------------------------------------------------
// Folding
// ---------------------------------------------------------------------------------------------

/// The largest index at or below `c` whose byte does not continue a UTF-8 sequence (0 if none).
pub open spec fn last_boundary(bytes: Seq<u8>, c: int) -> int
    decreases c,
{
    if c <= 0 {
        0
    } else if !is_continuation_byte(bytes[c]) {
        c
    } else {
        last_boundary(bytes, c - 1)
    }
}

pub proof fn lemma_last_boundary(bytes: Seq<u8>, c: int)
    ensures
        c >= 0 ==> 0 <= last_boundary(bytes, c) <= c,
        last_boundary(bytes, c) > 0 ==> !is_continuation_byte(bytes[last_boundary(bytes, c)]),
        forall|i: int|
            last_boundary(bytes, c) < i <= c ==> is_continuation_byte(#[trigger] bytes[i]),
    decreases c,
{
    if c > 0 && is_continuation_byte(bytes[c]) {
        lemma_last_boundary(bytes, c - 1);
    }
}

/// How many bytes of `bytes` go into a physical line that has room for `limit` bytes: all of
/// them if they fit, else as many whole characters as fit.
pub open spec fn chunk_len(bytes: Seq<u8>, limit: int) -> int {
    if bytes.len() <= limit {
        bytes.len() as int
    } else {
        let c = last_boundary(bytes, limit);
        if c == 0 {
            limit
        } else {
            c
        }
    }
}

pub proof fn lemma_chunk_len(bytes: Seq<u8>, limit: int)
    requires
        limit >= 1,
        bytes.len() > 0,
    ensures
        1 <= chunk_len(bytes, limit) <= bytes.len(),
        chunk_len(bytes, limit) <= limit,
{
    lemma_last_boundary(bytes, limit);
}

/// The room for content in a physical line: the first one has all 75 bytes, a continuation line
/// gives one to its leading space.
pub open spec fn line_room(first: bool) -> int {
    if first {
        75
    } else {
        74
    }
}

/// The content of the physical lines that a logical line is folded into, without the leading
/// space of continuation lines.
pub open spec fn fold_chunks(bytes: Seq<u8>, first: bool) -> Seq<Seq<u8>>
    decreases bytes.len(),
{
    if bytes.len() == 0 {
        seq![]
    } else {
        let n = chunk_len(bytes, line_room(first));
        proof {
            lemma_chunk_len(bytes, line_room(first));
        }
        seq![bytes.subrange(0, n)] + fold_chunks(bytes.subrange(n, bytes.len() as int), false)
    }
}

/// The bytes written for the rest `bytes` of a logical line: each chunk on a physical line of
/// its own ending in CRLF, all but the first line starting with a space.
pub open spec fn fold_rest(bytes: Seq<u8>, first: bool) -> Seq<u8>
    decreases bytes.len(),
{
    if bytes.len() == 0 {
        seq![]
    } else {
        let n = chunk_len(bytes, line_room(first));
        proof {
            lemma_chunk_len(bytes, line_room(first));
        }
        (if first {
            seq![]
        } else {
            seq![32u8]
        }) + bytes.subrange(0, n) + seq![13u8, 10u8] + fold_rest(
            bytes.subrange(n, bytes.len() as int),
            false,
        )
    }
}

/// The bytes written for a logical line with the given UTF-8 bytes.
pub open spec fn fold_line(bytes: Seq<u8>) -> Seq<u8> {
    fold_rest(bytes, true)
}

// ---------------------------------------------------------------------------------------------
// Reader
// ---------------------------------------------------------------------------------------------

/// The standard library's UTF-8 decoding: `Some` exactly for valid UTF-8, holding its characters.
#[verifier::external_body]
fn string_from_utf8(bytes: Vec<u8>) -> (r: Option<String>)
    ensures
        r is Some <==> valid_utf8(bytes@),
        r matches Some(s) ==> s@ == decode_utf8(bytes@),
{
    String::from_utf8(bytes).ok()
}

/// Reads lines according to RFC 5545.
///
/// Logical lines are split into potentially multiple physical lines, each at most 75 bytes long
/// according to RFC 5545. For that reason, this reader merges these physical lines together to
/// logical lines.
pub struct LineReader<'a> {
    data: &'a [u8],
    pos: usize,
    last: Option<Vec<u8>>,
    lines: usize,
}

/// Reads the physical line that starts at byte `pos`, and where the next one starts.
pub fn read_physical_line(data: &[u8], pos: usize) -> (r: Option<(Vec<u8>, usize)>)
    requires
        pos <= data@.len(),
    ensures
        r is None <==> pos == data@.len(),
        r matches Some((line, next)) ==> {
            &&& pos < next <= data@.len()
            &&& physical_lines_from(data@, pos as int) == seq![line@] + physical_lines_from(
                data@,
                next as int,
            )
        },
{
    if pos >= data.len() {
        return None;
    }
    proof {
        lemma_next_lf_bounds(data@, pos as int);
    }
    let mut buf: Vec<u8> = Vec::new();
    let mut i = pos;
    while i < data.len() && data[i] != 10u8
        invariant
            pos <= i <= data@.len(),
            buf@ == data@.subrange(pos as int, i as int),
            forall|j: int| pos <= j < i ==> data@[j] != 10u8,
            next_lf(data@, pos as int) >= i,
            next_lf(data@, pos as int) == next_lf(data@, i as int),
        decreases data@.len() - i,
    {
        buf.push(data[i]);
        proof {
            lemma_next_lf_bounds(data@, i as int + 1);
        }
        i = i + 1;
        proof {
            assert(buf@ =~= data@.subrange(pos as int, i as int));
        }
    }
    assert(next_lf(data@, pos as int) == i as int);
    let had_lf = i < data.len();
    if had_lf && buf.len() > 0 && buf[buf.len() - 1] == 13u8 {
        buf.pop();
    }
    let next = if had_lf {
        i + 1
    } else {
        i
    };
    proof {
        let raw = data@.subrange(pos as int, i as int);
        assert(buf@ == strip_line_end(raw, had_lf));
        assert(physical_lines_from(data@, pos as int) == seq![buf@] + physical_lines_from(
            data@,
            next as int,
        ));
    }
    Some((buf, next))
}

impl<'a> LineReader<'a> {
    /// Creates a new [`LineReader`] over the given bytes.
    pub fn new(data: &'a [u8]) -> (r: Self)
        ensures
            r.wf(),
            r.pending() == nonempty_lines(physical_lines_from(data@, 0)),
            r.lines_read() == 0,
    {
        Self { data, pos: 0, last: None, lines: 0 }
    }

    /// The reader's state is consistent.
    pub closed spec fn wf(&self) -> bool {
        &&& self.pos <= self.data@.len()
        &&& self.last matches Some(l) ==> l@.len() > 0
        &&& self.lines + (if self.last is Some {
            1int
        } else {
            0int
        }) <= self.pos
    }

    /// The non-empty physical lines that are still to be read.
    pub closed spec fn pending(&self) -> Seq<Seq<u8>> {
        let rest = nonempty_lines(physical_lines_from(self.data@, self.pos as int));
        match self.last {
            Some(l) => seq![l@] + rest,
            None => rest,
        }
    }

    /// The number of logical lines returned so far.
    pub closed spec fn lines_read(&self) -> nat {
        self.lines as nat
    }

    /// Returns the number of logical lines read so far, which is the line number of the last one.
    pub fn line_num(&self) -> (r: usize)
        ensures
            r == self.lines_read(),
    {
        self.lines
    }

    /// Reads the next non-empty physical line.
    fn next_nonempty(&mut self) -> (r: Option<Vec<u8>>)
        requires
            old(self).wf(),
            old(self).last is None,
        ensures
            final(self).wf(),
            final(self).last is None,
            final(self).lines == old(self).lines,
            final(self).data == old(self).data,
            final(self).pos >= old(self).pos,
            r is Some ==> final(self).pos > old(self).pos,
            match r {
                None => old(self).pending().len() == 0 && final(self).pending().len() == 0,
                Some(l) => old(self).pending() == seq![l@] + final(self).pending() && l@.len()
                    > 0,
            },
    {
        loop
            invariant
                self.wf(),
                self.last is None,
                self.lines == old(self).lines,
                self.data == old(self).data,
                self.pending() == old(self).pending(),
                self.pos >= old(self).pos,
            decreases self.data@.len() - self.pos,
        {
            let ghost phys = physical_lines_from(self.data@, self.pos as int);
            match read_physical_line(self.data, self.pos) {
                None => {
                    return None;
                },
                Some((line, next)) => {
                    self.pos = next;
                    proof {
                        let rest = physical_lines_from(self.data@, next as int);
                        assert(phys.drop_first() =~= rest);
                        assert(phys[0] == line@);
                    }
                    if line.len() > 0 {
                        return Some(line);
                    }
                },
            }
        }
    }

    /// Returns the next logical line, or `None` at the end of the input. A logical line whose
    /// bytes are not valid UTF-8 is consumed and yields `None` too.
    pub fn next(&mut self) -> (r: Option<String>)
        requires
            old(self).wf(),
        ensures
            final(self).wf(),
            old(self).pending().len() == 0 ==> r is None && final(self).pending().len() == 0
                && final(self).lines_read() == old(self).lines_read(),
            old(self).pending().len() > 0 ==> {
                &&& final(self).pending() == after_first_logical(old(self).pending())
                &&& final(self).lines_read() == old(self).lines_read() + 1
                &&& match r {
                    Some(s) => decoded(first_logical(old(self).pending())) == Some(s@),
                    None => decoded(first_logical(old(self).pending())) is None,
                }
            },
            old(self).pending().len() > 0 <==> logical_lines(old(self).pending()).len() > 0,
            old(self).pending().len() > 0 ==> {
                &&& logical_lines(final(self).pending()) == logical_lines(old(self).pending()).drop_first()
                &&& decoded(logical_lines(old(self).pending())[0]) == match r {
                    Some(s) => Some(s@),
                    None => None::<Seq<char>>,
                }
            },
    {
        let ghost all = self.pending();
        proof {
            lemma_logical_lines_first(all);
        }
        let mut next_line: Vec<u8> = match self.last.take() {
            Some(l) => l,
            None => match self.next_nonempty() {
                Some(l) => l,
                None => {
                    return None;
                },
            },
        };
        assert(all == seq![next_line@] + self.pending());
        self.lines = self.lines + 1;
        let ghost first = next_line@;
        let ghost mut used: int = 0;
        proof {
            assert(all.drop_first() =~= self.pending());
        }
        loop
            invariant_except_break
                self.wf(),
                self.last is None,
                self.data == old(self).data,
                self.lines == old(self).lines + 1,
                all.len() > 0,
                all[0] == first,
                0 <= used,
                used + self.pending().len() == all.len() - 1,
                self.pending() =~= all.subrange(1 + used, all.len() as int),
                forall|j: int| 1 <= j <= used ==> is_continuation(#[trigger] all[j]),
                next_line@ == first + unfold_continuations(all.subrange(1, 1 + used)),
            ensures
                self.wf(),
                self.data == old(self).data,
                self.lines == old(self).lines + 1,
                0 <= used,
                1 + used <= all.len(),
                forall|j: int| 1 <= j <= used ==> is_continuation(#[trigger] all[j]),
                1 + used == all.len() || !is_continuation(all[1 + used]),
                self.pending() =~= all.subrange(1 + used, all.len() as int),
                next_line@ == first + unfold_continuations(all.subrange(1, 1 + used)),
            decreases self.data@.len() - self.pos,
        {
            let ghost p0 = self.pending();
            match self.next_nonempty() {
                None => {
                    break;
                },
                Some(line) => {
                    assert(p0[0] == all[1 + used]);
                    assert(all[1 + used] == line@);
                    assert(self.pending() =~= p0.drop_first());
                    assert(self.pending() =~= all.subrange(2 + used, all.len() as int));
                    if line[0] == 32u8 || line[0] == 9u8 {
                        let ghost before = next_line@;
                        let mut k: usize = 1;
                        while k < line.len()
                            invariant
                                1 <= k <= line@.len(),
                                next_line@ == before + line@.subrange(1, k as int),
                            decreases line@.len() - k,
                        {
                            next_line.push(line[k]);
                            k = k + 1;
                            proof {
                                assert(next_line@ =~= before + line@.subrange(1, k as int));
                            }
                        }
                        proof {
                            lemma_unfold_extend(all.subrange(1, 1 + used), line@);
                            assert(all.subrange(1, 1 + used).push(line@) =~= all.subrange(
                                1,
                                2 + used,
                            ));
                            assert(line@.subrange(1, line@.len() as int) =~= line@.drop_first());
                            used = used + 1;
                        }
                    } else {
                        self.last = Some(line);
                        proof {
                            assert(self.pending() =~= all.subrange(1 + used, all.len() as int));
                        }
                        break;
                    }
                },
            }
        }
        proof {
            let rest = all.drop_first();
            lemma_count_and_unfold(rest, used);
            assert(all.subrange(1, 1 + used) =~= rest.subrange(0, used));
            assert(after_first_logical(all) =~= all.subrange(1 + used, all.len() as int));
            assert(next_line@ == first_logical(all));
        }
        string_from_utf8(next_line)
    }
}

/// Appending one more continuation line to a run of continuation lines.
proof fn lemma_unfold_extend(run: Seq<Seq<u8>>, line: Seq<u8>)
    requires
        forall|j: int| 0 <= j < run.len() ==> is_continuation(#[trigger] run[j]),
        is_continuation(line),
    ensures
        unfold_continuations(run.push(line)) == unfold_continuations(run) + line.drop_first(),
    decreases run.len(),
{
    if run.len() == 0 {
        assert(run.push(line).drop_first() =~= seq![]);
        assert(unfold_continuations(run.push(line).drop_first()) == Seq::<u8>::empty());
        assert(line.drop_first() + Seq::<u8>::empty() =~= line.drop_first());
    } else {
        assert(run.push(line).drop_first() =~= run.drop_first().push(line));
        lemma_unfold_extend(run.drop_first(), line);
        assert(run[0].drop_first() + (unfold_continuations(run.drop_first()) + line.drop_first())
            =~= (run[0].drop_first() + unfold_continuations(run.drop_first()))
            + line.drop_first());
    }
}

/// A run of `used` continuation lines, followed by the end or by a line that does not continue.
proof fn lemma_count_and_unfold(lines: Seq<Seq<u8>>, used: int)
    requires
        0 <= used <= lines.len(),
        forall|j: int| 0 <= j < used ==> is_continuation(#[trigger] lines[j]),
        used == lines.len() || !is_continuation(lines[used]),
    ensures
        continuation_count(lines) == used,
        unfold_continuations(lines) == unfold_continuations(lines.subrange(0, used)),
    decreases used,
{
    if used == 0 {
        assert(lines.subrange(0, 0) =~= seq![]);
    } else {
        let rest = lines.drop_first();
        assert forall|j: int| 0 <= j < used - 1 implies is_continuation(#[trigger] rest[j]) by {
            assert(rest[j] == lines[j + 1]);
        }
        if used - 1 < rest.len() {
            assert(rest[used - 1] == lines[used]);
        }
        lemma_count_and_unfold(rest, used - 1);
        assert(lines.subrange(0, used).drop_first() =~= rest.subrange(0, used - 1));
    }
}

// ---------------------------------------------------------------------------------------------
// Writer
// ---------------------------------------------------------------------------------------------

/// Writes lines according to RFC 5545.
///
/// Conversely to [`LineReader`], this writer splits the given logical lines into potentially
/// multiple physical lines, each at most 75 bytes long as required by RFC 5545. These physical
/// lines are appended to the writer's buffer.
pub struct LineWriter {
    writer: Vec<u8>,
}

impl LineWriter {
    /// Creates a new [`LineWriter`] that appends to the given buffer.
    pub fn new(writer: Vec<u8>) -> (r: Self)
        ensures
            r.written() == writer@,
    {
        Self { writer }
    }

    /// Everything in the writer's buffer.
    pub closed spec fn written(&self) -> Seq<u8> {
        self.writer@
    }

    /// Returns the buffer with everything written so far.
    pub fn into_inner(self) -> (r: Vec<u8>)
        ensures
            r@ == self.written(),
    {
        self.writer
    }

    /// Writes the given logical line as one or more physical lines.
    pub fn write_line(&mut self, line: &str)
        ensures
            final(self).written() == old(self).written() + fold_line(line.spec_bytes()),
    {
        let bytes = line.as_bytes();
        let len = bytes.len();
        let mut start: usize = 0;
        let mut first = true;
        assert(bytes@.subrange(0, len as int) =~= bytes@);
        while start < len
            invariant
                len == bytes@.len(),
                start <= len,
                start == 0 ==> first,
                old(self).writer@ + fold_line(bytes@) == self.writer@ + fold_rest(
                    bytes@.subrange(start as int, len as int),
                    first,
                ),
            decreases len - start,
        {
            let ghost rest = bytes@.subrange(start as int, len as int);
            let ghost before = self.writer@;
            let room: usize = if first {
                MAX_LINE_LEN
            } else {
                self.writer.push(32u8);
                MAX_LINE_LEN - 1
            };
            // the number of bytes of the rest that go into this physical line
            let n: usize = if len - start <= room {
                len - start
            } else {
                let mut c: usize = room;
                while c > 0 && 0x80u8 <= bytes[start + c] && bytes[start + c] <= 0xbfu8
                    invariant
                        c <= room,
                        start + room < len,
                        len == bytes@.len(),
                        rest == bytes@.subrange(start as int, len as int),
                        last_boundary(rest, room as int) == last_boundary(rest, c as int),
                    decreases c,
                {
                    assert(rest[c as int] == bytes@[start + c]);
                    c = c - 1;
                }
                proof {
                    if c > 0 {
                        assert(rest[c as int] == bytes@[start + c]);
                    }
                }
                if c == 0 {
                    room
                } else {
                    c
                }
            };
            assert(n == chunk_len(rest, line_room(first)));
            proof {
                lemma_chunk_len(rest, line_room(first));
            }
            let ghost mid = self.writer@;
            let mut k: usize = 0;
            while k < n
                invariant
                    k <= n,
                    start + n <= len,
                    len == bytes@.len(),
                    self.writer@ == mid + bytes@.subrange(start as int, start + k),
                decreases n - k,
            {
                self.writer.push(bytes[start + k]);
                k = k + 1;
                proof {
                    assert(self.writer@ =~= mid + bytes@.subrange(start as int, start + k));
                }
            }
            self.writer.push(13u8);
            self.writer.push(10u8);
            proof {
                assert(rest.subrange(0, n as int) =~= bytes@.subrange(
                    start as int,
                    start + n,
                ));
                assert(rest.subrange(n as int, rest.len() as int) =~= bytes@.subrange(
                    start + n,
                    len as int,
                ));
                let prefix = if first {
                    Seq::<u8>::empty()
                } else {
                    seq![32u8]
                };
                assert(mid == before + prefix);
                assert(self.writer@ =~= before + prefix + rest.subrange(0, n as int) + seq![
                    13u8,
                    10u8,
                ]);
                assert(fold_rest(rest, first) == prefix + rest.subrange(0, n as int) + seq![
                    13u8,
                    10u8,
                ] + fold_rest(rest.subrange(n as int, rest.len() as int), false));
                assert(before + fold_rest(rest, first) =~= self.writer@ + fold_rest(
                    rest.subrange(n as int, rest.len() as int),
                    false,
                ));
            }
            start = start + n;
            first = false;
        }
        proof {
            assert(bytes@.subrange(len as int, len as int) =~= Seq::<u8>::empty());
            assert(self.writer@ =~= old(self).writer@ + fold_line(bytes@));
        }
    }
}

} // verus!
