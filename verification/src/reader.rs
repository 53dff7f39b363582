use vstd::prelude::*;

verus! {

/// Line feed.
pub const LF: u8 = 0x0a;

/// Carriage return.
pub const CR: u8 = 0x0d;

/// The stretches of `data` between line feeds, in order; there is always one
/// more piece than there are line feeds, and the last piece is what follows
/// the last line feed (empty when `data` ends with one).
pub open spec fn pieces(data: Seq<u8>) -> Seq<Seq<u8>>
    decreases data.len(),
{
    if data.len() == 0 {
        seq![Seq::<u8>::empty()]
    } else {
        let p = pieces(data.drop_last());
        if data.last() == LF {
            p.push(Seq::<u8>::empty())
        } else {
            p.update(p.len() - 1, p.last().push(data.last()))
        }
    }
}

/// A line without its trailing carriage return, if it has one.
pub open spec fn strip_cr(line: Seq<u8>) -> Seq<u8> {
    if line.len() > 0 && line.last() == CR {
        line.drop_last()
    } else {
        line
    }
}

/// The pieces that are lines: an empty stretch after the final line feed is
/// no line.
pub open spec fn line_pieces(data: Seq<u8>) -> Seq<Seq<u8>> {
    let p = pieces(data);
    if p.last().len() == 0 {
        p.drop_last()
    } else {
        p
    }
}

/// The lines of `data`: split at line feeds, each without its line feed and
/// without a trailing carriage return; a terminating line feed does not
/// start an extra empty line.
pub open spec fn spec_split_lines(data: Seq<u8>) -> Seq<Seq<u8>> {
    line_pieces(data).map_values(|l: Seq<u8>| strip_cr(l))
}

/// The last `n` elements of `s` (all of `s` when it has at most `n`).
pub open spec fn last_n<A>(s: Seq<A>, n: nat) -> Seq<A> {
    if s.len() <= n {
        s
    } else {
        s.subrange(s.len() - n, s.len() as int)
    }
}

pub proof fn lemma_pieces_nonempty(data: Seq<u8>)
    ensures
        pieces(data).len() >= 1,
    decreases data.len(),
{
    if data.len() > 0 {
        lemma_pieces_nonempty(data.drop_last());
    }
}

/// Copy `data[start..end]` without a trailing carriage return.
fn copy_line(data: &[u8], start: usize, end: usize) -> (r: Vec<u8>)
    requires
        start <= end <= data@.len(),
    ensures
        r@ == strip_cr(data@.subrange(start as int, end as int)),
{
    let mut stop = end;
    if end > start && data[end - 1] == CR {
        stop = end - 1;
    }
    let mut r: Vec<u8> = Vec::new();
    let mut k = start;
    while k < stop
        invariant
            start <= k <= stop <= end <= data@.len(),
            r@ == data@.subrange(start as int, k as int),
        decreases stop - k,
    {
        r.push(data[k]);
        assert(data@.subrange(start as int, k + 1) =~= data@.subrange(start as int, k as int).push(data@[k as int]));
        k = k + 1;
    }
    assert(r@ =~= strip_cr(data@.subrange(start as int, end as int)));
    r
}

/// Split a byte slice into lines at `\n` boundaries, stripping trailing `\r`
/// and not including the newline character in the result.
///
/// A file ending with a terminating newline does not produce an extra empty
/// line (matching traditional `tail` behavior).
pub fn split_lines(data: &[u8]) -> (lines: Vec<Vec<u8>>)
    ensures
        lines.deep_view() == spec_split_lines(data@),
{
    let len = data.len();
    let mut lines: Vec<Vec<u8>> = Vec::new();
    let mut start: usize = 0;
    let mut i: usize = 0;
    proof {
        lemma_pieces_nonempty(data@.take(0));
    }
    while i < len
        invariant
            len == data@.len(),
            start <= i <= len,
            pieces(data@.take(i as int)).len() == lines@.len() + 1,
            forall|j: int|
                0 <= j < lines@.len() ==> #[trigger] lines@[j]@ == strip_cr(
                    pieces(data@.take(i as int))[j],
                ),
            pieces(data@.take(i as int)).last() == data@.subrange(start as int, i as int),
        decreases len - i,
    {
        let b = data[i];
        let ghost prev = data@.take(i as int);
        let ghost p = pieces(prev);
        assert(data@.take(i + 1).drop_last() =~= prev);
        assert(data@.take(i + 1).last() == b);
        if b == LF {
            let line = copy_line(data, start, i);
            lines.push(line);
            start = i + 1;
            assert(data@.subrange(start as int, i + 1) =~= Seq::<u8>::empty());
        } else {
            assert(data@.subrange(start as int, i + 1) =~= data@.subrange(start as int, i as int).push(b));
        }
        i = i + 1;
    }
    assert(data@.take(len as int) =~= data@);
    if start < len {
        let line = copy_line(data, start, len);
        lines.push(line);
    }
    let ghost full = pieces(data@);
    assert(lines.deep_view() =~= spec_split_lines(data@)) by {
        assert(lines.deep_view().len() == spec_split_lines(data@).len());
        assert forall|j: int| 0 <= j < lines@.len() implies lines.deep_view()[j]
            == spec_split_lines(data@)[j] by {
            assert(lines.deep_view()[j] == lines@[j]@);
        }
    }
    lines
}


/// Bytes per line that the tail read assumes when it estimates how far from
/// the end of a file its last lines begin.
pub const BYTES_PER_LINE_GUESS: u64 = 200;

/// Bytes read beyond the per-line estimate.
pub const WINDOW_SLACK: u64 = 8192;

/// Where the tail read of `n` lines starts in a file of `file_len` bytes:
/// `n * 200 + 8192` bytes before the end, or at the start when the file is
/// shorter than that.
pub open spec fn spec_tail_window(n: nat, file_len: nat) -> nat {
    let estimate = n * 200 + 8192;
    if estimate < file_len {
        (file_len - estimate) as nat
    } else {
        0
    }
}

/// The offset from which the tail read of `n` lines starts, in a file of
/// `file_len` bytes (the heuristic assumes about 200 bytes per line, plus 8 KiB).
pub fn tail_window(n: usize, file_len: u64) -> (seek: u64)
    ensures
        seek == spec_tail_window(n as nat, file_len as nat),
        seek <= file_len,
{
    let per_line: u128 = BYTES_PER_LINE_GUESS as u128;
    let slack: u128 = WINDOW_SLACK as u128;
    assert(per_line == 200 && slack == 8192);
    let wide_n: u128 = n as u128;
    assert(wide_n * per_line <= 0xffff_ffff_ffff_ffffu128 * 200) by (nonlinear_arith)
        requires
            wide_n <= 0xffff_ffff_ffff_ffffu128,
            per_line == 200,
    ;
    let estimate: u128 = wide_n * per_line + slack;
    if estimate < file_len as u128 {
        file_len - (estimate as u64)
    } else {
        0
    }
}

/// Take the last `n` lines out of `lines`.
fn keep_last(lines: Vec<Vec<u8>>, n: usize) -> (r: Vec<Vec<u8>>)
    ensures
        r.deep_view() == last_n(lines.deep_view(), n as nat),
{
    let mut lines = lines;
    let len = lines.len();
    if len <= n {
        return lines;
    }
    let ghost all = lines.deep_view();
    let ghost old_lines = lines@;
    let tail = lines.split_off(len - n);
    assert(tail.deep_view() =~= last_n(all, n as nat)) by {
        assert forall|k: int| 0 <= k < tail@.len() implies tail.deep_view()[k] == last_n(all, n as nat)[k] by {
            assert(tail@[k] == old_lines[(len - n) + k]);
        }
    }
    tail
}

/// Whether a window of a file, holding `count` lines, yields the file's last
/// `n` lines: it is the whole file (no byte precedes it), or it holds more
/// than `n` lines (only its first line can be cut short), or it holds `n`
/// and starts right after a line feed.
pub open spec fn window_suffices(count: nat, n: nat, preceding: Option<u8>) -> bool {
    preceding is None || count > n || (count >= n && preceding == Some(LF))
}

/// The lines that a window read from some offset to the end of a file yields
/// for a request of `n` lines, given the byte just before the window (`None`
/// when the window starts the file): the window's last `n` lines when that
/// gives the file's last `n` lines (`window_suffices`); `None` when the whole
/// file must be read instead.
pub fn lines_from_window(window: &[u8], n: usize, preceding: Option<u8>) -> (r: Option<Vec<Vec<u8>>>)
    ensures
        match r {
            Some(v) => v.deep_view() == last_n(spec_split_lines(window@), n as nat)
                && window_suffices(spec_split_lines(window@).len(), n as nat, preceding),
            None => !window_suffices(spec_split_lines(window@).len(), n as nat, preceding),
        },
{
    let lines = split_lines(window);
    let enough = match preceding {
        None => true,
        Some(b) => lines.len() > n || (lines.len() >= n && b == LF),
    };
    if enough {
        Some(keep_last(lines, n))
    } else {
        None
    }
}

/// The last `n` lines of `data`.
pub fn last_lines(data: &[u8], n: usize) -> (r: Vec<Vec<u8>>)
    ensures
        r.deep_view() == last_n(spec_split_lines(data@), n as nat),
{
    keep_last(split_lines(data), n)
}


/// `a` ends `b`.
pub open spec fn ends_with(b: Seq<u8>, a: Seq<u8>) -> bool {
    a.len() <= b.len() && a =~= b.subrange(b.len() - a.len(), b.len() as int)
}

/// The pieces of a suffix of `data` are the last pieces of `data`, except
/// that the first of them may be cut short; it is whole when the suffix
/// starts at the start of `data` or right after a line feed.
proof fn lemma_pieces_of_suffix(data: Seq<u8>, s: int)
    requires
        0 <= s <= data.len(),
    ensures
        pieces(data.skip(s)).len() <= pieces(data).len(),
        forall|j: int|
            1 <= j < pieces(data.skip(s)).len() ==> #[trigger] pieces(data.skip(s))[j] == pieces(
                data,
            )[pieces(data).len() - pieces(data.skip(s)).len() + j],
        ends_with(
            pieces(data)[pieces(data).len() - pieces(data.skip(s)).len()],
            pieces(data.skip(s))[0],
        ),
        (s == 0 || data[s - 1] == LF) ==> pieces(data.skip(s))[0] == pieces(data)[pieces(
            data,
        ).len() - pieces(data.skip(s)).len()],
    decreases data.len(),
{
    lemma_pieces_nonempty(data);
    if data.len() == s {
        assert(data.skip(s) =~= Seq::<u8>::empty());
        if s > 0 && data[s - 1] == LF {
            assert(data.last() == LF);
        }
        if s == 0 {
            assert(data =~= Seq::<u8>::empty());
        }
    } else {
        let d = data.drop_last();
        let t = data.skip(s);
        assert(t.drop_last() =~= d.skip(s));
        assert(t.last() == data.last());
        lemma_pieces_of_suffix(d, s);
        lemma_pieces_nonempty(d);
        lemma_pieces_nonempty(d.skip(s));
        if s > 0 {
            assert(d[s - 1] == data[s - 1]);
        }
        let pd = pieces(d);
        let qd = pieces(d.skip(s));
        let off = pd.len() - qd.len();
        if data.last() == LF {
            assert(pieces(data) == pd.push(Seq::<u8>::empty()));
            assert(pieces(t) == qd.push(Seq::<u8>::empty()));
            assert forall|j: int| 1 <= j < pieces(t).len() implies #[trigger] pieces(t)[j] == pieces(data)[pieces(data).len() - pieces(t).len() + j] by {
                if j < qd.len() {
                    assert(pieces(t)[j] == qd[j]);
                }
            }
        } else {
            assert(pieces(data) == pd.update(pd.len() - 1, pd.last().push(data.last())));
            assert(pieces(t) == qd.update(qd.len() - 1, qd.last().push(data.last())));
            assert forall|j: int| 1 <= j < pieces(t).len() implies #[trigger] pieces(t)[j] == pieces(data)[pieces(data).len() - pieces(t).len() + j] by {
                if j < qd.len() - 1 {
                    assert(pieces(t)[j] == qd[j]);
                }
            }
            if qd.len() == 1 {
                let a = qd[0];
                let b = pd[off];
                assert(a.push(data.last()) =~= b.push(data.last()).subrange(
                    b.push(data.last()).len() - a.push(data.last()).len(),
                    b.push(data.last()).len() as int,
                ));
            }
        }
    }
}

/// Windows that hold more than `n` lines, or at least `n` and start at a line
/// boundary, yield the last `n` lines of the whole file.
pub proof fn lemma_window_keeps_last_lines(data: Seq<u8>, seek: int, n: nat)
    requires
        0 <= seek <= data.len(),
        spec_split_lines(data.skip(seek)).len() > n || (spec_split_lines(data.skip(seek)).len()
            >= n && (seek == 0 || data[seek - 1] == LF)),
    ensures
        last_n(spec_split_lines(data.skip(seek)), n) == last_n(spec_split_lines(data), n),
{
    let t = data.skip(seek);
    lemma_pieces_of_suffix(data, seek);
    lemma_pieces_nonempty(data);
    lemma_pieces_nonempty(t);
    let p = pieces(data);
    let q = pieces(t);
    let off = p.len() - q.len();
    let a = line_pieces(t);
    let b = line_pieces(data);
    let boundary = seek == 0 || data[seek - 1] == LF;
    // a is b with its first elements removed and, unless at a boundary, its
    // first element possibly cut short; only a's last n matter.
    let lo: int = if boundary { 0 } else { 1 };
    assert(a.len() <= b.len());
    assert(a.len() >= n + lo);
    assert forall|k: int| lo <= k < a.len() implies #[trigger] a[k] == b[b.len() - a.len() + k] by {
        if q.last().len() == 0 {
            if q.len() >= 2 {
                assert(q.last() == q[q.len() - 1]);
                assert(p.last().len() == 0);
            } else {
                assert(p[off].len() == 0 || !boundary);
            }
        } else {
            if q.len() >= 2 {
                assert(q[q.len() - 1] == p[p.len() - 1]);
            } else {
                assert(p.last().len() >= q.last().len());
            }
        }
        if k == 0 {
            assert(a[k] == q[0]);
        }
    }
    let sa = spec_split_lines(t);
    let sb = spec_split_lines(data);
    assert(last_n(sa, n) =~= last_n(sb, n)) by {
        assert forall|k: int| 0 <= k < n implies #[trigger] last_n(sa, n)[k] == last_n(sb, n)[k] by {
            let i = sa.len() - n + k;
            assert(a[i] == b[b.len() - a.len() + i]);
        }
    }
}


/// What a follower does after it has looked at the size of its file.
#[derive(Debug, Clone, Copy, PartialEq, Eq, Structural)]
pub enum PollAction {
    /// Nothing new: wait for the next poll.
    Wait,
    /// Read `len` bytes starting at offset `from`, then continue from
    /// `from + len`.
    Read { from: u64, len: u64 },
}

/// The read position after a poll that found the file at `size` bytes: a
/// file shorter than the position was truncated, and reading restarts at
/// its start, or, without truncation reset, at its new end.
pub open spec fn spec_polled_position(position: u64, size: u64, allow_truncation_reset: bool) -> u64 {
    if size < position {
        if allow_truncation_reset {
            0
        } else {
            size
        }
    } else {
        position
    }
}

/// One poll of a followed file: given the current read position and the size
/// the file has now, the position to keep and what to read.
///
/// If the file shrank (truncation), the position resets to 0 when
/// `allow_truncation_reset` holds and to the new size otherwise; then, if the
/// file extends past the position, the bytes from the position to its end
/// are read.
pub fn poll_step(position: u64, size: u64, allow_truncation_reset: bool) -> (r: (u64, PollAction))
    ensures
        r.0 == spec_polled_position(position, size, allow_truncation_reset),
        r.0 <= size || r.0 == position,
        r.1 == (if size > r.0 {
            PollAction::Read { from: r.0, len: (size - r.0) as u64 }
        } else {
            PollAction::Wait
        }),
        r.1 matches PollAction::Read { from, len } ==> from + len == size,
        size >= position ==> r.0 == position,
        size > position ==> r.1 == (PollAction::Read { from: position, len: (size - position) as u64 }),
{
    let mut pos = position;
    if size < pos {
        if allow_truncation_reset {
            pos = 0;
        } else {
            pos = size;
        }
    }
    if size > pos {
        (pos, PollAction::Read { from: pos, len: size - pos })
    } else {
        (pos, PollAction::Wait)
    }
}

/// A poll never skips appended bytes: while the file has not shrunk below
/// the read position, the position stays where it was, with or without
/// truncation reset, and every byte past it is read; a file that shrank
/// restarts at its start with truncation reset and at its new end without.
pub proof fn lemma_poll_reads_all_growth(position: u64, size: u64, allow_truncation_reset: bool)
    ensures
        size >= position ==> spec_polled_position(position, size, allow_truncation_reset) == position,
        size < position && allow_truncation_reset ==> spec_polled_position(position, size, allow_truncation_reset) == 0,
        size < position && !allow_truncation_reset ==> spec_polled_position(position, size, allow_truncation_reset) == size,
        spec_polled_position(position, size, allow_truncation_reset) <= position,
        spec_polled_position(position, size, true) == spec_polled_position(position, size, false)
            <==> (size >= position || size == 0),
{
}

/// Each line followed by a line feed, one after another.
pub open spec fn terminate_all(lines: Seq<Seq<u8>>) -> Seq<u8>
    decreases lines.len(),
{
    if lines.len() == 0 {
        Seq::<u8>::empty()
    } else {
        terminate_all(lines.drop_last()) + lines.last() + seq![LF]
    }
}

/// Joining the pieces of `data` with line feeds gives `data` back; no piece
/// holds a line feed, nor a carriage return unless `data` does.
proof fn lemma_pieces_rejoin(data: Seq<u8>)
    ensures
        pieces(data).len() >= 1,
        terminate_all(pieces(data).drop_last()) + pieces(data).last() == data,
        forall|i: int| 0 <= i < pieces(data).len() ==> !(#[trigger] pieces(data)[i]).contains(LF),
        !data.contains(CR) ==> forall|i: int| 0 <= i < pieces(data).len() ==> !(#[trigger] pieces(data)[i]).contains(CR),
        (pieces(data).last().len() == 0) <==> (data.len() == 0 || data.last() == LF),
    decreases data.len(),
{
    lemma_pieces_nonempty(data);
    if data.len() == 0 {
        assert(terminate_all(pieces(data).drop_last()) =~= Seq::<u8>::empty());
        assert(pieces(data)[0] =~= Seq::<u8>::empty());
    } else {
        let d = data.drop_last();
        let c = data.last();
        lemma_pieces_rejoin(d);
        let p = pieces(d);
        if !data.contains(CR) {
            assert(!d.contains(CR)) by {
                if d.contains(CR) {
                    let k = choose|k: int| 0 <= k < d.len() && d[k] == CR;
                    assert(data[k] == CR);
                }
            }
        }
        if c == LF {
            let q = p.push(Seq::<u8>::empty());
            assert(pieces(data) == q);
            assert(q.drop_last() =~= p);
            assert(terminate_all(p) == terminate_all(p.drop_last()) + p.last() + seq![LF]);
            assert(terminate_all(q.drop_last()) + q.last() =~= data);
            assert forall|i: int| 0 <= i < q.len() implies !(#[trigger] q[i]).contains(LF) by {
                if i < p.len() {
                    assert(q[i] == p[i]);
                }
            }
            if !data.contains(CR) {
                assert forall|i: int| 0 <= i < q.len() implies !(#[trigger] q[i]).contains(CR) by {
                    if i < p.len() {
                        assert(q[i] == p[i]);
                    }
                }
            }
        } else {
            let last = p.last().push(c);
            let q = p.update(p.len() - 1, last);
            assert(pieces(data) == q);
            assert(q.drop_last() =~= p.drop_last());
            assert(q.last() == last);
            assert(data =~= d.push(c));
            assert(terminate_all(p.drop_last()) + last =~= (terminate_all(p.drop_last()) + p.last()).push(c));
            assert(terminate_all(q.drop_last()) + q.last() =~= data);
            assert(!p.last().contains(LF)) by {
                assert(p[p.len() - 1] == p.last());
            }
            assert(!last.contains(LF)) by {
                if last.contains(LF) {
                    let k = choose|k: int| 0 <= k < last.len() && last[k] == LF;
                    assert(k < p.last().len());
                    assert(p.last()[k] == LF);
                }
            }
            assert forall|i: int| 0 <= i < q.len() implies !(#[trigger] q[i]).contains(LF) by {
                if i < p.len() - 1 {
                    assert(q[i] == p[i]);
                }
            }
            if !data.contains(CR) {
                assert(c != CR) by {
                    assert(data[data.len() - 1] == c);
                }
                assert(!p.last().contains(CR)) by {
                    assert(p[p.len() - 1] == p.last());
                }
                assert(!last.contains(CR)) by {
                    if last.contains(CR) {
                        let k = choose|k: int| 0 <= k < last.len() && last[k] == CR;
                        assert(k < p.last().len());
                        assert(p.last()[k] == CR);
                    }
                }
                assert forall|i: int| 0 <= i < q.len() implies !(#[trigger] q[i]).contains(CR) by {
                    if i < p.len() - 1 {
                        assert(q[i] == p[i]);
                    }
                }
            }
        }
    }
}

/// Each line is its stretch of `data` between line feeds with exactly one
/// trailing carriage return taken off whenever the stretch ends in one, and
/// nothing else changed; so a line ends in a carriage return only where its
/// stretch ended in two.
pub proof fn lemma_lines_drop_one_cr(data: Seq<u8>)
    ensures
        spec_split_lines(data).len() == line_pieces(data).len(),
        forall|i: int|
            0 <= i < line_pieces(data).len() && (#[trigger] line_pieces(data)[i]).len() > 0
                && line_pieces(data)[i].last() == CR ==> spec_split_lines(data)[i]
                == line_pieces(data)[i].drop_last(),
        forall|i: int|
            0 <= i < line_pieces(data).len() && !((#[trigger] line_pieces(data)[i]).len() > 0
                && line_pieces(data)[i].last() == CR) ==> spec_split_lines(data)[i]
                == line_pieces(data)[i],
        forall|i: int|
            0 <= i < spec_split_lines(data).len() && (#[trigger] spec_split_lines(data)[i]).len() > 0
                && spec_split_lines(data)[i].last() == CR ==> line_pieces(data)[i].len() >= 2
                && line_pieces(data)[i][line_pieces(data)[i].len() - 2] == CR
                && line_pieces(data)[i].last() == CR,
{
    let lp = line_pieces(data);
    let sl = spec_split_lines(data);
    assert forall|i: int|
        0 <= i < sl.len() && (#[trigger] sl[i]).len() > 0 && sl[i].last() == CR implies lp[i].len() >= 2
        && lp[i][lp[i].len() - 2] == CR && lp[i].last() == CR by {
        let p = lp[i];
        assert(sl[i] == strip_cr(p));
        if !(p.len() > 0 && p.last() == CR) {
            assert(sl[i] == p);
        } else {
            assert(sl[i] == p.drop_last());
            assert(sl[i].last() == p[p.len() - 2]);
        }
    }
}

/// No line holds a line feed.
pub proof fn lemma_lines_hold_no_line_feed(data: Seq<u8>)
    ensures
        forall|i: int|
            0 <= i < spec_split_lines(data).len() ==> !(#[trigger] spec_split_lines(data)[i]).contains(LF),
{
    lemma_pieces_rejoin(data);
    let lp = line_pieces(data);
    assert forall|i: int| 0 <= i < spec_split_lines(data).len() implies !(#[trigger] spec_split_lines(data)[i]).contains(LF) by {
        assert(lp[i] == pieces(data)[i]);
        let l = spec_split_lines(data)[i];
        assert(l == strip_cr(lp[i]));
        if l.contains(LF) {
            let k = choose|k: int| 0 <= k < l.len() && l[k] == LF;
            assert(lp[i][k] == LF);
        }
    }
}

/// Without carriage returns, the lines of `data`, each followed by a line
/// feed, give `data` back, with a line feed added at the end when `data`
/// does not end with one.
pub proof fn lemma_lines_rejoin(data: Seq<u8>)
    requires
        !data.contains(CR),
    ensures
        terminate_all(spec_split_lines(data)) == (if data.len() == 0 || data.last() == LF {
            data
        } else {
            data.push(LF)
        }),
{
    lemma_pieces_rejoin(data);
    let p = pieces(data);
    let lp = line_pieces(data);
    assert(spec_split_lines(data) =~= lp) by {
        assert forall|i: int| 0 <= i < lp.len() implies #[trigger] spec_split_lines(data)[i] == lp[i] by {
            assert(lp[i] == p[i]);
            if lp[i].len() > 0 {
                assert(lp[i][lp[i].len() - 1] == lp[i].last());
                assert(lp[i].last() != CR);
            }
        }
    }
    if p.last().len() == 0 {
        assert(p.last() =~= Seq::<u8>::empty());
        assert(terminate_all(p.drop_last()) + p.last() =~= terminate_all(p.drop_last()));
    } else {
        assert(terminate_all(p) == terminate_all(p.drop_last()) + p.last() + seq![LF]);
        assert(terminate_all(p) =~= data.push(LF));
    }
}

/// Where the tail read of `n` lines of a file of `file_len` bytes starts,
/// or `None` when there is nothing to read: no lines requested, or an empty
/// file.
pub fn tail_start(n: usize, file_len: u64) -> (r: Option<u64>)
    ensures
        r == (if n == 0 || file_len == 0 {
            None
        } else {
            Some(spec_tail_window(n as nat, file_len as nat) as u64)
        }),
{
    if n == 0 || file_len == 0 {
        None
    } else {
        Some(tail_window(n, file_len))
    }
}

/// Milliseconds between two looks of a follower at its file.
pub const POLL_INTERVAL_MILLIS: u64 = 50;

/// The window read gives the file's last lines: when a window of `data`
/// starting at `seek` suffices, its last `n` lines are the last `n` lines of
/// `data`.
pub proof fn lemma_tail_read_is_last_lines(data: Seq<u8>, seek: int, n: nat)
    requires
        0 <= seek <= data.len(),
        window_suffices(
            spec_split_lines(data.skip(seek)).len(),
            n,
            if seek == 0 {
                None
            } else {
                Some(data[seek - 1])
            },
        ),
    ensures
        last_n(spec_split_lines(data.skip(seek)), n) == last_n(spec_split_lines(data), n),
{
    if seek == 0 {
        assert(data.skip(0) =~= data);
    } else {
        lemma_window_keeps_last_lines(data, seek, n);
    }
}

} // verus!
