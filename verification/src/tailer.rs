//! The incremental tailer: which lines of a file are new, and which of those
//! are emitted.
//!
//! The file's content arrives as bytes and is split into lines: a line ends
//! at a newline byte, a carriage return directly before a consumed newline
//! is stripped, and a final unterminated line counts only if it is
//! non-empty. A re-read with a consumed-line count `k` emits, in file order,
//! every line whose 1-based index exceeds `k` and that contains the marker
//! `<>`, and advances the count by the total number of lines seen in this
//! read. The advance is added to the old count rather than replaced by the
//! new total, so duplicate notifications make the count drift past the
//! file's actual line count: see [`lemma_consumed_drift`].

use vstd::prelude::*;
use vstd::seq_lib::*;

verus! {

/// The newline byte that ends a line.
pub const NEWLINE: u8 = 10;

/// The carriage return byte stripped from the end of a consumed line.
pub const CARRIAGE_RETURN: u8 = 13;

/// First byte of the marker: `<`.
pub const MARKER_OPEN: u8 = 60;

/// Second byte of the marker: `>`.
pub const MARKER_CLOSE: u8 = 62;

/// The marker `<>` stands at position `i` of line `l`.
pub open spec fn marker_at(l: Seq<u8>, i: int) -> bool {
    0 <= i && i + 1 < l.len() && l[i] == MARKER_OPEN && l[i + 1] == MARKER_CLOSE
}

/// The line contains the marker `<>` somewhere in its text.
pub open spec fn has_marker(l: Seq<u8>) -> bool {
    exists|i: int| marker_at(l, i)
}

/// The views of a vector of owned lines.
pub open spec fn views_of(lines: Seq<Vec<u8>>) -> Seq<Seq<u8>> {
    lines.map_values(|l: Vec<u8>| l@)
}

/// The subsequence of lines that contain the marker, in their given order.
pub open spec fn matching_of(lines: Seq<Seq<u8>>) -> Seq<Seq<u8>> {
    lines.filter(|l: Seq<u8>| has_marker(l))
}

/// A carriage return at the end of a line is stripped when the line's
/// newline is consumed.
pub open spec fn strip_cr(l: Seq<u8>) -> Seq<u8> {
    if l.len() > 0 && l.last() == CARRIAGE_RETURN {
        l.drop_last()
    } else {
        l
    }
}

/// The lines of `s` when `cur` holds the bytes of the current line read so
/// far: a newline ends the current line (stripping a preceding carriage
/// return), and a non-empty unterminated final line still counts.
pub open spec fn lines_from(s: Seq<u8>, cur: Seq<u8>) -> Seq<Seq<u8>>
    decreases s.len(),
{
    if s.len() == 0 {
        if cur.len() == 0 {
            Seq::empty()
        } else {
            seq![cur]
        }
    } else if s[0] == NEWLINE {
        seq![strip_cr(cur)] + lines_from(s.skip(1), Seq::empty())
    } else {
        lines_from(s.skip(1), cur.push(s[0]))
    }
}

/// The ordered lines of a file's content.
pub open spec fn spec_lines(s: Seq<u8>) -> Seq<Seq<u8>> {
    lines_from(s, Seq::empty())
}

/// A file of `n` bytes has at most `n` lines.
pub proof fn lemma_line_count_bound(s: Seq<u8>)
    ensures
        spec_lines(s).len() <= s.len(),
{
    lemma_lines_from_count(s, Seq::empty());
}

proof fn lemma_lines_from_count(s: Seq<u8>, cur: Seq<u8>)
    ensures
        lines_from(s, cur).len() <= s.len() + if cur.len() == 0 {
            0int
        } else {
            1int
        },
    decreases s.len(),
{
    if s.len() == 0 {
    } else if s[0] == NEWLINE {
        lemma_lines_from_count(s.skip(1), Seq::empty());
    } else {
        lemma_lines_from_count(s.skip(1), cur.push(s[0]));
    }
}

/// The lines of `lines` not yet consumed when `k` of them already were:
/// everything past the first `k`, or nothing when the count has drifted past
/// the end.
pub open spec fn tail_from(lines: Seq<Seq<u8>>, k: int) -> Seq<Seq<u8>> {
    if k <= 0 {
        lines
    } else if k >= lines.len() {
        Seq::empty()
    } else {
        lines.skip(k)
    }
}

/// Exactly what one re-read with consumed count `k` emits: the lines past
/// the first `k`, kept in file order, restricted to those that contain the
/// marker.
pub open spec fn emitted_lines(lines: Seq<Seq<u8>>, k: int) -> Seq<Seq<u8>> {
    matching_of(tail_from(lines, k))
}

/// The consumed count after a re-read that saw `total` lines: the increment
/// is added to the old count, never replaced by the new total.
pub open spec fn next_consumed(k: nat, total: nat) -> nat {
    k + total
}

/// Does this line contain the marker `<>`?
pub fn line_has_marker(l: &Vec<u8>) -> (r: bool)
    ensures
        r == has_marker(l@),
{
    if l.len() < 2 {
        assert(forall|j: int| !marker_at(l@, j));
        return false;
    }
    let mut i: usize = 0;
    while i < l.len() - 1
        invariant
            l@.len() >= 2,
            i <= l@.len() - 1,
            forall|j: int| 0 <= j < i ==> !marker_at(l@, j),
        decreases l@.len() - i,
    {
        if l[i] == MARKER_OPEN && l[i + 1] == MARKER_CLOSE {
            assert(marker_at(l@, i as int));
            return true;
        }
        i += 1;
    }
    false
}

/// Split a file's content into its lines.
pub fn split_lines(content: &Vec<u8>) -> (lines: Vec<Vec<u8>>)
    ensures
        views_of(lines@) == spec_lines(content@),
{
    let mut lines: Vec<Vec<u8>> = Vec::new();
    let mut cur: Vec<u8> = Vec::new();
    let mut i: usize = 0;
    proof {
        assert(content@.skip(0) =~= content@);
        assert(views_of(Seq::<Vec<u8>>::empty()) =~= Seq::<Seq<u8>>::empty());
        assert(Seq::<Seq<u8>>::empty() + spec_lines(content@) =~= spec_lines(content@));
    }
    while i < content.len()
        invariant
            i <= content@.len(),
            spec_lines(content@) == views_of(lines@) + lines_from(content@.skip(i as int), cur@),
        decreases content@.len() - i,
    {
        proof {
            assert(content@.skip(i as int)[0] == content@[i as int]);
            assert(content@.skip(i as int).skip(1) =~= content@.skip(i as int + 1));
        }
        let c = content[i];
        if c == NEWLINE {
            let ghost prev_cur = cur@;
            if cur.len() > 0 && cur[cur.len() - 1] == CARRIAGE_RETURN {
                cur.pop();
            }
            assert(cur@ == strip_cr(prev_cur));
            let ghost prev_lines = lines@;
            lines.push(cur);
            cur = Vec::new();
            proof {
                assert(views_of(lines@) =~= views_of(prev_lines).push(strip_cr(prev_cur)));
                assert(views_of(prev_lines) + (seq![strip_cr(prev_cur)] + lines_from(
                    content@.skip(i as int + 1),
                    Seq::empty(),
                )) =~= views_of(lines@) + lines_from(content@.skip(i as int + 1), Seq::empty()));
            }
        } else {
            cur.push(c);
        }
        i += 1;
    }
    proof {
        assert(content@.skip(content@.len() as int) =~= Seq::<u8>::empty());
    }
    if cur.len() > 0 {
        let ghost prev_lines = lines@;
        lines.push(cur);
        proof {
            assert(views_of(lines@) =~= views_of(prev_lines) + seq![cur@]);
        }
    } else {
        proof {
            assert(views_of(lines@) + Seq::<Seq<u8>>::empty() =~= views_of(lines@));
        }
    }
    lines
}

fn copy_line(v: &Vec<u8>) -> (r: Vec<u8>)
    ensures
        r@ == v@,
{
    let mut r: Vec<u8> = Vec::new();
    let mut i: usize = 0;
    while i < v.len()
        invariant
            i <= v@.len(),
            r@ == v@.subrange(0, i as int),
        decreases v@.len() - i,
    {
        r.push(v[i]);
        proof {
            assert(r@ =~= v@.subrange(0, i as int + 1));
        }
        i += 1;
    }
    proof {
        assert(v@.subrange(0, v@.len() as int) =~= v@);
    }
    r
}

/// Appending a line to a sequence appends it to the matching subsequence
/// exactly when it contains the marker.
proof fn lemma_matching_push(s: Seq<Seq<u8>>, x: Seq<u8>)
    ensures
        matching_of(s.push(x)) == if has_marker(x) {
            matching_of(s).push(x)
        } else {
            matching_of(s)
        },
{
    reveal(Seq::filter);
    assert(s.push(x).drop_last() =~= s);
    assert(s.push(x).last() == x);
}

/// One re-read of the file with `consumed` lines already consumed: returns
/// the advanced consumed count and, in file order, the new lines that
/// contain the marker.
pub fn re_read(content: &Vec<u8>, consumed: u64) -> (r: (u64, Vec<Vec<u8>>))
    requires
        consumed + content@.len() <= u64::MAX,
    ensures
        r.0 == next_consumed(consumed as nat, spec_lines(content@).len()),
        views_of(r.1@) == emitted_lines(spec_lines(content@), consumed as int),
{
    proof {
        lemma_line_count_bound(content@);
    }
    let lines = split_lines(content);
    let total = lines.len();
    let ghost lseq = spec_lines(content@);
    let ghost lo: int = if consumed as int >= lseq.len() {
        lseq.len() as int
    } else {
        consumed as int
    };
    let mut out: Vec<Vec<u8>> = Vec::new();
    let mut j: usize = 0;
    proof {
        assert(views_of(Seq::<Vec<u8>>::empty()) =~= Seq::<Seq<u8>>::empty());
        assert(lseq.subrange(lo, lo) =~= Seq::<Seq<u8>>::empty());
        assert(matching_of(Seq::<Seq<u8>>::empty()) =~= Seq::<Seq<u8>>::empty()) by {
            reveal(Seq::filter);
        }
    }
    while j < total
        invariant
            j <= total,
            total == lines@.len(),
            views_of(lines@) == lseq,
            consumed + lseq.len() <= u64::MAX,
            lo == if consumed as int >= lseq.len() {
                lseq.len() as int
            } else {
                consumed as int
            },
            views_of(out@) == matching_of(
                lseq.subrange(
                    lo,
                    if j as int >= lo {
                        j as int
                    } else {
                        lo
                    },
                ),
            ),
        decreases total - j,
    {
        if (j as u64) >= consumed {
            let ghost prev_out = out@;
            let line = &lines[j];
            assert(line@ == lseq[j as int]);
            if line_has_marker(line) {
                out.push(copy_line(line));
                proof {
                    assert(views_of(out@) =~= views_of(prev_out).push(lseq[j as int]));
                }
            }
            proof {
                assert(lseq.subrange(lo, j as int + 1) =~= lseq.subrange(lo, j as int).push(
                    lseq[j as int],
                ));
                lemma_matching_push(lseq.subrange(lo, j as int), lseq[j as int]);
            }
        }
        j += 1;
    }
    proof {
        if consumed as int <= 0 {
            assert(lseq.subrange(0, lseq.len() as int) =~= lseq);
        } else if consumed as int >= lseq.len() {
            assert(lseq.subrange(lo, lo) =~= Seq::<Seq<u8>>::empty());
        } else {
            assert(lseq.subrange(lo, lseq.len() as int) =~= lseq.skip(consumed as int));
        }
    }
    (consumed + (total as u64), out)
}

proof fn lemma_matching_contains(s: Seq<Seq<u8>>, i: int)
    requires
        0 <= i < s.len(),
        has_marker(s[i]),
    ensures
        matching_of(s).contains(s[i]),
    decreases s.len(),
{
    lemma_matching_push(s.drop_last(), s.last());
    assert(s.drop_last().push(s.last()) =~= s);
    let msub = matching_of(s.drop_last());
    if i == s.len() - 1 {
        assert(matching_of(s) == msub.push(s.last()));
        assert(matching_of(s)[msub.len() as int] == s[i]);
    } else {
        lemma_matching_contains(s.drop_last(), i);
        let x = s.drop_last()[i];
        assert(x == s[i]);
        let w = choose|w: int| 0 <= w < msub.len() && msub[w] == x;
        assert(matching_of(s)[w] == x);
    }
}

proof fn lemma_matching_pred_at(s: Seq<Seq<u8>>, m: int)
    requires
        0 <= m < matching_of(s).len(),
    ensures
        has_marker(matching_of(s)[m]),
        exists|i: int| 0 <= i < s.len() && s[i] == matching_of(s)[m],
    decreases s.len(),
{
    if s.len() == 0 {
        assert(matching_of(s).len() == 0) by {
            reveal(Seq::filter);
        }
    } else {
        lemma_matching_push(s.drop_last(), s.last());
        assert(s.drop_last().push(s.last()) =~= s);
        let msub = matching_of(s.drop_last());
        if has_marker(s.last()) && m == msub.len() {
            assert(matching_of(s)[m] == s.last());
            assert(s[s.len() - 1] == s.last());
        } else {
            assert(matching_of(s)[m] == msub[m]);
            lemma_matching_pred_at(s.drop_last(), m);
            let i = choose|i: int| 0 <= i < s.drop_last().len() && s.drop_last()[i] == msub[m];
            assert(s[i] == msub[m]);
        }
    }
}

/// Law: a re-read misses nothing. Every line whose index lies beyond the
/// consumed count `k` and that contains the marker is among the emitted
/// lines. File order is fixed by `emitted_lines` itself, which keeps the
/// relative order of the lines it keeps.
pub proof fn lemma_no_missed_lines(lines: Seq<Seq<u8>>, k: int, i: int)
    requires
        0 <= k <= i < lines.len(),
        has_marker(lines[i]),
    ensures
        emitted_lines(lines, k).contains(lines[i]),
{
    let t = tail_from(lines, k);
    if k == 0 {
        lemma_matching_contains(t, i);
    } else {
        assert(t[i - k] == lines[i]);
        lemma_matching_contains(t, i - k);
    }
}

/// Law: a re-read emits no already-consumed line. Every emitted line
/// originates at a line index beyond the consumed count `k`, and contains
/// the marker.
pub proof fn lemma_no_reemission(lines: Seq<Seq<u8>>, k: int, m: int)
    requires
        0 <= k,
        0 <= m < emitted_lines(lines, k).len(),
    ensures
        exists|i: int|
            k <= i < lines.len() && lines[i] == emitted_lines(lines, k)[m] && has_marker(
                emitted_lines(lines, k)[m],
            ),
{
    let t = tail_from(lines, k);
    lemma_matching_pred_at(t, m);
    let i = choose|i: int| 0 <= i < t.len() && t[i] == matching_of(t)[m];
    if k == 0 {
        assert(lines[i] == emitted_lines(lines, k)[m]);
    } else if k >= lines.len() {
        assert(matching_of(t).len() == 0) by {
            reveal(Seq::filter);
        }
    } else {
        assert(t[i] == lines[k + i]);
        assert(lines[k + i] == emitted_lines(lines, k)[m]);
    }
}

/// Law: the filter is exact in the negative direction. A line without the
/// marker is never emitted, whatever the consumed count: every emitted line
/// contains the marker.
pub proof fn lemma_only_matching_emitted(lines: Seq<Seq<u8>>, k: int, m: int)
    requires
        0 <= m < emitted_lines(lines, k).len(),
    ensures
        has_marker(emitted_lines(lines, k)[m]),
{
    lemma_matching_pred_at(tail_from(lines, k), m);
}

/// Law (drift quirk): after two consecutive re-reads of unchanged content
/// the consumed count equals the line count plus the first read's returned
/// count, so it strictly exceeds the file's actual line count whenever the
/// first read returned a positive count.
pub proof fn lemma_consumed_drift(lines: Seq<Seq<u8>>, k: nat)
    ensures
        ({
            let first = next_consumed(k, lines.len());
            let second = next_consumed(first, lines.len());
            second == lines.len() + first && (first > 0 ==> second > lines.len())
        }),
{
}

/// Law (drift quirk, consequence): once the count has drifted past the
/// file's length, a single line appended afterwards is swallowed — the next
/// re-read emits nothing, although a new matching line may exist.
pub proof fn lemma_drift_swallows_appended(lines: Seq<Seq<u8>>, k: nat, extra: Seq<u8>)
    requires
        k + lines.len() >= 1,
    ensures
        emitted_lines(
            lines.push(extra),
            next_consumed(next_consumed(k, lines.len()), lines.len()) as int,
        ) == Seq::<Seq<u8>>::empty(),
{
    reveal(Seq::filter);
}

/// The tailer's whole mutable state: the count of lines already consumed
/// from the watched file.
pub struct TailState {
    pub consumed: u64,
}

impl TailState {
    /// At startup nothing has been consumed yet.
    pub fn new() -> (s: Self)
        ensures
            s.consumed == 0,
    {
        TailState { consumed: 0 }
    }

    /// Process one content-modified notification: re-read the file's
    /// current content, emit the new matching lines, advance the count.
    /// The count never decreases.
    pub fn observe(&mut self, content: &Vec<u8>) -> (emitted: Vec<Vec<u8>>)
        requires
            old(self).consumed + content@.len() <= u64::MAX,
        ensures
            final(self).consumed == next_consumed(
                old(self).consumed as nat,
                spec_lines(content@).len(),
            ),
            old(self).consumed <= final(self).consumed,
            views_of(emitted@) == emitted_lines(spec_lines(content@), old(self).consumed as int),
    {
        let (n, out) = re_read(content, self.consumed);
        self.consumed = n;
        out
    }
}

} // verus!
