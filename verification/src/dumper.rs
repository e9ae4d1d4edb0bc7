//! The dump engine: double-buffered duplicate detection, the
//! read-format-emit loop, and the byte accounting around skip and limit.

use vstd::prelude::*;

use crate::BYTES_PER_LINE;
use crate::render::{
    append_data_line, append_marker, append_summary, is_data_rendering, is_marker_line,
    lemma_data_line_not_marker, lemma_marker_is_marker, spec_data_line, spec_header,
    spec_marker_line, spec_sep_line, spec_summary_line,
};
use crate::source::{DataSource, DumpError, min_int};

verus! {

/// The dump engine: configuration, the double row buffer, the byte
/// counters, and the rows emitted so far.
pub struct Hedu {
    /// Render the masked character column.
    pub chars: bool,
    /// Bytes to skip before the first rendered row.
    pub skip: usize,
    /// Render identical rows instead of collapsing them.
    pub show_identical: bool,
    /// Largest number of bytes to interpret; 0 means unlimited.
    pub limit: usize,
    /// Set once the limit truncated a read; ends the dump.
    pub stop: bool,
    /// Valid bytes of the row read last.
    pub len: usize,
    /// Byte position of the row being rendered.
    pub data_idx: usize,
    /// Bytes consumed in total, the skipped prefix counted too.
    pub rd_counter: usize,
    /// One half of the double row buffer.
    pub buf0: Vec<u8>,
    /// The other half of the double row buffer.
    pub buf1: Vec<u8>,
    /// Which buffer half holds the row read last (0 or 1).
    pub alt_buf: usize,
    /// The row under construction.
    pub display_buf: String,
    /// Whether the main loop has rendered nothing yet.
    pub first_iter: bool,
    /// The emitted rows, in order.
    pub out: Vec<String>,
    /// Diagnostics emitted for the caller, in order.
    pub warnings: Vec<String>,
    /// The effective length of every read so far, in order.
    pub reads: Ghost<Seq<int>>,
}

impl Hedu {
    /// Both buffer halves are full rows and the indices are in range.
    pub open spec fn wf(&self) -> bool {
        &&& self.buf0@.len() == BYTES_PER_LINE
        &&& self.buf1@.len() == BYTES_PER_LINE
        &&& self.alt_buf <= 1
        &&& self.len <= BYTES_PER_LINE
    }

    /// The buffer half holding the row read last.
    pub open spec fn active_seq(&self) -> Seq<u8> {
        if self.alt_buf == 0 {
            self.buf0@
        } else {
            self.buf1@
        }
    }

    /// The buffer half holding the row read before the last one.
    pub open spec fn inactive_seq(&self) -> Seq<u8> {
        if self.alt_buf == 0 {
            self.buf1@
        } else {
            self.buf0@
        }
    }

    /// Bytes consumed from the source itself, the skipped prefix not
    /// counted.
    pub open spec fn consumed(&self) -> int {
        self.rd_counter - self.skip
    }

    /// A just-created engine: nothing read, nothing emitted.
    pub open spec fn fresh(&self) -> bool {
        &&& self.wf()
        &&& !self.stop
        &&& self.len == 0
        &&& self.data_idx == 0
        &&& self.rd_counter == 0
        &&& self.alt_buf == 0
        &&& self.display_buf@.len() == 0
        &&& self.first_iter
        &&& self.out@.len() == 0
        &&& self.warnings@.len() == 0
        &&& self.reads@.len() == 0
    }

    /// Create a new engine for one dump run over one source.
    pub fn new(chars: bool, skip: usize, show_identical: bool, limit: usize) -> (r: Hedu)
        ensures
            r.fresh(),
            r.chars == chars,
            r.skip == skip,
            r.show_identical == show_identical,
            r.limit == limit,
            forall|i: int| 0 <= i < BYTES_PER_LINE ==> r.buf0@[i] == 0u8 && r.buf1@[i] == 0u8,
    {
        Hedu {
            chars,
            skip,
            show_identical,
            limit,
            stop: false,
            len: 0,
            data_idx: 0,
            rd_counter: 0,
            buf0: zero_row(),
            buf1: zero_row(),
            alt_buf: 0,
            display_buf: String::new(),
            first_iter: true,
            out: Vec::new(),
            warnings: Vec::new(),
            reads: Ghost(Seq::empty()),
        }
    }

    /// Move the row under construction to the emitted rows.
    pub fn display(&mut self)
        requires
            old(self).wf(),
        ensures
            final(self).wf(),
            final(self).out@.len() == old(self).out@.len() + 1,
            final(self).out@.subrange(0, old(self).out@.len() as int) == old(self).out@,
            final(self).out@.last()@ == old(self).display_buf@,
            final(self).display_buf@.len() == 0,
            *final(self) == (Hedu { display_buf: final(self).display_buf, out: final(self).out, ..*old(self) }),
    {
        let mut line = String::new();
        core::mem::swap(&mut line, &mut self.display_buf);
        self.out.push(line);
        proof {
            assert(self.out@.subrange(0, old(self).out@.len() as int) =~= old(self).out@);
        }
    }

    /// Emit a horizontal separator row.
    pub fn sep(&mut self)
        requires
            old(self).wf(),
        ensures
            final(self).wf(),
            final(self).out@.len() == old(self).out@.len() + 1,
            final(self).out@.subrange(0, old(self).out@.len() as int) == old(self).out@,
            final(self).out@.last()@ == old(self).display_buf@ + spec_sep_line(old(self).chars),
            final(self).display_buf@.len() == 0,
            *final(self) == (Hedu { display_buf: final(self).display_buf, out: final(self).out, ..*old(self) }),
    {
        if self.chars {
            self.display_buf.append(
                "────────────────────────────────────────────────────────────────────────────────",
            );
        } else {
            self.display_buf.append(
                "───────────────────────────────────────────────────────────",
            );
        }
        self.display();
    }

    /// Emit a blank row.
    pub fn newline(&mut self)
        requires
            old(self).wf(),
        ensures
            final(self).wf(),
            final(self).out@.len() == old(self).out@.len() + 1,
            final(self).out@.subrange(0, old(self).out@.len() as int) == old(self).out@,
            final(self).out@.last()@ == old(self).display_buf@ + "\n"@,
            final(self).display_buf@.len() == 0,
            *final(self) == (Hedu { display_buf: final(self).display_buf, out: final(self).out, ..*old(self) }),
    {
        self.display_buf.append("\n");
        self.display();
    }

    /// Advance both byte counters by the length of the row read last.
    pub fn adjust_counters(&mut self)
        requires
            old(self).rd_counter + old(self).len <= usize::MAX,
            old(self).data_idx + old(self).len <= usize::MAX,
        ensures
            final(self).rd_counter == old(self).rd_counter + old(self).len,
            final(self).data_idx == old(self).data_idx + old(self).len,
            *final(self) == (Hedu {
                rd_counter: final(self).rd_counter,
                data_idx: final(self).data_idx,
                ..*old(self)
            }),
    {
        self.rd_counter = self.rd_counter + self.len;
        self.data_idx = self.data_idx + self.len;
    }
}

impl Hedu {
    /// Render the row read last (the active buffer half) as one output row.
    pub fn dump_a_line(&mut self)
        requires
            old(self).wf(),
        ensures
            final(self).wf(),
            final(self).out@.len() == old(self).out@.len() + 1,
            final(self).out@.subrange(0, old(self).out@.len() as int) == old(self).out@,
            final(self).out@.last()@ == old(self).display_buf@ + spec_data_line(
                old(self).data_idx as nat,
                old(self).active_seq(),
                old(self).len as int,
                old(self).chars,
            ),
            final(self).display_buf@.len() == 0,
            *final(self) == (Hedu {
                display_buf: final(self).display_buf,
                out: final(self).out,
                ..*old(self)
            }),
    {
        let b = self.snapshot_active();
        let idx = self.data_idx;
        let l = self.len;
        let ch = self.chars;
        append_data_line(&mut self.display_buf, idx, &b, l, ch);
        self.display();
    }

    /// Render the row read before the last one (the inactive buffer half)
    /// as one full-width output row.
    fn dump_prev_line(&mut self)
        requires
            old(self).wf(),
        ensures
            final(self).wf(),
            final(self).out@.len() == old(self).out@.len() + 1,
            final(self).out@.subrange(0, old(self).out@.len() as int) == old(self).out@,
            final(self).out@.last()@ == old(self).display_buf@ + spec_data_line(
                old(self).data_idx as nat,
                old(self).inactive_seq(),
                BYTES_PER_LINE as int,
                old(self).chars,
            ),
            final(self).display_buf@.len() == 0,
            *final(self) == (Hedu {
                display_buf: final(self).display_buf,
                out: final(self).out,
                ..*old(self)
            }),
    {
        let b = self.snapshot_inactive();
        let idx = self.data_idx;
        let ch = self.chars;
        append_data_line(&mut self.display_buf, idx, &b, BYTES_PER_LINE, ch);
        self.display();
    }

    /// Emit the title row.
    fn emit_header(&mut self)
        requires
            old(self).wf(),
        ensures
            final(self).wf(),
            final(self).out@.len() == old(self).out@.len() + 1,
            final(self).out@.subrange(0, old(self).out@.len() as int) == old(self).out@,
            final(self).out@.last()@ == old(self).display_buf@ + spec_header(old(self).chars),
            final(self).display_buf@.len() == 0,
            *final(self) == (Hedu {
                display_buf: final(self).display_buf,
                out: final(self).out,
                ..*old(self)
            }),
    {
        self.display_buf.append("DATA IDX │ DATA AS HEX");
        if self.chars {
            self.display_buf.append(
                "                                      │ DATA AS CHAR",
            );
        }
        self.display();
    }

    /// Record the diagnostic that a skip was requested on a source that
    /// cannot reposition.
    fn warn_skip(&mut self)
        ensures
            final(self).warnings@.len() == old(self).warnings@.len() + 1,
            final(self).warnings@.subrange(0, old(self).warnings@.len() as int) == old(self).warnings@,
            final(self).warnings@.last()@ == "can't skip bytes for this data source!"@,
            *final(self) == (Hedu { warnings: final(self).warnings, ..*old(self) }),
    {
        self.warnings.push("can't skip bytes for this data source!".to_owned());
        proof {
            assert(self.warnings@.subrange(0, old(self).warnings@.len() as int) =~= old(self).warnings@);
        }
    }

    /// A copy of the buffer half holding the row read last.
    fn snapshot_active(&self) -> (v: Vec<u8>)
        requires
            self.wf(),
        ensures
            v@ == self.active_seq(),
            v@.len() == BYTES_PER_LINE,
    {
        if self.alt_buf == 0 {
            copy_row(&self.buf0)
        } else {
            copy_row(&self.buf1)
        }
    }

    /// A copy of the buffer half holding the row read before the last one.
    fn snapshot_inactive(&self) -> (v: Vec<u8>)
        requires
            self.wf(),
        ensures
            v@ == self.inactive_seq(),
            v@.len() == BYTES_PER_LINE,
    {
        if self.alt_buf == 0 {
            copy_row(&self.buf1)
        } else {
            copy_row(&self.buf0)
        }
    }

    /// Whether the two buffer halves hold bitwise identical rows.
    fn buffers_equal(&self) -> (r: bool)
        requires
            self.wf(),
        ensures
            r == (self.buf0@ == self.buf1@),
    {
        let mut i: usize = 0;
        while i < BYTES_PER_LINE
            invariant
                i <= BYTES_PER_LINE,
                self.wf(),
                forall|j: int| 0 <= j < i ==> self.buf0@[j] == self.buf1@[j],
            decreases BYTES_PER_LINE - i,
        {
            if self.buf0[i] != self.buf1[i] {
                return false;
            }
            i = i + 1;
        }
        proof {
            assert(self.buf0@ =~= self.buf1@);
        }
        true
    }

    /// Read one row from the source into the buffer half that held the
    /// older row, making it the active half, and advance the counters;
    /// a read that would cross the byte limit is truncated to the
    /// remainder and ends the dump.
    fn rd_data<S: DataSource>(&mut self, data: &mut S) -> (r: Result<(), DumpError>)
        requires
            old(self).wf(),
            !old(self).stop,
            0 <= old(data).pos() <= old(data).data().len(),
            old(self).rd_counter + 2 * BYTES_PER_LINE <= usize::MAX,
            old(self).data_idx + BYTES_PER_LINE <= usize::MAX,
        ensures
            final(self).wf(),
            final(data).data() == old(data).data(),
            final(data).seekable() == old(data).seekable(),
            final(data).infallible() == old(data).infallible(),
            old(data).infallible() ==> r is Ok,
            r is Err ==> *final(self) == *old(self),
            r is Ok ==> ({
                let take = min_int(
                    BYTES_PER_LINE as int,
                    old(data).data().len() - old(data).pos(),
                );
                let trunc = old(self).limit != 0 && old(self).rd_counter + (BYTES_PER_LINE - 1)
                    >= old(self).limit;
                &&& final(data).pos() == old(data).pos() + take
                &&& final(self).stop == trunc
                &&& final(self).len as int == if trunc {
                    min_int(old(self).limit as int % BYTES_PER_LINE as int, take)
                } else {
                    take
                }
                &&& final(self).len as int <= take
                &&& final(self).alt_buf == 1 - old(self).alt_buf
                &&& final(self).active_seq() == old(data).data().subrange(
                    old(data).pos(),
                    old(data).pos() + take,
                ) + old(self).inactive_seq().skip(take)
                &&& final(self).inactive_seq() == old(self).active_seq()
                &&& final(self).rd_counter == old(self).rd_counter + final(self).len
                &&& final(self).data_idx == old(self).data_idx + final(self).len
                &&& final(self).reads@ == old(self).reads@.push(final(self).len as int)
                &&& final(self).chars == old(self).chars
                &&& final(self).skip == old(self).skip
                &&& final(self).show_identical == old(self).show_identical
                &&& final(self).limit == old(self).limit
                &&& final(self).display_buf == old(self).display_buf
                &&& final(self).first_iter == old(self).first_iter
                &&& final(self).out == old(self).out
                &&& final(self).warnings == old(self).warnings
            }),
    {
        match data.read(BYTES_PER_LINE) {
            Ok(v) => {
                self.alt_buf = 1 - self.alt_buf;
                if self.alt_buf == 0 {
                    copy_into(&mut self.buf0, &v);
                } else {
                    copy_into(&mut self.buf1, &v);
                }
                let mut l: usize = v.len();
                if self.limit != 0 && self.rd_counter + (BYTES_PER_LINE - 1) >= self.limit {
                    // the effective length is the limit's remainder, but a
                    // truncation never reports more bytes than were read
                    let rem = self.limit % BYTES_PER_LINE;
                    if rem < l {
                        l = rem;
                    }
                    self.stop = true;
                }
                self.len = l;
                self.reads = Ghost(self.reads@.push(l as int));
                self.adjust_counters();
                Ok(())
            },
            Err(e) => Err(e),
        }
    }
}

impl Hedu {
    /// Consume a run of identical full rows: keep reading while the freshly
    /// read row equals the previous one bitwise; rows that will never be
    /// rendered individually are summarized by one marker row; when the run
    /// ends the stream, the last duplicate is still rendered individually.
    fn skip_lines<S: DataSource>(&mut self, data: &mut S) -> (r: Result<(), DumpError>)
        requires
            old(self).wf(),
            !old(self).stop,
            old(self).len == BYTES_PER_LINE,
            old(self).buf0@ == old(self).buf1@,
            old(self).display_buf@.len() == 0,
            !old(self).show_identical,
            0 <= old(data).pos() <= old(data).data().len(),
            old(data).pos() >= BYTES_PER_LINE,
            old(self).active_seq() == old(data).data().subrange(
                old(data).pos() - BYTES_PER_LINE,
                old(data).pos(),
            ),
            old(self).consumed() >= 0,
            old(self).consumed() % 16 == 0,
            old(self).limit > 0 ==> old(self).rd_counter <= old(self).limit,
            old(self).rd_counter + 2 * BYTES_PER_LINE + (old(data).data().len() - old(data).pos()) <= usize::MAX,
            old(self).data_idx + 2 * BYTES_PER_LINE + (old(data).data().len() - old(data).pos())
                <= usize::MAX,
        ensures
            final(self).wf(),
            final(data).data() == old(data).data(),
            final(data).seekable() == old(data).seekable(),
            final(data).infallible() == old(data).infallible(),
            old(data).infallible() ==> r is Ok,
            final(self).chars == old(self).chars,
            final(self).skip == old(self).skip,
            final(self).show_identical == old(self).show_identical,
            final(self).limit == old(self).limit,
            final(self).first_iter == old(self).first_iter,
            final(self).warnings == old(self).warnings,
            final(self).display_buf@.len() == 0,
            r is Err ==> final(self).out@ == old(self).out@,
            r is Ok ==> ({
                &&& 0 <= final(data).pos() <= final(data).data().len()
                &&& final(data).pos() >= old(data).pos()
                &&& (final(self).stop || final(self).len < BYTES_PER_LINE || final(self).buf0@
                    != final(self).buf1@)
                &&& final(self).rd_counter >= old(self).rd_counter
                &&& final(self).data_idx - old(self).data_idx == final(self).rd_counter - old(self).rd_counter
                &&& seq_sum(final(self).reads@) - seq_sum(old(self).reads@) == final(self).rd_counter - old(self).rd_counter
                &&& (!final(self).stop ==> final(self).rd_counter - old(self).rd_counter == final(data).pos() - old(data).pos())
                &&& (final(self).stop ==> final(self).rd_counter - old(self).rd_counter <= final(data).pos() - old(data).pos() + BYTES_PER_LINE)
                &&& (!final(self).stop ==> final(self).consumed() % 16 == final(self).len as int
                    % 16)
                &&& (final(self).limit > 0 ==> final(self).consumed() <= final(self).limit)
                &&& (!final(self).stop && final(self).limit > 0 ==> final(self).rd_counter
                    <= final(self).limit)
                &&& (final(self).stop ==> final(self).len as int <= final(self).limit as int % 16
                    && final(self).limit > 0 && final(self).rd_counter + BYTES_PER_LINE > final(self).limit)
                &&& final(self).out@.len() >= old(self).out@.len() + 1
                &&& final(self).out@.len() <= old(self).out@.len() + 2
                &&& final(self).out@.subrange(0, old(self).out@.len() as int) == old(self).out@
                &&& (forall|i: int|
                    old(self).out@.len() <= i < final(self).out@.len() ==> is_marker_line(
                        #[trigger] final(self).out@[i]@,
                    ) || is_data_rendering(final(self).out@[i]@, old(self).chars))
                // at most one of the appended rows is a marker
                &&& (forall|i: int, j: int|
                    old(self).out@.len() <= i < final(self).out@.len() && old(self).out@.len()
                        <= j < final(self).out@.len() && is_marker_line(
                        #[trigger] final(self).out@[i]@,
                    ) && is_marker_line(#[trigger] final(self).out@[j]@) ==> i == j)
                // a marker appears exactly when rows were consumed here
                &&& (final(self).rd_counter > old(self).rd_counter ==> exists|i: int|
                    old(self).out@.len() <= i < final(self).out@.len() && is_marker_line(
                        #[trigger] final(self).out@[i]@,
                    ))
                // when a marker ends the appended rows, the run's ending
                // row is still buffered and will be rendered by the caller
                &&& (is_marker_line(final(self).out@.last()@) ==> final(self).len > 0)
                // nothing was consumed only when the run began at the end
                // of the source
                &&& (!final(self).stop && final(self).rd_counter == old(self).rd_counter ==> old(data).pos() == old(data).data().len())
                // a short ending row means the source is exhausted
                &&& (!final(self).stop && final(self).len < BYTES_PER_LINE ==> final(data).pos()
                    == final(data).data().len())
                // a full differing ending row is the freshest row of the
                // source, with the last duplicate before it
                &&& (!final(self).stop && final(self).len == BYTES_PER_LINE ==> ({
                    &&& final(data).pos() >= 2 * BYTES_PER_LINE
                    &&& final(self).active_seq() == final(data).data().subrange(
                        final(data).pos() - BYTES_PER_LINE,
                        final(data).pos(),
                    )
                    &&& final(self).inactive_seq() == final(data).data().subrange(
                        final(data).pos() - 2 * BYTES_PER_LINE,
                        final(data).pos() - BYTES_PER_LINE,
                    )
                }))
                // the run's ending row sits at source position `pp`: the
                // last duplicate fills the buffer half before it, and the
                // ending row's valid bytes are the source bytes from `pp`
                &&& ({
                    let pp = old(data).pos() + (final(self).rd_counter - old(self).rd_counter)
                        - final(self).len;
                    let kd = final(self).rd_counter - old(self).rd_counter;
                    &&& BYTES_PER_LINE <= pp
                    &&& pp + final(self).len <= final(data).pos()
                    &&& final(self).inactive_seq() == final(data).data().subrange(
                        pp - BYTES_PER_LINE,
                        pp,
                    )
                    &&& final(self).active_seq().take(final(self).len as int) == final(data).data().subrange(pp, pp + final(self).len)
                    // a run ending at the stream end renders the last
                    // duplicate as the appended data row
                    &&& (final(self).len == 0 ==> final(self).out@.last()@ == spec_data_line(
                        final(self).data_idx as nat,
                        final(data).data().subrange(pp - BYTES_PER_LINE, pp),
                        BYTES_PER_LINE as int,
                        old(self).chars,
                    ))
                    // the marker row, when present, is the first appended
                    // row and counts exactly the rows never rendered
                    &&& (final(self).len == 0 && kd > 0 ==> final(self).out@.len() == old(self).out@.len() + 2 && final(self).out@[old(self).out@.len() as int]@
                        == spec_marker_line((kd / 16) as nat, old(self).chars) && 16 * (kd / 16)
                        == kd && kd / 16 >= 1)
                    &&& (final(self).len == 0 && kd == 0 ==> final(self).out@.len() == old(self).out@.len() + 1)
                    &&& (final(self).len > 0 ==> final(self).out@.len() == old(self).out@.len()
                        + 1 && final(self).out@[old(self).out@.len() as int]@ == spec_marker_line(
                        ((kd - final(self).len) / 16 + 1) as nat,
                        old(self).chars,
                    ) && 16 * ((kd - final(self).len) / 16) == kd - final(self).len)
                })
            }),
    {
        let mut pending: usize = 1;
        loop
            invariant_except_break
                !self.stop,
                self.len == BYTES_PER_LINE,
                self.buf0@ == self.buf1@,
                data.pos() >= BYTES_PER_LINE,
                self.active_seq() == data.data().subrange(
                    data.pos() - BYTES_PER_LINE,
                    data.pos(),
                ),
                16 * (pending - 1) == self.rd_counter - old(self).rd_counter,
                self.rd_counter - old(self).rd_counter == data.pos() - old(data).pos(),
                self.consumed() % 16 == 0,
                self.limit > 0 ==> self.rd_counter <= self.limit,
                self.rd_counter + 2 * BYTES_PER_LINE + (data.data().len() - data.pos())
                    <= usize::MAX,
                self.data_idx + 2 * BYTES_PER_LINE + (data.data().len() - data.pos())
                    <= usize::MAX,
            invariant
                self.wf(),
                old(self).display_buf@.len() == 0,
                self.chars == old(self).chars,
                self.skip == old(self).skip,
                self.show_identical == old(self).show_identical,
                self.limit == old(self).limit,
                self.first_iter == old(self).first_iter,
                self.display_buf == old(self).display_buf,
                self.out == old(self).out,
                self.warnings == old(self).warnings,
                data.data() == old(data).data(),
                data.seekable() == old(data).seekable(),
                data.infallible() == old(data).infallible(),
                0 <= data.pos() <= data.data().len(),
                data.pos() >= old(data).pos(),
                pending >= 1,
                self.data_idx - old(self).data_idx == self.rd_counter - old(self).rd_counter,
                seq_sum(self.reads@) - seq_sum(old(self).reads@) == self.rd_counter - old(self).rd_counter,
                self.consumed() >= 0,
            ensures
                self.wf(),
                self.chars == old(self).chars,
                self.skip == old(self).skip,
                self.show_identical == old(self).show_identical,
                self.limit == old(self).limit,
                self.first_iter == old(self).first_iter,
                self.display_buf == old(self).display_buf,
                self.out == old(self).out,
                self.warnings == old(self).warnings,
                data.data() == old(data).data(),
                data.seekable() == old(data).seekable(),
                0 <= data.pos() <= data.data().len(),
                data.pos() >= old(data).pos(),
                pending >= 1,
                !(self.buf0@ == self.buf1@ && self.len == BYTES_PER_LINE && !self.stop),
                self.rd_counter - old(self).rd_counter == 16 * (pending - 1) + self.len,
                self.data_idx - old(self).data_idx == self.rd_counter - old(self).rd_counter,
                seq_sum(self.reads@) - seq_sum(old(self).reads@) == self.rd_counter - old(self).rd_counter,
                !self.stop ==> self.rd_counter - old(self).rd_counter == data.pos() - old(data).pos(),
                self.stop ==> self.rd_counter - old(self).rd_counter <= data.pos() - old(data).pos() + BYTES_PER_LINE,
                !self.stop ==> self.consumed() % 16 == self.len as int % 16,
                self.limit > 0 ==> self.consumed() <= self.limit,
                !self.stop && self.limit > 0 ==> self.rd_counter <= self.limit,
                self.stop ==> self.len as int <= self.limit as int % 16 && self.limit > 0
                    && self.rd_counter + BYTES_PER_LINE > self.limit,
                self.rd_counter + BYTES_PER_LINE <= usize::MAX,
                self.data_idx + BYTES_PER_LINE <= usize::MAX,
                !self.stop && self.len < BYTES_PER_LINE ==> data.pos() == data.data().len(),
                !self.stop && self.len == BYTES_PER_LINE ==> ({
                    &&& data.pos() >= 2 * BYTES_PER_LINE
                    &&& self.active_seq() == data.data().subrange(
                        data.pos() - BYTES_PER_LINE,
                        data.pos(),
                    )
                    &&& self.inactive_seq() == data.data().subrange(
                        data.pos() - 2 * BYTES_PER_LINE,
                        data.pos() - BYTES_PER_LINE,
                    )
                }),
                ({
                    let pp = old(data).pos() + (self.rd_counter - old(self).rd_counter)
                        - self.len;
                    &&& BYTES_PER_LINE <= pp
                    &&& pp + self.len <= data.pos()
                    &&& self.inactive_seq() == data.data().subrange(pp - BYTES_PER_LINE, pp)
                    &&& self.active_seq().take(self.len as int) == data.data().subrange(
                        pp,
                        pp + self.len,
                    )
                }),
            decreases data.data().len() - data.pos(),
        {
            let ghost pre = *self;
            match self.rd_data(data) {
                Ok(()) => {},
                Err(e) => {
                    return Err(e);
                },
            }
            proof {
                lemma_seq_sum_push(pre.reads@, self.len as int);
                if self.stop {
                    lemma_mod16_fill(pre.consumed(), self.limit as int);
                }
                if !self.stop && self.len == BYTES_PER_LINE {
                    assert(pre.inactive_seq().skip(BYTES_PER_LINE as int) =~= Seq::<u8>::empty());
                    assert(self.active_seq() =~= data.data().subrange(
                        data.pos() - BYTES_PER_LINE,
                        data.pos(),
                    ));
                }
                let ghost ppb: int = old(data).pos() + (self.rd_counter - old(self).rd_counter)
                    - self.len;
                assert(self.active_seq().take(self.len as int) =~= data.data().subrange(
                    ppb,
                    ppb + self.len,
                ));
            }
            let eq = self.buffers_equal();
            if eq && self.len == BYTES_PER_LINE && !self.stop {
                pending = pending + 1;
            } else {
                break ;
            }
        }
        let ch = self.chars;
        let ghost base = self.out@.len() as int;
        if self.len == 0 {
            if pending >= 2 {
                append_marker(&mut self.display_buf, pending - 1, ch);
                proof {
                    lemma_marker_is_marker((pending - 1) as nat, ch);
                }
                self.display();
                proof {
                    assert(is_marker_line(self.out@[base]@));
                    assert(self.out@[base]@ =~= spec_marker_line((pending - 1) as nat, ch));
                    let kd: int = self.rd_counter - old(self).rd_counter;
                    assert(kd == 16 * (pending - 1));
                    assert(kd / 16 == pending - 1) by (nonlinear_arith)
                        requires
                            kd == 16 * (pending - 1),
                            pending >= 1,
                    ;
                }
            }
            let ghost mid = *self;
            self.dump_prev_line();
            proof {
                assert(self.out@.last()@ == spec_data_line(
                    mid.data_idx as nat,
                    mid.inactive_seq(),
                    BYTES_PER_LINE as int,
                    ch,
                ));
                assert(is_data_rendering(self.out@.last()@, ch));
                lemma_data_line_not_marker(
                    mid.data_idx as nat,
                    mid.inactive_seq(),
                    BYTES_PER_LINE as int,
                    ch,
                );
                assert(self.out@.last()@ =~= spec_data_line(
                    mid.data_idx as nat,
                    mid.inactive_seq(),
                    BYTES_PER_LINE as int,
                    ch,
                ));
                assert(self.out@.subrange(0, old(self).out@.len() as int) =~= old(self).out@);
                if pending >= 2 {
                    assert(self.out@[base] == self.out@.subrange(0, mid.out@.len() as int)[base]);
                    assert(is_marker_line(self.out@[base]@));
                    assert(self.out@[base]@ =~= spec_marker_line((pending - 1) as nat, ch));
                }
            }
        } else {
            append_marker(&mut self.display_buf, pending, ch);
            proof {
                lemma_marker_is_marker(pending as nat, ch);
            }
            self.display();
            proof {
                assert(is_marker_line(self.out@[base]@));
                assert(self.out@[base]@ =~= spec_marker_line(pending as nat, ch));
                let kd: int = self.rd_counter - old(self).rd_counter;
                assert(kd - self.len == 16 * (pending - 1));
                assert((kd - self.len) / 16 == pending - 1) by (nonlinear_arith)
                    requires
                        kd - self.len == 16 * (pending - 1),
                        pending >= 1,
                ;
            }
        }
        Ok(())
    }
}

/// Where the read position stands after the skip phase: a positive skip
/// moves a seekable source forward, any other source stays put.
pub open spec fn skip_target(seekable: bool, p: int, n: int, dlen: int) -> int {
    if n > 0 && seekable {
        min_int(p + n, dlen)
    } else {
        p
    }
}

impl Hedu {
    /// Dump the whole source: skip the configured prefix, emit the title
    /// and a separator, render every row (collapsing duplicate runs unless
    /// told otherwise), and close with a separator and the byte-count
    /// summary row.
    #[verifier::rlimit(100)]
    #[verifier::spinoff_prover]
    pub fn dump<S: DataSource>(&mut self, data: &mut S) -> (r: Result<(), DumpError>)
        requires
            old(self).fresh(),
            0 <= old(data).pos() <= old(data).data().len(),
            old(self).skip + old(data).data().len() + 4 * BYTES_PER_LINE <= usize::MAX,
        ensures
            final(self).wf(),
            final(data).data() == old(data).data(),
            final(data).seekable() == old(data).seekable(),
            final(self).chars == old(self).chars,
            final(self).skip == old(self).skip,
            final(self).show_identical == old(self).show_identical,
            final(self).limit == old(self).limit,
            final(data).infallible() == old(data).infallible(),
            old(data).infallible() ==> r is Ok,
            // a failed dump keeps every row emitted before the failure:
            // the title, the separator and the body rows so far, with no
            // closing separator or summary appended
            r is Err ==> (final(self).out@.len() == 0 || (final(self).out@.len() >= 2 && final(self).out@[0]@ == spec_header(old(self).chars) && final(self).out@[1]@ == spec_sep_line(
                old(self).chars,
            ) && (forall|i: int|
                2 <= i < final(self).out@.len() ==> is_marker_line(#[trigger] final(self).out@[i]@)
                    || is_data_rendering(final(self).out@[i]@, old(self).chars)))),
            r is Ok ==> ({
                let pos1 = skip_target(
                    old(data).seekable(),
                    old(data).pos(),
                    old(self).skip as int,
                    old(data).data().len() as int,
                );
                // a skip on a non-seekable source leaves exactly one
                // diagnostic behind; every other run leaves none
                &&& ((old(self).skip > 0 && !old(data).seekable()) <==> final(self).warnings@.len() == 1)
                &&& (!(old(self).skip > 0 && !old(data).seekable()) ==> final(self).warnings@.len() == 0)
                &&& (final(self).warnings@.len() == 1 ==> final(self).warnings@[0]@
                    == "can't skip bytes for this data source!"@)
                // the source is consumed from the skip target to its end,
                // or up to the byte limit when a read was truncated
                &&& pos1 <= final(data).pos() <= final(data).data().len()
                &&& (!final(self).stop ==> final(data).pos() == old(data).data().len())
                // the summary counter is the skipped prefix plus every
                // read's effective length
                &&& final(self).rd_counter as int == old(self).skip + seq_sum(final(self).reads@)
                // without a truncation, the effective lengths are exactly
                // the bytes consumed from the skip target onward
                &&& (!final(self).stop ==> seq_sum(final(self).reads@) == final(data).pos()
                    - pos1)
                // a positive limit caps the bytes handed to the renderer
                &&& (final(self).limit > 0 ==> seq_sum(final(self).reads@) <= final(self).limit)
                // a truncation leaves exactly the remainder in the last row
                &&& (final(self).stop ==> final(self).len as int <= final(self).limit as int % 16
                    && final(self).limit > 0 && final(self).rd_counter + BYTES_PER_LINE > final(self).limit)
                // the emitted rows: title, separator, body rows, separator,
                // summary; each body row is a data row or a collapse marker
                &&& final(self).out@.len() >= 4
                &&& final(self).out@[0]@ == spec_header(old(self).chars)
                &&& final(self).out@[1]@ == spec_sep_line(old(self).chars)
                &&& final(self).out@[final(self).out@.len() - 2]@ == spec_sep_line(
                    old(self).chars,
                )
                &&& final(self).out@[final(self).out@.len() - 1]@ == spec_summary_line(
                    final(self).rd_counter as nat,
                    old(self).chars,
                )
                &&& (forall|i: int|
                    2 <= i < final(self).out@.len() - 2 ==> is_marker_line(
                        #[trigger] final(self).out@[i]@,
                    ) || is_data_rendering(final(self).out@[i]@, old(self).chars))
                // with duplicate rows shown, no marker row ever appears
                &&& (old(self).show_identical ==> forall|i: int|
                    2 <= i < final(self).out@.len() - 2 ==> !is_marker_line(
                        #[trigger] final(self).out@[i]@,
                    ))
                // every body row is tied to the source: data rows show
                // the source bytes at their position, marker rows stand for
                // runs of full rows, and together they cover the source
                // contiguously from the skip target onward
                &&& (exists|desc: Seq<(bool, int, int, nat)>, dend: int|
                    dump_body_described(
                        final(self).out@,
                        desc,
                        old(data).data(),
                        pos1,
                        dend,
                        old(self).chars,
                    ) && pos1 <= dend <= final(data).pos() && (!final(self).stop ==> dend
                        == final(data).pos()))
                // at least one row is rendered, and the first and the last
                // rendered body rows are always individual data rows
                &&& final(self).out@.len() >= 5
                &&& is_data_rendering(final(self).out@[2]@, old(self).chars)
                &&& is_data_rendering(
                    final(self).out@[final(self).out@.len() - 3]@,
                    old(self).chars,
                )
                // a source of identical bytes, more than two full rows
                // long, read whole from its start with collapsing on,
                // yields exactly one duplicate-run marker
                &&& ((!old(self).show_identical && old(self).limit == 0 && old(self).skip == 0
                    && old(data).pos() == 0 && all_same(old(data).data()) && old(data).data().len() > 2 * BYTES_PER_LINE) ==> exactly_one_marker_row(
                    final(self).out@,
                    2,
                    final(self).out@.len() - 2,
                ))
            }),
    {
        let ghost d0 = data.data();
        let ghost sk = data.seekable();
        let ghost p0 = data.pos();
        if self.skip > 0 {
            let n = self.skip;
            match data.skip(n) {
                Ok(applied) => {
                    if !applied {
                        self.warn_skip();
                    }
                    self.rd_counter = self.rd_counter + self.skip;
                },
                Err(e) => {
                    return Err(e);
                },
            }
        }
        let ghost pos1 = data.pos();
        proof {
            assert(pos1 == skip_target(sk, p0, self.skip as int, d0.len() as int));
        }
        let ghost warns1 = self.warnings@;
        self.emit_header();
        self.sep();
        let ghost prime = *self;
        match self.rd_data(data) {
            Ok(()) => {},
            Err(e) => {
                return Err(e);
            },
        }
        let ghost hh = !self.show_identical && self.limit == 0 && self.skip == 0 && p0 == 0
            && all_same(d0) && d0.len() > 2 * BYTES_PER_LINE;
        proof {
            lemma_seq_sum_push(prime.reads@, self.len as int);
            if self.stop {
                lemma_mod16_fill(0, self.limit as int);
            }
            if hh {
                assert(prime.inactive_seq().skip(BYTES_PER_LINE as int) =~= Seq::<u8>::empty());
                assert(self.active_seq() =~= d0.subrange(0, BYTES_PER_LINE as int));
            }
        }
        self.data_idx = 0;
        let ghost mut desc: Seq<(bool, int, int, nat)> = Seq::empty();
        let ghost mut acc: int = pos1;
        loop
            invariant_except_break
                self.active_seq().take(self.len as int) == d0.subrange(acc, acc + self.len),
                acc + self.len <= data.pos(),
                (self.len > 0 || self.first_iter) ==> self.data_idx as int == row_off(
                    desc.len() == 0,
                    acc,
                    self.len as int,
                    pos1,
                ),
                !self.stop ==> acc == pos1 + self.consumed() - self.len,
                desc.len() > 0 ==> acc >= pos1 + BYTES_PER_LINE,
            invariant
                desc_chain(desc, pos1, acc),
                self.out@.len() == desc.len() + 2,
                forall|i: int|
                    0 <= i < desc.len() ==> row_matches(
                        #[trigger] self.out@[i + 2]@,
                        desc[i],
                        d0,
                        pos1,
                        i == 0,
                        old(self).chars,
                    ),
                forall|i: int| 0 < i < desc.len() ==> (#[trigger] desc[i]).0 || desc[i].2 > 0,
                pos1 <= acc <= d0.len(),
                self.first_iter ==> desc.len() == 0 && acc == pos1,
                self.wf(),
                d0 == old(data).data(),
                sk == old(data).seekable(),
                p0 == old(data).pos(),
                pos1 == skip_target(sk, p0, old(self).skip as int, d0.len() as int),
                self.chars == old(self).chars,
                self.skip == old(self).skip,
                self.show_identical == old(self).show_identical,
                self.limit == old(self).limit,
                old(self).skip + d0.len() + 4 * BYTES_PER_LINE <= usize::MAX,
                data.data() == d0,
                data.seekable() == sk,
                data.infallible() == old(data).infallible(),
                0 <= pos1 <= data.pos() <= d0.len(),
                !self.stop && self.len < BYTES_PER_LINE ==> data.pos() == d0.len(),
                self.display_buf@.len() == 0,
                self.out@.len() >= 2,
                self.out@[0]@ == spec_header(old(self).chars),
                self.out@[1]@ == spec_sep_line(old(self).chars),
                forall|i: int|
                    2 <= i < self.out@.len() ==> is_marker_line(#[trigger] self.out@[i]@)
                        || is_data_rendering(self.out@[i]@, old(self).chars),
                old(self).show_identical ==> (forall|i: int|
                    2 <= i < self.out@.len() ==> !is_marker_line(#[trigger] self.out@[i]@)),
                self.warnings@ == warns1,
                self.rd_counter as int == old(self).skip + seq_sum(self.reads@),
                self.consumed() >= 0,
                self.data_idx <= self.consumed(),
                !self.stop ==> self.consumed() == data.pos() - pos1,
                self.stop ==> self.consumed() <= data.pos() - pos1 + BYTES_PER_LINE,
                !self.stop ==> self.consumed() % 16 == self.len as int % 16,
                self.limit > 0 && !self.stop ==> self.rd_counter <= self.limit,
                self.limit > 0 ==> self.consumed() <= self.limit,
                self.stop ==> self.len as int <= self.limit as int % 16 && self.limit > 0
                    && self.rd_counter + BYTES_PER_LINE > self.limit,
                !self.first_iter ==> self.out@.len() >= 3,
                self.out@.len() > 2 ==> !is_marker_line(self.out@[2]@),
                self.out@.len() > 2 && is_marker_line(self.out@.last()@) ==> self.len > 0,
                hh == (!old(self).show_identical && old(self).limit == 0 && old(self).skip == 0
                    && p0 == 0 && all_same(d0) && d0.len() > 2 * BYTES_PER_LINE),
                hh ==> ((no_marker_rows(self.out@, 2, self.out@.len() as int) && !self.stop
                    && self.len == BYTES_PER_LINE && self.consumed() == BYTES_PER_LINE
                    && data.pos() == BYTES_PER_LINE && self.active_seq() == d0.subrange(
                    0,
                    BYTES_PER_LINE as int,
                )) || (exactly_one_marker_row(self.out@, 2, self.out@.len() as int) && self.len
                    < BYTES_PER_LINE)),
            ensures
                self.wf(),
                self.chars == old(self).chars,
                self.skip == old(self).skip,
                self.show_identical == old(self).show_identical,
                self.limit == old(self).limit,
                data.data() == d0,
                data.seekable() == sk,
                data.infallible() == old(data).infallible(),
                0 <= pos1 <= data.pos() <= d0.len(),
                !self.stop && self.len < BYTES_PER_LINE ==> data.pos() == d0.len(),
                self.display_buf@.len() == 0,
                self.out@.len() >= 2,
                self.out@[0]@ == spec_header(old(self).chars),
                self.out@[1]@ == spec_sep_line(old(self).chars),
                forall|i: int|
                    2 <= i < self.out@.len() ==> is_marker_line(#[trigger] self.out@[i]@)
                        || is_data_rendering(self.out@[i]@, old(self).chars),
                old(self).show_identical ==> (forall|i: int|
                    2 <= i < self.out@.len() ==> !is_marker_line(#[trigger] self.out@[i]@)),
                self.warnings@ == warns1,
                self.rd_counter as int == old(self).skip + seq_sum(self.reads@),
                self.consumed() >= 0,
                self.data_idx <= self.consumed(),
                !self.stop ==> self.consumed() == data.pos() - pos1,
                !self.stop ==> self.consumed() % 16 == self.len as int % 16,
                self.limit > 0 ==> self.consumed() <= self.limit,
                self.stop ==> self.len as int <= self.limit as int % 16 && self.limit > 0
                    && self.rd_counter + BYTES_PER_LINE > self.limit,
                self.stop || self.len < BYTES_PER_LINE,
                desc_chain(desc, pos1, acc),
                self.out@.len() == desc.len() + 2,
                forall|i: int|
                    0 <= i < desc.len() ==> row_matches(
                        #[trigger] self.out@[i + 2]@,
                        desc[i],
                        d0,
                        pos1,
                        i == 0,
                        old(self).chars,
                    ),
                forall|i: int| 0 < i < desc.len() ==> (#[trigger] desc[i]).0 || desc[i].2 > 0,
                pos1 <= acc <= data.pos(),
                !self.stop ==> acc == pos1 + self.consumed(),
                self.out@.len() >= 3,
                !is_marker_line(self.out@[2]@),
                !is_marker_line(self.out@.last()@),
                hh ==> exactly_one_marker_row(self.out@, 2, self.out@.len() as int),
            decreases d0.len() - data.pos(), self.len,
        {
            if !(self.len > 0 || self.first_iter) {
                break ;
            }
            self.first_iter = false;
            let ghost pre = *self;
            self.dump_a_line();
            proof {
                let line = self.out@.last()@;
                assert(pre.display_buf@ + spec_data_line(
                    pre.data_idx as nat,
                    pre.active_seq(),
                    pre.len as int,
                    pre.chars,
                ) =~= spec_data_line(
                    pre.data_idx as nat,
                    pre.active_seq(),
                    pre.len as int,
                    pre.chars,
                ));
                assert(line == spec_data_line(
                    pre.data_idx as nat,
                    pre.active_seq(),
                    pre.len as int,
                    pre.chars,
                ));
                assert(is_data_rendering(line, pre.chars));
                lemma_data_line_not_marker(
                    pre.data_idx as nat,
                    pre.active_seq(),
                    pre.len as int,
                    pre.chars,
                );
                assert forall|i: int| 2 <= i < self.out@.len() implies is_marker_line(
                    #[trigger] self.out@[i]@,
                ) || is_data_rendering(self.out@[i]@, old(self).chars) by {
                    if i < self.out@.len() - 1 {
                        assert(self.out@[i] == self.out@.subrange(0, pre.out@.len() as int)[i]);
                    }
                }
                if old(self).show_identical {
                    assert forall|i: int| 2 <= i < self.out@.len() implies !is_marker_line(
                        #[trigger] self.out@[i]@,
                    ) by {
                        if i < self.out@.len() - 1 {
                            assert(self.out@[i] == self.out@.subrange(
                                0,
                                pre.out@.len() as int,
                            )[i]);
                        }
                    }
                }
                assert(!is_marker_line(self.out@.last()@));
                if pre.out@.len() > 2 {
                    assert(self.out@[2] == self.out@.subrange(0, pre.out@.len() as int)[2]);
                }
                assert(!is_marker_line(self.out@[2]@));
                if hh {
                    if pre.len == BYTES_PER_LINE {
                        assert forall|i: int| 2 <= i < self.out@.len() implies !is_marker_line(
                            #[trigger] self.out@[i]@,
                        ) by {
                            if i < self.out@.len() - 1 {
                                assert(self.out@[i] == self.out@.subrange(
                                    0,
                                    pre.out@.len() as int,
                                )[i]);
                            }
                        }
                        assert(no_marker_rows(self.out@, 2, self.out@.len() as int));
                    } else {
                        let w = choose|i: int|
                            2 <= i < pre.out@.len() && is_marker_line(#[trigger] pre.out@[i]@);
                        assert(self.out@[w] == self.out@.subrange(0, pre.out@.len() as int)[w]);
                        assert(is_marker_line(self.out@[w]@));
                        assert forall|i: int, j: int|
                            2 <= i < self.out@.len() && 2 <= j < self.out@.len()
                                && is_marker_line(#[trigger] self.out@[i]@) && is_marker_line(
                                #[trigger] self.out@[j]@,
                            ) implies i == j by {
                            if i < self.out@.len() - 1 {
                                assert(self.out@[i] == self.out@.subrange(
                                    0,
                                    pre.out@.len() as int,
                                )[i]);
                            }
                            if j < self.out@.len() - 1 {
                                assert(self.out@[j] == self.out@.subrange(
                                    0,
                                    pre.out@.len() as int,
                                )[j]);
                            }
                        }
                        assert(exactly_one_marker_row(self.out@, 2, self.out@.len() as int));
                    }
                }
                let rrow: (bool, int, int, nat) = (false, acc, pre.len as int, 0);
                assert(line == spec_data_line(
                    pre.data_idx as nat,
                    pre.active_seq(),
                    pre.len as int,
                    old(self).chars,
                ));
                assert(row_off(desc.len() == 0, acc, pre.len as int, pos1) == pre.data_idx as int);
                assert(pre.active_seq().take(pre.len as int) == d0.subrange(acc, acc + pre.len));
                assert(row_matches(line, rrow, d0, pos1, desc.len() == 0, old(self).chars));
                lemma_desc_chain_push(desc, pos1, acc, rrow);
                desc = desc.push(rrow);
                acc = acc + pre.len;
                assert forall|i: int| 0 <= i < desc.len() implies row_matches(
                    #[trigger] self.out@[i + 2]@,
                    desc[i],
                    d0,
                    pos1,
                    i == 0,
                    old(self).chars,
                ) by {
                    if i < desc.len() - 1 {
                        assert(self.out@[i + 2] == self.out@.subrange(0, pre.out@.len() as int)[i
                            + 2]);
                    } else {
                        assert(desc[i] == rrow);
                        assert(self.out@[i + 2]@ == line);
                    }
                }
            }
            if self.stop || self.len < BYTES_PER_LINE {
                break ;
            }
            let ghost pre2 = *self;
            match self.rd_data(data) {
                Ok(()) => {},
                Err(e) => {
                    return Err(e);
                },
            }
            proof {
                lemma_seq_sum_push(pre2.reads@, self.len as int);
                if self.stop {
                    lemma_mod16_fill(pre2.consumed(), self.limit as int);
                }
                assert(self.active_seq().take(self.len as int) =~= d0.subrange(
                    acc,
                    acc + self.len,
                ));
            }
            let eq = self.buffers_equal();
            proof {
                if hh {
                    assert(self.len == BYTES_PER_LINE);
                    assert(pre2.inactive_seq().skip(BYTES_PER_LINE as int) =~= Seq::<u8>::empty());
                    assert(self.active_seq() =~= d0.subrange(
                        BYTES_PER_LINE as int,
                        2 * BYTES_PER_LINE as int,
                    ));
                    assert(self.active_seq() =~= self.inactive_seq());
                    assert(self.buf0@ =~= self.buf1@);
                    assert(eq);
                }
            }
            if eq && self.len == BYTES_PER_LINE && !self.show_identical {
                let ghost pre3 = *self;
                let ghost pos3: int = data.pos();
                proof {
                    assert(pre2.inactive_seq().skip(BYTES_PER_LINE as int) =~= Seq::<u8>::empty());
                    assert(self.active_seq() =~= data.data().subrange(
                        data.pos() - BYTES_PER_LINE,
                        data.pos(),
                    ));
                }
                match self.skip_lines(data) {
                    Ok(()) => {},
                    Err(e) => {
                        return Err(e);
                    },
                }
                proof {
                    assert forall|i: int| 2 <= i < self.out@.len() implies is_marker_line(
                        #[trigger] self.out@[i]@,
                    ) || is_data_rendering(self.out@[i]@, old(self).chars) by {
                        if i < pre3.out@.len() {
                            assert(self.out@[i] == self.out@.subrange(
                                0,
                                pre3.out@.len() as int,
                            )[i]);
                        }
                    }
                    assert(self.out@[2] == self.out@.subrange(0, pre3.out@.len() as int)[2]);
                    assert(!is_marker_line(self.out@[2]@));
                    if hh {
                        assert(!self.stop);
                        if self.len == BYTES_PER_LINE {
                            assert(self.active_seq() =~= self.inactive_seq());
                            assert(self.buf0@ =~= self.buf1@);
                            assert(false);
                        }
                        assert(self.rd_counter > pre3.rd_counter);
                        let m = choose|i: int|
                            pre3.out@.len() <= i < self.out@.len() && is_marker_line(
                                #[trigger] self.out@[i]@,
                            );
                        assert(is_marker_line(self.out@[m]@));
                        assert forall|i: int, j: int|
                            2 <= i < self.out@.len() && 2 <= j < self.out@.len()
                                && is_marker_line(#[trigger] self.out@[i]@) && is_marker_line(
                                #[trigger] self.out@[j]@,
                            ) implies i == j by {
                            if i < pre3.out@.len() {
                                assert(self.out@[i] == self.out@.subrange(
                                    0,
                                    pre3.out@.len() as int,
                                )[i]);
                            }
                            if j < pre3.out@.len() {
                                assert(self.out@[j] == self.out@.subrange(
                                    0,
                                    pre3.out@.len() as int,
                                )[j]);
                            }
                        }
                        assert(exactly_one_marker_row(self.out@, 2, self.out@.len() as int));
                    }
                    let kd: int = self.rd_counter - pre3.rd_counter;
                    let pp: int = pos3 + kd - self.len;
                    assert(acc == pos3 - BYTES_PER_LINE);
                    if self.len == 0 {
                        if kd > 0 {
                            let r1: (bool, int, int, nat) = (true, acc, 0, (kd / 16) as nat);
                            assert(self.out@[pre3.out@.len() as int]@ == spec_marker_line(
                                (kd / 16) as nat,
                                old(self).chars,
                            ));
                            assert(row_matches(
                                self.out@[pre3.out@.len() as int]@,
                                r1,
                                d0,
                                pos1,
                                false,
                                old(self).chars,
                            ));
                            lemma_desc_chain_push(desc, pos1, acc, r1);
                            desc = desc.push(r1);
                            acc = acc + 16 * (kd / 16);
                            assert(acc == pp - BYTES_PER_LINE);
                        }
                        let b2 = d0.subrange(pp - BYTES_PER_LINE, pp);
                        let r2: (bool, int, int, nat) = (false, acc, BYTES_PER_LINE as int, 0);
                        assert(b2.take(BYTES_PER_LINE as int) =~= b2);
                        assert(self.out@.last()@ == spec_data_line(
                            self.data_idx as nat,
                            b2,
                            BYTES_PER_LINE as int,
                            old(self).chars,
                        ));
                        assert(row_off(false, acc, BYTES_PER_LINE as int, pos1) == self.data_idx);
                        assert(row_matches(
                            self.out@.last()@,
                            r2,
                            d0,
                            pos1,
                            false,
                            old(self).chars,
                        ));
                        lemma_desc_chain_push(desc, pos1, acc, r2);
                        desc = desc.push(r2);
                        acc = acc + BYTES_PER_LINE;
                    } else {
                        let r1: (bool, int, int, nat) = (
                            true,
                            acc,
                            0,
                            ((kd - self.len) / 16 + 1) as nat,
                        );
                        assert(self.out@[pre3.out@.len() as int]@ == spec_marker_line(
                            ((kd - self.len) / 16 + 1) as nat,
                            old(self).chars,
                        ));
                        assert(row_matches(
                            self.out@[pre3.out@.len() as int]@,
                            r1,
                            d0,
                            pos1,
                            false,
                            old(self).chars,
                        ));
                        lemma_desc_chain_push(desc, pos1, acc, r1);
                        desc = desc.push(r1);
                        acc = acc + 16 * ((kd - self.len) / 16 + 1);
                        assert(acc == pp);
                        assert(self.active_seq().take(self.len as int) == d0.subrange(
                            acc,
                            acc + self.len,
                        ));
                    }
                    assert forall|i: int| 0 <= i < desc.len() implies row_matches(
                        #[trigger] self.out@[i + 2]@,
                        desc[i],
                        d0,
                        pos1,
                        i == 0,
                        old(self).chars,
                    ) by {
                        if i + 2 < pre3.out@.len() {
                            assert(self.out@[i + 2] == self.out@.subrange(
                                0,
                                pre3.out@.len() as int,
                            )[i + 2]);
                        }
                    }
                }
            } else {
                proof {
                    if hh {
                        assert(false);
                    }
                }
            }
        }
        self.data_idx = self.data_idx + BYTES_PER_LINE;
        let ghost preq = *self;
        self.sep();
        proof {
            assert(self.out@.last()@ =~= spec_sep_line(old(self).chars));
        }
        let ghost pres = *self;
        let rd = self.rd_counter;
        let ch = self.chars;
        append_summary(&mut self.display_buf, rd, ch);
        self.display();
        proof {
            assert(self.out@.last()@ =~= spec_summary_line(rd as nat, old(self).chars));
            assert(self.out@[0]@ == spec_header(old(self).chars)) by {
                assert(self.out@[0] == self.out@.subrange(0, pres.out@.len() as int)[0]);
                assert(pres.out@[0] == pres.out@.subrange(0, preq.out@.len() as int)[0]);
            }
            assert(self.out@[1]@ == spec_sep_line(old(self).chars)) by {
                assert(self.out@[1] == self.out@.subrange(0, pres.out@.len() as int)[1]);
                assert(pres.out@[1] == pres.out@.subrange(0, preq.out@.len() as int)[1]);
            }
            assert(self.out@[self.out@.len() - 2]@ == spec_sep_line(old(self).chars)) by {
                assert(self.out@[self.out@.len() - 2] == self.out@.subrange(
                    0,
                    pres.out@.len() as int,
                )[self.out@.len() - 2]);
            }
            assert forall|i: int| 2 <= i < self.out@.len() - 2 implies is_marker_line(
                #[trigger] self.out@[i]@,
            ) || is_data_rendering(self.out@[i]@, old(self).chars) by {
                assert(self.out@[i] == self.out@.subrange(0, pres.out@.len() as int)[i]);
                assert(pres.out@[i] == pres.out@.subrange(0, preq.out@.len() as int)[i]);
            }
            if old(self).show_identical {
                assert forall|i: int| 2 <= i < self.out@.len() - 2 implies !is_marker_line(
                    #[trigger] self.out@[i]@,
                ) by {
                    assert(self.out@[i] == self.out@.subrange(0, pres.out@.len() as int)[i]);
                    assert(pres.out@[i] == pres.out@.subrange(0, preq.out@.len() as int)[i]);
                }
            }
            assert(self.out@[2] == self.out@.subrange(0, pres.out@.len() as int)[2]);
            assert(pres.out@[2] == pres.out@.subrange(0, preq.out@.len() as int)[2]);
            assert(!is_marker_line(self.out@[2]@));
            assert(is_data_rendering(self.out@[2]@, old(self).chars));
            let lastb = self.out@.len() - 3;
            assert(self.out@[lastb] == self.out@.subrange(0, pres.out@.len() as int)[lastb]);
            assert(pres.out@[lastb] == pres.out@.subrange(0, preq.out@.len() as int)[lastb]);
            assert(preq.out@[lastb] == preq.out@.last());
            assert(!is_marker_line(self.out@[lastb]@));
            assert(is_data_rendering(self.out@[lastb]@, old(self).chars));
            if hh {
                let w = choose|i: int|
                    2 <= i < preq.out@.len() && is_marker_line(#[trigger] preq.out@[i]@);
                assert(pres.out@[w] == pres.out@.subrange(0, preq.out@.len() as int)[w]);
                assert(self.out@[w] == self.out@.subrange(0, pres.out@.len() as int)[w]);
                assert(is_marker_line(self.out@[w]@));
                assert forall|i: int, j: int|
                    2 <= i < self.out@.len() - 2 && 2 <= j < self.out@.len() - 2
                        && is_marker_line(#[trigger] self.out@[i]@) && is_marker_line(
                        #[trigger] self.out@[j]@,
                    ) implies i == j by {
                    assert(self.out@[i] == self.out@.subrange(0, pres.out@.len() as int)[i]);
                    assert(pres.out@[i] == pres.out@.subrange(0, preq.out@.len() as int)[i]);
                    assert(self.out@[j] == self.out@.subrange(0, pres.out@.len() as int)[j]);
                    assert(pres.out@[j] == pres.out@.subrange(0, preq.out@.len() as int)[j]);
                }
                assert(exactly_one_marker_row(self.out@, 2, self.out@.len() - 2));
            }
            assert(pos1 <= data.pos() <= data.data().len());
            assert(!self.stop ==> data.pos() == d0.len());
            assert forall|i: int| 0 <= i < desc.len() implies row_matches(
                #[trigger] self.out@[i + 2]@,
                desc[i],
                d0,
                pos1,
                i == 0,
                old(self).chars,
            ) by {
                assert(self.out@[i + 2] == self.out@.subrange(0, pres.out@.len() as int)[i + 2]);
                assert(pres.out@[i + 2] == pres.out@.subrange(0, preq.out@.len() as int)[i + 2]);
            }
            assert(dump_body_described(self.out@, desc, d0, pos1, acc, old(self).chars));
            assert(!self.stop ==> acc == data.pos());
        }
        Ok(())
    }
}

/// The offset shown in a rendered data row. The first row is shown at
/// offset 0; a later full row at its distance from the skip target; a
/// later short row at the counters' value, which trails its position by
/// the width of one row less its own length.
pub open spec fn row_off(first: bool, start: int, count: int, pos1: int) -> int {
    if first {
        0
    } else if count == BYTES_PER_LINE {
        start - pos1
    } else {
        start - pos1 - BYTES_PER_LINE + count
    }
}

/// What one emitted body row stands for, as `(marker, start, count, reps)`:
/// a marker row stands for `reps` collapsed full rows beginning at source
/// position `start`; a data row shows the `count` source bytes beginning
/// at `start`.
pub open spec fn row_matches(
    row: Seq<char>,
    ri: (bool, int, int, nat),
    d: Seq<u8>,
    pos1: int,
    first: bool,
    chars: bool,
) -> bool {
    if ri.0 {
        &&& ri.3 >= 1
        &&& row == spec_marker_line(ri.3, chars)
    } else {
        &&& 0 <= ri.2 <= BYTES_PER_LINE
        &&& 0 <= ri.1
        &&& ri.1 + ri.2 <= d.len()
        &&& row_off(first, ri.1, ri.2, pos1) >= 0
        &&& exists|b: Seq<u8>|
            b.len() == BYTES_PER_LINE && b.take(ri.2) == d.subrange(ri.1, ri.1 + ri.2) && row
                == spec_data_line(row_off(first, ri.1, ri.2, pos1) as nat, b, ri.2, chars)
    }
}

/// How many source bytes one described row accounts for.
pub open spec fn desc_step(ri: (bool, int, int, nat)) -> int {
    if ri.0 {
        16 * (ri.3 as int)
    } else {
        ri.2
    }
}

/// The described rows cover the source contiguously from `s0` to `s1`.
pub open spec fn desc_chain(desc: Seq<(bool, int, int, nat)>, s0: int, s1: int) -> bool
    decreases desc.len(),
{
    if desc.len() == 0 {
        s1 == s0
    } else {
        desc[0].1 == s0 && desc_chain(desc.skip(1), s0 + desc_step(desc[0]), s1)
    }
}

/// Appending a row that begins where the chain ended extends the chain.
pub proof fn lemma_desc_chain_push(
    desc: Seq<(bool, int, int, nat)>,
    s0: int,
    s1: int,
    r: (bool, int, int, nat),
)
    requires
        desc_chain(desc, s0, s1),
        r.1 == s1,
    ensures
        desc_chain(desc.push(r), s0, s1 + desc_step(r)),
    decreases desc.len(),
{
    if desc.len() == 0 {
        assert(desc.push(r)[0] == r);
        assert(desc.push(r).skip(1) =~= Seq::<(bool, int, int, nat)>::empty());
        assert(desc_chain(
            Seq::<(bool, int, int, nat)>::empty(),
            s1 + desc_step(r),
            s1 + desc_step(r),
        ));
        assert(desc.push(r).len() == 1);
    } else {
        assert(desc.push(r)[0] == desc[0]);
        assert(desc.push(r).skip(1) =~= desc.skip(1).push(r));
        lemma_desc_chain_push(desc.skip(1), s0 + desc_step(desc[0]), s1, r);
    }
}

/// A successful dump's rows: title, separator, body rows each standing
/// for a stretch of the source as `desc` says, covering the source
/// contiguously from the skip target `pos1` to `dend`, then a separator
/// and the summary.
pub open spec fn dump_body_described(
    out: Seq<String>,
    desc: Seq<(bool, int, int, nat)>,
    d: Seq<u8>,
    pos1: int,
    dend: int,
    chars: bool,
) -> bool {
    &&& out.len() == desc.len() + 4
    &&& (forall|i: int|
        0 <= i < desc.len() ==> row_matches(#[trigger] out[i + 2]@, desc[i], d, pos1, i == 0, chars))
    // only the very first row may be empty: every later data row shows at
    // least one byte (this is what rules a marker out for a source of
    // exactly two identical full rows: a marker is never the last body row,
    // and no empty row can follow it)
    &&& (forall|i: int| 0 < i < desc.len() ==> (#[trigger] desc[i]).0 || desc[i].2 > 0)
    &&& desc_chain(desc, pos1, dend)
}

/// Whether every byte of `d` has the same value.
pub open spec fn all_same(d: Seq<u8>) -> bool {
    forall|i: int, j: int| 0 <= i < d.len() && 0 <= j < d.len() ==> d[i] == d[j]
}

/// No row among `out[from..to]` is a duplicate-run marker.
pub open spec fn no_marker_rows(out: Seq<String>, from: int, to: int) -> bool {
    forall|i: int| from <= i < to ==> !is_marker_line(#[trigger] out[i]@)
}

/// Exactly one row among `out[from..to]` is a duplicate-run marker.
pub open spec fn exactly_one_marker_row(out: Seq<String>, from: int, to: int) -> bool {
    &&& exists|i: int| from <= i < to && is_marker_line(#[trigger] out[i]@)
    &&& forall|i: int, j: int|
        from <= i < to && from <= j < to && is_marker_line(#[trigger] out[i]@) && is_marker_line(
            #[trigger] out[j]@,
        ) ==> i == j
}

/// The sum of a sequence of integers.
pub open spec fn seq_sum(s: Seq<int>) -> int
    decreases s.len(),
{
    if s.len() == 0 {
        0
    } else {
        seq_sum(s.drop_last()) + s.last()
    }
}

/// Appending one element adds its value to the sum.
pub proof fn lemma_seq_sum_push(s: Seq<int>, x: int)
    ensures
        seq_sum(s.push(x)) == seq_sum(s) + x,
{
    assert(s.push(x).drop_last() =~= s);
    assert(s.push(x).last() == x);
}

/// A multiple of 16 below `b` still fits below `b` after the remainder of
/// `b` is put on top.
proof fn lemma_mod16_fill(a: int, b: int)
    requires
        a % 16 == 0,
        0 <= a,
        a <= b,
    ensures
        a + b % 16 <= b,
{
    let k = a / 16;
    let q = b / 16;
    let r = b % 16;
    assert(a == 16 * k);
    assert(b == 16 * q + r);
    assert(0 <= r < 16);
    assert(k <= q) by (nonlinear_arith)
        requires
            16 * k <= 16 * q + r,
            0 <= r < 16,
    ;
    assert(16 * k <= 16 * q) by (nonlinear_arith)
        requires
            k <= q,
    ;
}

/// Overwrite the front of `dst` with all of `src`, keeping the tail.
fn copy_into(dst: &mut Vec<u8>, src: &Vec<u8>)
    requires
        src@.len() <= old(dst)@.len(),
    ensures
        final(dst)@ == src@ + old(dst)@.skip(src@.len() as int),
        final(dst)@.len() == old(dst)@.len(),
{
    let mut i: usize = 0;
    while i < src.len()
        invariant
            i <= src@.len() <= dst@.len(),
            dst@.len() == old(dst)@.len(),
            dst@ == src@.subrange(0, i as int) + old(dst)@.skip(i as int),
        decreases src@.len() - i,
    {
        dst.set(i, src[i]);
        proof {
            assert(dst@ =~= src@.subrange(0, i + 1 as int) + old(dst)@.skip(i + 1 as int));
        }
        i = i + 1;
    }
    proof {
        assert(dst@ =~= src@ + old(dst)@.skip(src@.len() as int));
    }
}

/// A copy of one row buffer.
fn copy_row(b: &Vec<u8>) -> (v: Vec<u8>)
    ensures
        v@ == b@,
{
    let mut v: Vec<u8> = Vec::new();
    let mut i: usize = 0;
    while i < b.len()
        invariant
            i <= b@.len(),
            v@ == b@.subrange(0, i as int),
        decreases b@.len() - i,
    {
        v.push(b[i]);
        proof {
            assert(v@ =~= b@.subrange(0, i + 1 as int));
        }
        i = i + 1;
    }
    proof {
        assert(v@ =~= b@);
    }
    v
}

/// A row-sized buffer of zero bytes.
fn zero_row() -> (r: Vec<u8>)
    ensures
        r@.len() == BYTES_PER_LINE,
        forall|i: int| 0 <= i < r@.len() ==> r@[i] == 0u8,
{
    let mut v: Vec<u8> = Vec::new();
    let mut i: usize = 0;
    while i < BYTES_PER_LINE
        invariant
            i <= BYTES_PER_LINE,
            v@.len() == i,
            forall|j: int| 0 <= j < v@.len() ==> v@[j] == 0u8,
        decreases BYTES_PER_LINE - i,
    {
        v.push(0u8);
        i = i + 1;
    }
    v
}

} // verus!
