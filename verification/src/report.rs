//! Report records and the two sink formats: emitted JSON values (each
//! terminated by a newline) and CSV diagnostic records
//! (`status,start,end,partial_end`).

use vstd::prelude::*;

use crate::bytes::{CHAR_COMMA, CHAR_NEWLINE};

verus! {

/// How the state machine left a candidate: a byte was accepted and must be
/// re-dispatched, a byte broke the grammar, the top-level value closed, or
/// the input drained mid-value.
pub enum Cause {
    Found(u8),
    Corrupted(u8),
    Completed,
    Exhausted,
}

/// One record per candidate: its outcome, its absolute byte offsets in the
/// input (inclusive), the candidate bytes as consumed, and the kinds of the
/// containers still open when the candidate ended.
pub struct Report {
    /// The candidate's outcome; never `Found`, which only drives re-dispatch.
    pub status: Cause,
    /// Absolute offset of the candidate's first byte.
    pub start: usize,
    /// Absolute offset of the candidate's last consumed byte.
    pub end: usize,
    /// Absolute offset of the last byte position at which every open
    /// container had just been closed.
    pub partial_end: usize,
    /// The candidate bytes, as appended to the tracker's buffer.
    pub bytes: Vec<u8>,
    /// The still-open container kinds at termination, bottom of stack first.
    pub closers: Vec<u8>,
}

/// A report record as the contracts see it: the same fields as `Report`,
/// over mathematical values.
#[verifier::ext_equal]
pub ghost struct RecordModel {
    pub status: Cause,
    pub start: int,
    pub end: int,
    pub partial_end: int,
    pub bytes: Seq<u8>,
    pub closers: Seq<u8>,
}

impl RecordModel {
    /// The last legal close point, relative to the candidate's first byte.
    pub open spec fn pce_rel(&self) -> int {
        self.partial_end - self.start
    }

    /// What the carver guarantees of every record it produces.
    pub open spec fn wf(&self) -> bool {
        &&& 0 <= self.start <= self.partial_end <= self.end
        &&& self.pce_rel() < self.bytes.len()
        &&& self.bytes.len() == self.end - self.start + 1
        &&& forall|j: int|
            0 <= j < self.closers.len() ==> crate::bytes::is_opener(#[trigger] self.closers[j])
        &&& (self.status is Completed <==> self.closers.len() == 0)
        &&& !(self.status is Found)
    }
}

/// The mathematical value of one record.
pub open spec fn rec_model(r: Report) -> RecordModel {
    RecordModel {
        status: r.status,
        start: r.start as int,
        end: r.end as int,
        partial_end: r.partial_end as int,
        bytes: r.bytes@,
        closers: r.closers@,
    }
}

/// The mathematical values of a run's records, in order.
pub open spec fn models(recs: Seq<Report>) -> Seq<RecordModel> {
    recs.map_values(|r: Report| rec_model(r))
}

impl Report {
    /// The last legal close point, relative to the candidate's first byte.
    pub open spec fn pce_rel(&self) -> int {
        self.partial_end - self.start
    }

    /// What the carver guarantees of every record it produces.
    pub open spec fn wf(&self) -> bool {
        &&& self.start <= self.partial_end <= self.end
        &&& self.pce_rel() < self.bytes@.len()
        &&& self.bytes@.len() == self.end - self.start + 1
        &&& forall|j: int|
            0 <= j < self.closers@.len() ==> crate::bytes::is_opener(#[trigger] self.closers@[j])
        &&& (self.status is Completed <==> self.closers@.len() == 0)
        &&& !(self.status is Found)
    }

    /// Append this record's CSV line to `out`.
    pub fn print(&self, out: &mut Vec<u8>)
        requires
            !(self.status is Found),
        ensures
            final(out)@ == old(out)@ + csv_line(self),
    {
        push_status_label(out, &self.status);
        out.push(CHAR_COMMA);
        push_decimal(out, self.start);
        out.push(CHAR_COMMA);
        push_decimal(out, self.end);
        out.push(CHAR_COMMA);
        push_decimal(out, self.partial_end);
        out.push(CHAR_NEWLINE);
        proof {
            assert(out@ =~= old(out)@ + csv_line(self));
        }
    }
}

/// The decimal digits of `n`, most significant first, as ASCII bytes.
pub open spec fn dec_digits(n: nat) -> Seq<u8>
    decreases n,
{
    if n < 10 {
        seq![(0x30 + n) as u8]
    } else {
        dec_digits(n / 10).push((0x30 + n % 10) as u8)
    }
}

/// Append the decimal digits of `n` to `out`.
pub fn push_decimal(out: &mut Vec<u8>, n: usize)
    ensures
        final(out)@ == old(out)@ + dec_digits(n as nat),
    decreases n,
{
    if n >= 10 {
        push_decimal(out, n / 10);
    }
    out.push(0x30 + (n % 10) as u8);
    proof {
        assert(out@ =~= old(out)@ + dec_digits(n as nat));
    }
}

/// The ASCII name of a candidate outcome, as it appears in the report sink.
pub open spec fn status_label(c: Cause) -> Seq<u8> {
    match c {
        // "completed"
        Cause::Completed => seq![0x63u8, 0x6F, 0x6D, 0x70, 0x6C, 0x65, 0x74, 0x65, 0x64],
        // "corrupted"
        Cause::Corrupted(_) => seq![0x63u8, 0x6F, 0x72, 0x72, 0x75, 0x70, 0x74, 0x65, 0x64],
        // "exhausted"
        Cause::Exhausted => seq![0x65u8, 0x78, 0x68, 0x61, 0x75, 0x73, 0x74, 0x65, 0x64],
        Cause::Found(_) => Seq::<u8>::empty(),
    }
}

/// One CSV record: `status,start,end,partial_end` and a newline.
pub open spec fn csv_line(r: &Report) -> Seq<u8> {
    status_label(r.status) + seq![CHAR_COMMA] + dec_digits(r.start as nat) + seq![CHAR_COMMA]
        + dec_digits(r.end as nat) + seq![CHAR_COMMA] + dec_digits(r.partial_end as nat)
        + seq![CHAR_NEWLINE]
}

fn push_status_label(out: &mut Vec<u8>, c: &Cause)
    requires
        !(c is Found),
    ensures
        final(out)@ == old(out)@ + status_label(*c),
{
    match c {
        Cause::Completed => {
            out.push(0x63);
            out.push(0x6F);
            out.push(0x6D);
            out.push(0x70);
            out.push(0x6C);
            out.push(0x65);
            out.push(0x74);
            out.push(0x65);
            out.push(0x64);
        },
        Cause::Corrupted(_) => {
            out.push(0x63);
            out.push(0x6F);
            out.push(0x72);
            out.push(0x72);
            out.push(0x75);
            out.push(0x70);
            out.push(0x74);
            out.push(0x65);
            out.push(0x64);
        },
        Cause::Exhausted => {
            out.push(0x65);
            out.push(0x78);
            out.push(0x68);
            out.push(0x61);
            out.push(0x75);
            out.push(0x73);
            out.push(0x74);
            out.push(0x65);
            out.push(0x64);
        },
        Cause::Found(_) => {
        },
    }
    proof {
        assert(out@ =~= old(out)@ + status_label(*c));
    }
}

/// The synthesised closers for a nest stack: the matching closer (`opener
/// plus 2`) of every still-open container, innermost (top of stack) first.
pub open spec fn closers_out(stack: Seq<u8>) -> Seq<u8> {
    Seq::new(stack.len(), |i: int| (stack[stack.len() - 1 - i] + 2) as u8)
}

/// The bytes a repair emission contributes to the JSON sink: the candidate
/// prefix up to and including the last legal close point, the synthesised
/// closers, and the newline separator.
pub open spec fn repair_out(r: &Report) -> Seq<u8> {
    r.bytes@.take(r.pce_rel() + 1) + closers_out(r.closers@) + seq![CHAR_NEWLINE]
}

/// What one record contributes to the JSON sink. A completed candidate of at
/// least `min_size` bytes is emitted verbatim plus a newline; a corrupted or
/// exhausted candidate whose last legal close point is at least `min_size`
/// is emitted as a repair when `fix_incomplete` is set; everything else is
/// silently swallowed.
pub open spec fn json_piece(r: &Report, min_size: usize, fix_incomplete: bool) -> Seq<u8> {
    match r.status {
        Cause::Completed => if r.bytes@.len() >= min_size as int {
            r.bytes@ + seq![CHAR_NEWLINE]
        } else {
            Seq::<u8>::empty()
        },
        Cause::Corrupted(_) | Cause::Exhausted => if fix_incomplete && r.pce_rel()
            >= min_size as int {
            repair_out(r)
        } else {
            Seq::<u8>::empty()
        },
        Cause::Found(_) => Seq::<u8>::empty(),
    }
}

/// What one record contributes to the report sink. Completed candidates go
/// to the JSON sink and are never reported; a corrupted or exhausted
/// candidate is reported when its last legal close point is at least
/// `min_size` bytes in.
pub open spec fn report_piece(r: &Report, min_size: usize) -> Seq<u8> {
    match r.status {
        Cause::Corrupted(_) | Cause::Exhausted => if r.pce_rel() >= min_size as int {
            csv_line(r)
        } else {
            Seq::<u8>::empty()
        },
        _ => Seq::<u8>::empty(),
    }
}

/// The whole JSON sink output for a run: each record's contribution, in
/// input order.
pub open spec fn json_out(recs: Seq<Report>, min_size: usize, fix_incomplete: bool) -> Seq<u8>
    decreases recs.len(),
{
    if recs.len() == 0 {
        Seq::<u8>::empty()
    } else {
        json_out(recs.drop_last(), min_size, fix_incomplete) + json_piece(
            &recs.last(),
            min_size,
            fix_incomplete,
        )
    }
}

/// The whole report sink output for a run: each record's CSV line, in input
/// order.
pub open spec fn report_out(recs: Seq<Report>, min_size: usize) -> Seq<u8>
    decreases recs.len(),
{
    if recs.len() == 0 {
        Seq::<u8>::empty()
    } else {
        report_out(recs.drop_last(), min_size) + report_piece(&recs.last(), min_size)
    }
}

/// `csv_line`, over a record's mathematical value.
pub open spec fn csv_line_m(m: RecordModel) -> Seq<u8> {
    status_label(m.status) + seq![CHAR_COMMA] + dec_digits(m.start as nat) + seq![CHAR_COMMA]
        + dec_digits(m.end as nat) + seq![CHAR_COMMA] + dec_digits(m.partial_end as nat)
        + seq![CHAR_NEWLINE]
}

/// `repair_out`, over a record's mathematical value.
pub open spec fn repair_out_m(m: RecordModel) -> Seq<u8> {
    m.bytes.take(m.pce_rel() + 1) + closers_out(m.closers) + seq![CHAR_NEWLINE]
}

/// `json_piece`, over a record's mathematical value.
pub open spec fn json_piece_m(m: RecordModel, min_size: usize, fix_incomplete: bool) -> Seq<u8> {
    match m.status {
        Cause::Completed => if m.bytes.len() >= min_size as int {
            m.bytes + seq![CHAR_NEWLINE]
        } else {
            Seq::<u8>::empty()
        },
        Cause::Corrupted(_) | Cause::Exhausted => if fix_incomplete && m.pce_rel()
            >= min_size as int {
            repair_out_m(m)
        } else {
            Seq::<u8>::empty()
        },
        Cause::Found(_) => Seq::<u8>::empty(),
    }
}

/// `report_piece`, over a record's mathematical value.
pub open spec fn report_piece_m(m: RecordModel, min_size: usize) -> Seq<u8> {
    match m.status {
        Cause::Corrupted(_) | Cause::Exhausted => if m.pce_rel() >= min_size as int {
            csv_line_m(m)
        } else {
            Seq::<u8>::empty()
        },
        _ => Seq::<u8>::empty(),
    }
}

/// `json_out`, over the records' mathematical values.
pub open spec fn json_out_m(ms: Seq<RecordModel>, min_size: usize, fix_incomplete: bool) -> Seq<u8>
    decreases ms.len(),
{
    if ms.len() == 0 {
        Seq::<u8>::empty()
    } else {
        json_out_m(ms.drop_last(), min_size, fix_incomplete) + json_piece_m(
            ms.last(),
            min_size,
            fix_incomplete,
        )
    }
}

/// `report_out`, over the records' mathematical values.
pub open spec fn report_out_m(ms: Seq<RecordModel>, min_size: usize) -> Seq<u8>
    decreases ms.len(),
{
    if ms.len() == 0 {
        Seq::<u8>::empty()
    } else {
        report_out_m(ms.drop_last(), min_size) + report_piece_m(ms.last(), min_size)
    }
}

/// A record's sink contributions depend only on its mathematical value.
pub proof fn lemma_pieces_of_model(r: Report, min_size: usize, fix_incomplete: bool)
    ensures
        json_piece(&r, min_size, fix_incomplete) == json_piece_m(
            rec_model(r),
            min_size,
            fix_incomplete,
        ),
        report_piece(&r, min_size) == report_piece_m(rec_model(r), min_size),
{
    let m = rec_model(r);
    assert(m.pce_rel() == r.pce_rel());
    match r.status {
        Cause::Completed => {
            if r.bytes@.len() >= min_size as int {
                assert(json_piece(&r, min_size, fix_incomplete) =~= json_piece_m(
                    m,
                    min_size,
                    fix_incomplete,
                ));
            }
        },
        Cause::Corrupted(_) | Cause::Exhausted => {
            assert(repair_out(&r) =~= repair_out_m(m));
            assert(csv_line(&r) =~= csv_line_m(m));
        },
        Cause::Found(_) => {},
    }
}

/// The whole sink outputs depend only on the records' mathematical values.
pub proof fn lemma_out_of_models(recs: Seq<Report>, min_size: usize, fix_incomplete: bool)
    ensures
        json_out(recs, min_size, fix_incomplete) == json_out_m(
            models(recs),
            min_size,
            fix_incomplete,
        ),
        report_out(recs, min_size) == report_out_m(models(recs), min_size),
    decreases recs.len(),
{
    if recs.len() == 0 {
        assert(models(recs) =~= Seq::<RecordModel>::empty());
    } else {
        lemma_out_of_models(recs.drop_last(), min_size, fix_incomplete);
        assert(models(recs.drop_last()) =~= models(recs).drop_last());
        assert(models(recs).last() == rec_model(recs.last()));
        lemma_pieces_of_model(recs.last(), min_size, fix_incomplete);
    }
}

/// Write the JSON sink output for `recs` — the emitted values and, when
/// `fix_incomplete` is set, the repairs.
pub fn render_json(recs: &Vec<Report>, min_size: usize, fix_incomplete: bool) -> (out: Vec<u8>)
    requires
        forall|i: int| 0 <= i < recs@.len() ==> (#[trigger] recs@[i]).wf(),
    ensures
        out@ == json_out(recs@, min_size, fix_incomplete),
{
    let mut out: Vec<u8> = Vec::new();
    let ghost all = recs@;
    let mut i: usize = 0;
    while i < recs.len()
        invariant
            i <= recs@.len(),
            recs@ == all,
            forall|k: int| 0 <= k < recs@.len() ==> (#[trigger] recs@[k]).wf(),
            out@ == json_out(recs@.take(i as int), min_size, fix_incomplete),
        decreases recs@.len() - i,
    {
        let r = &recs[i];
        let emit_completed = match r.status {
            Cause::Completed => r.bytes.len() >= min_size,
            _ => false,
        };
        let emit_repair = match r.status {
            Cause::Corrupted(_) | Cause::Exhausted => {
                fix_incomplete && r.partial_end - r.start >= min_size
            },
            _ => false,
        };
        if emit_completed {
            out.extend_from_slice(r.bytes.as_slice());
            out.push(CHAR_NEWLINE);
        } else if emit_repair {
            push_repair(&mut out, r);
        }
        proof {
            assert(recs@.take(i + 1 as int).drop_last() =~= recs@.take(i as int));
            assert(recs@.take(i + 1 as int).last() == recs@[i as int]);
            if emit_completed {
                assert(out@ =~= json_out(recs@.take(i as int), min_size, fix_incomplete)
                    + json_piece(&recs@[i as int], min_size, fix_incomplete));
            }
            if !emit_completed && !emit_repair {
                assert(json_piece(&recs@[i as int], min_size, fix_incomplete)
                    =~= Seq::<u8>::empty());
                assert(out@ =~= json_out(recs@.take(i as int), min_size, fix_incomplete)
                    + json_piece(&recs@[i as int], min_size, fix_incomplete));
            }
        }
        i += 1;
    }
    proof {
        assert(recs@.take(recs@.len() as int) =~= recs@);
    }
    out
}

/// Append a repair emission for `r`: the prefix of the candidate up to and
/// including the last legal close point, then the matching closer of every
/// still-open container from the top of the stack down, then a newline.
pub fn push_repair(out: &mut Vec<u8>, r: &Report)
    requires
        r.wf(),
        !(r.status is Completed),
    ensures
        final(out)@ == old(out)@ + repair_out(r),
{
    let pce_rel = r.partial_end - r.start;
    let n = r.bytes.len();
    proof {
        assert(pce_rel < n);
    }
    let bs: &[u8] = r.bytes.as_slice();
    out.extend_from_slice(&bs[0..pce_rel + 1]);
    let mut k: usize = r.closers.len();
    while k > 0
        invariant
            k <= r.closers@.len(),
            r.wf(),
            out@ == old(out)@ + r.bytes@.take(r.pce_rel() + 1) + closers_out(r.closers@).take(
                r.closers@.len() - k,
            ),
        decreases k,
    {
        let c = r.closers[k - 1];
        out.push(c + 2);
        proof {
            assert(closers_out(r.closers@)[r.closers@.len() - k] == (r.closers@[k - 1] + 2) as u8);
            assert(out@ =~= old(out)@ + r.bytes@.take(r.pce_rel() + 1) + closers_out(
                r.closers@,
            ).take(r.closers@.len() - (k - 1)));
        }
        k -= 1;
    }
    out.push(CHAR_NEWLINE);
    proof {
        assert(closers_out(r.closers@).take(r.closers@.len() as int) =~= closers_out(r.closers@));
        assert(out@ =~= old(out)@ + repair_out(r));
    }
}

/// Write the report sink output for `recs`: one CSV record per corrupted or
/// exhausted candidate whose last legal close point reaches `min_size`.
pub fn render_report(recs: &Vec<Report>, min_size: usize) -> (out: Vec<u8>)
    requires
        forall|i: int| 0 <= i < recs@.len() ==> (#[trigger] recs@[i]).wf(),
    ensures
        out@ == report_out(recs@, min_size),
{
    let mut out: Vec<u8> = Vec::new();
    let mut i: usize = 0;
    while i < recs.len()
        invariant
            i <= recs@.len(),
            forall|k: int| 0 <= k < recs@.len() ==> (#[trigger] recs@[k]).wf(),
            out@ == report_out(recs@.take(i as int), min_size),
        decreases recs@.len() - i,
    {
        let r = &recs[i];
        let emit = match r.status {
            Cause::Corrupted(_) | Cause::Exhausted => r.partial_end - r.start >= min_size,
            _ => false,
        };
        if emit {
            r.print(&mut out);
        }
        proof {
            assert(recs@.take(i + 1 as int).drop_last() =~= recs@.take(i as int));
            assert(recs@.take(i + 1 as int).last() == recs@[i as int]);
            assert(out@ =~= report_out(recs@.take(i as int), min_size) + report_piece(
                &recs@[i as int],
                min_size,
            ));
        }
        i += 1;
    }
    proof {
        assert(recs@.take(recs@.len() as int) =~= recs@);
    }
    out
}

} // verus!
