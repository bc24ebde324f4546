//! The carver's guarantees, stated once over whole runs: what the records of
//! a run promise and what the sink renderers make of them. The record
//! sequence of a run is `carve_from`, the value `parse`'s contract renders,
//! and `carve_ok_m` holds of it by `carve`'s contract.

use vstd::prelude::*;

use crate::bytes::{lemma_subst_seq_identity, subst_byte, subst_seq, CHAR_NEWLINE};
use crate::carver::{carve_ok_m, record_ok_m};
use crate::report::{closers_out, json_out_m, json_piece_m, repair_out_m, report_out_m,
    RecordModel};
use crate::scan::carve_from;

verus! {

/// Every byte of a carved candidate is the input byte at the corresponding
/// offset, modulo the optional newline-to-space substitution; with the
/// substitution off it is verbatim.
pub proof fn lemma_emitted_bytes_verbatim(
    input: Seq<u8>,
    replace: bool,
    ms: Seq<RecordModel>,
    i: int,
    j: int,
)
    requires
        carve_ok_m(input, replace, ms),
        0 <= i < ms.len(),
        0 <= j < ms[i].bytes.len(),
    ensures
        ms[i].bytes[j] == subst_byte(replace, input[ms[i].start + j]),
        !replace ==> ms[i].bytes[j] == input[ms[i].start + j],
{
    assert(record_ok_m(input, replace, ms[i]));
    assert(ms[i].bytes[j] == subst_seq(
        replace,
        input.subrange(ms[i].start, ms[i].end + 1),
    )[j]);
}

/// A repair emission is the candidate prefix up to and including the last
/// legal close point — verbatim input bytes, modulo substitution — followed
/// by the matching closer (`opener + 2`) of every still-open container from
/// the innermost (top of stack) outwards, followed by the newline separator.
pub proof fn lemma_repair_layout(input: Seq<u8>, replace: bool, ms: Seq<RecordModel>, i: int)
    requires
        carve_ok_m(input, replace, ms),
        0 <= i < ms.len(),
    ensures
        repair_out_m(ms[i]) == subst_seq(
            replace,
            input.subrange(ms[i].start, ms[i].partial_end + 1),
        ) + closers_out(ms[i].closers) + seq![CHAR_NEWLINE],
        forall|k: int|
            0 <= k < ms[i].closers.len() ==> closers_out(ms[i].closers)[k]
                == ms[i].closers[ms[i].closers.len() - 1 - k] + 2,
{
    assert(record_ok_m(input, replace, ms[i]));
    assert(ms[i].bytes.take(ms[i].pce_rel() + 1) =~= subst_seq(
        replace,
        input.subrange(ms[i].start, ms[i].partial_end + 1),
    ));
}

/// In every report record, `start <= partial_end <= end`, and the record
/// stays inside the input.
pub proof fn lemma_report_offsets_ordered(
    input: Seq<u8>,
    replace: bool,
    ms: Seq<RecordModel>,
    i: int,
)
    requires
        carve_ok_m(input, replace, ms),
        0 <= i < ms.len(),
    ensures
        ms[i].start <= ms[i].partial_end <= ms[i].end,
        ms[i].end < input.len(),
{
    assert(record_ok_m(input, replace, ms[i]));
}

/// When a run ends in exhaustion, the total number of input bytes consumed
/// equals `end + 1` of the final record: the candidate ran to the last input
/// byte.
pub proof fn lemma_exhaustion_consumes_all(input: Seq<u8>, replace: bool, ms: Seq<RecordModel>)
    requires
        carve_ok_m(input, replace, ms),
        ms.len() > 0,
        ms.last().status is Exhausted,
    ensures
        ms.last().end + 1 == input.len(),
{
}

/// A candidate that completes as the sole content of the input — first byte
/// to last, with newline replacement off — is emitted byte-identical, plus
/// the trailing newline separator.
pub proof fn lemma_sole_completed_value(
    input: Seq<u8>,
    ms: Seq<RecordModel>,
    min_size: usize,
    fix_incomplete: bool,
)
    requires
        carve_ok_m(input, false, ms),
        ms.len() == 1,
        ms[0].status is Completed,
        ms[0].start == 0,
        ms[0].end + 1 == input.len(),
        min_size <= input.len(),
    ensures
        json_out_m(ms, min_size, fix_incomplete) == input + seq![CHAR_NEWLINE],
{
    assert(record_ok_m(input, false, ms[0]));
    lemma_subst_seq_identity(input.subrange(0, input.len() as int));
    assert(input.subrange(0, input.len() as int) =~= input);
    assert(ms[0].bytes == input);
    assert(ms.drop_last() =~= Seq::<RecordModel>::empty());
    assert(json_out_m(ms.drop_last(), min_size, fix_incomplete) =~= Seq::<u8>::empty());
    assert(ms.last() == ms[0]);
    assert(json_piece_m(ms[0], min_size, fix_incomplete) == input + seq![CHAR_NEWLINE]);
    assert(json_out_m(ms, min_size, fix_incomplete) =~= input + seq![CHAR_NEWLINE]);
}

/// No opener is ever skipped during resynchronisation: every `[` or `{` in
/// the input falls inside some candidate's byte range.
pub proof fn lemma_every_opener_examined(
    input: Seq<u8>,
    replace: bool,
    ms: Seq<RecordModel>,
    j: int,
)
    requires
        carve_ok_m(input, replace, ms),
        0 <= j < input.len(),
        crate::bytes::is_opener(input[j]),
    ensures
        exists|i: int| 0 <= i < ms.len() && (#[trigger] ms[i]).start <= j <= ms[i].end,
{
}

/// Empty input yields no records, no JSON output, and no report.
pub proof fn lemma_empty_input_no_output(
    input: Seq<u8>,
    replace: bool,
    max_depth: int,
    min_size: usize,
    fix_incomplete: bool,
)
    requires
        input.len() == 0,
    ensures
        carve_from(input, 0, Option::<u8>::None, replace, max_depth)
            == Seq::<RecordModel>::empty(),
        json_out_m(
            carve_from(input, 0, Option::<u8>::None, replace, max_depth),
            min_size,
            fix_incomplete,
        ) == Seq::<u8>::empty(),
        report_out_m(
            carve_from(input, 0, Option::<u8>::None, replace, max_depth),
            min_size,
        ) == Seq::<u8>::empty(),
{
    assert(crate::scan::next_opener(input, 0) == 0);
    assert(carve_from(input, 0, Option::<u8>::None, replace, max_depth)
        =~= Seq::<RecordModel>::empty());
}

} // verus!
