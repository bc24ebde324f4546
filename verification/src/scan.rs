//! The scanner's behaviour as one mathematical function: for every input and
//! starting position, which outcome the grammar forces, where the scan stops,
//! and what the tracker holds at the end. `hunt` is proved equal to
//! `scan_value`, and `carve` to `carve_from`, so the carver's whole output is
//! a function of the input bytes and the configuration.

use vstd::prelude::*;

use crate::bytes::{is_digit, is_opener, next_significant, subst_seq, CHAR_COLON, CHAR_COMMA,
    CHAR_LEFT_CURLY_BRACKET, CHAR_LEFT_SQUARE_BRACKET, CHAR_MINUS, CHAR_QUOT_MARK,
    CHAR_RIGHT_CURLY_BRACKET, CHAR_RIGHT_SQUARE_BRACKET, CHAR_START_FALSE, CHAR_START_NULL,
    CHAR_START_TRUE};
use crate::carver::{element_end_ok, literal_tail, scan_in_string, scan_literal_tail, scan_number,
    string_end_ok, value_start_ok, LitScan, NumScan, StringScan};
use crate::report::{Cause, RecordModel};

verus! {

/// The scanner's abstract state between two dispatches: the nest stack, the
/// last legal close point, the number of bytes appended to the candidate
/// buffer, and whether the next string would be an object key.
#[verifier::ext_equal]
pub ghost struct ScanState {
    pub stack: Seq<u8>,
    pub pce: int,
    pub cur: int,
    pub in_key: bool,
}

/// What one dispatch (or a whole candidate scan) leaves behind: the outcome,
/// the position just past the last byte the scanner read, and the state.
#[verifier::ext_equal]
pub ghost struct ScanStep {
    pub cause: Cause,
    pub pos: int,
    pub st: ScanState,
}

/// The scanner's state at the start of a candidate.
pub open spec fn init_scan() -> ScanState {
    ScanState { stack: Seq::<u8>::empty(), pce: 0, cur: 0, in_key: false }
}

/// One dispatch of the state machine on byte `ch`, which sits at `pos - 1`:
/// the per-construct handler that `ch` selects, as a function. Mirrors the
/// handlers' contracts case for case; `max_depth` bounds the nest stack and
/// `replace` is the newline substitution flag (which the number scanner
/// threads through its byte memory). Kept opaque so that reasoning about a
/// whole scan does not unfold every handler's case analysis; the per-handler
/// proofs reveal it.
#[verifier::opaque]
pub open spec fn scan_step(
    input: Seq<u8>,
    pos: int,
    ch: u8,
    st: ScanState,
    max_depth: int,
    replace: bool,
) -> ScanStep {
    let len = input.len() as int;
    let k = next_significant(input, pos);
    if ch == CHAR_LEFT_SQUARE_BRACKET || ch == CHAR_LEFT_CURLY_BRACKET {
        if st.stack.len() >= max_depth {
            ScanStep { cause: Cause::Corrupted(ch), pos: pos, st: st }
        } else {
            let stack1 = st.stack.push(ch);
            if k == len {
                ScanStep {
                    cause: Cause::Exhausted,
                    pos: len,
                    st: ScanState {
                        stack: stack1,
                        pce: st.cur,
                        cur: st.cur + len - pos + 1,
                        in_key: st.in_key,
                    },
                }
            } else {
                let b = input[k];
                let good = if ch == CHAR_LEFT_SQUARE_BRACKET {
                    value_start_ok(b) || b == CHAR_RIGHT_SQUARE_BRACKET
                } else {
                    b == CHAR_QUOT_MARK || b == CHAR_RIGHT_CURLY_BRACKET
                };
                let st2 = ScanState {
                    stack: stack1,
                    pce: st.cur,
                    cur: st.cur + k - pos + 1,
                    in_key: st.in_key || (ch == CHAR_LEFT_CURLY_BRACKET && good && b
                        == CHAR_QUOT_MARK),
                };
                if good {
                    ScanStep { cause: Cause::Found(b), pos: k + 1, st: st2 }
                } else {
                    ScanStep { cause: Cause::Corrupted(b), pos: k + 1, st: st2 }
                }
            }
        }
    } else if ch == CHAR_RIGHT_SQUARE_BRACKET || ch == CHAR_RIGHT_CURLY_BRACKET {
        let opener = if ch == CHAR_RIGHT_SQUARE_BRACKET {
            CHAR_LEFT_SQUARE_BRACKET
        } else {
            CHAR_LEFT_CURLY_BRACKET
        };
        if st.stack.len() == 0 || st.stack.last() != opener {
            ScanStep { cause: Cause::Corrupted(ch), pos: pos, st: st }
        } else {
            let stack1 = st.stack.drop_last();
            if st.stack.len() == 1 {
                ScanStep {
                    cause: Cause::Completed,
                    pos: pos,
                    st: ScanState {
                        stack: stack1,
                        pce: st.cur,
                        cur: st.cur + 1,
                        in_key: st.in_key,
                    },
                }
            } else if k == len {
                ScanStep {
                    cause: Cause::Exhausted,
                    pos: len,
                    st: ScanState {
                        stack: stack1,
                        pce: st.cur,
                        cur: st.cur + len - pos + 1,
                        in_key: st.in_key,
                    },
                }
            } else {
                let st2 = ScanState {
                    stack: stack1,
                    pce: st.cur,
                    cur: st.cur + k - pos + 1,
                    in_key: st.in_key,
                };
                if element_end_ok(input[k]) {
                    ScanStep { cause: Cause::Found(input[k]), pos: k + 1, st: st2 }
                } else {
                    ScanStep { cause: Cause::Corrupted(input[k]), pos: k + 1, st: st2 }
                }
            }
        }
    } else if ch == CHAR_COLON {
        if k == len {
            ScanStep {
                cause: Cause::Exhausted,
                pos: len,
                st: ScanState {
                    stack: st.stack,
                    pce: st.pce,
                    cur: st.cur + len - pos + 1,
                    in_key: false,
                },
            }
        } else {
            let st2 = ScanState {
                stack: st.stack,
                pce: st.pce,
                cur: st.cur + k - pos + 1,
                in_key: false,
            };
            if value_start_ok(input[k]) {
                ScanStep { cause: Cause::Found(input[k]), pos: k + 1, st: st2 }
            } else {
                ScanStep { cause: Cause::Corrupted(input[k]), pos: k + 1, st: st2 }
            }
        }
    } else if ch == CHAR_COMMA {
        let top = st.stack.last();
        if k == len {
            ScanStep {
                cause: Cause::Exhausted,
                pos: len,
                st: ScanState {
                    stack: st.stack,
                    pce: st.pce,
                    cur: st.cur + len - pos + 1,
                    in_key: st.in_key,
                },
            }
        } else {
            let good = if top == CHAR_LEFT_SQUARE_BRACKET {
                value_start_ok(input[k])
            } else {
                input[k] == CHAR_QUOT_MARK
            };
            let st2 = ScanState {
                stack: st.stack,
                pce: st.pce,
                cur: st.cur + k - pos + 1,
                in_key: st.in_key || (top == CHAR_LEFT_CURLY_BRACKET && good),
            };
            if good {
                ScanStep { cause: Cause::Found(input[k]), pos: k + 1, st: st2 }
            } else {
                ScanStep {
                    cause: Cause::Corrupted(input[k]),
                    pos: k + 1,
                    st: ScanState {
                        stack: st.stack,
                        pce: st.pce,
                        cur: st.cur + k - pos + 1,
                        in_key: st.in_key,
                    },
                }
            }
        }
    } else if ch == CHAR_QUOT_MARK {
        match scan_in_string(input, pos, false, 0) {
            StringScan::Corrupt(b, np) => ScanStep {
                cause: Cause::Corrupted(b),
                pos: np,
                st: ScanState {
                    stack: st.stack,
                    pce: st.pce,
                    cur: st.cur + np - pos,
                    in_key: st.in_key,
                },
            },
            StringScan::Drained => ScanStep {
                cause: Cause::Exhausted,
                pos: len,
                st: ScanState {
                    stack: st.stack,
                    pce: st.pce,
                    cur: st.cur + len - pos + 1,
                    in_key: st.in_key,
                },
            },
            StringScan::Closed(q) => {
                let k2 = next_significant(input, q);
                if k2 == len {
                    ScanStep {
                        cause: Cause::Exhausted,
                        pos: len,
                        st: ScanState {
                            stack: st.stack,
                            pce: st.pce,
                            cur: st.cur + len - pos + 1,
                            in_key: st.in_key,
                        },
                    }
                } else {
                    let st2 = ScanState {
                        stack: st.stack,
                        pce: st.pce,
                        cur: st.cur + k2 - pos + 1,
                        in_key: st.in_key,
                    };
                    if string_end_ok(input[k2], st.stack.last(), st.in_key) {
                        ScanStep { cause: Cause::Found(input[k2]), pos: k2 + 1, st: st2 }
                    } else {
                        ScanStep { cause: Cause::Corrupted(input[k2]), pos: k2 + 1, st: st2 }
                    }
                }
            },
        }
    } else if ch == CHAR_MINUS || is_digit(ch) {
        match scan_number(input, pos, replace, ch, false, false, false, false) {
            NumScan::Corrupt(b, np) => ScanStep {
                cause: Cause::Corrupted(b),
                pos: np,
                st: ScanState {
                    stack: st.stack,
                    pce: st.pce,
                    cur: st.cur + np - pos,
                    in_key: st.in_key,
                },
            },
            NumScan::Drained => ScanStep {
                cause: Cause::Exhausted,
                pos: len,
                st: ScanState {
                    stack: st.stack,
                    pce: st.pce,
                    cur: st.cur + len - pos + 1,
                    in_key: st.in_key,
                },
            },
            NumScan::End(b, np) => ScanStep {
                cause: Cause::Found(b),
                pos: np,
                st: ScanState {
                    stack: st.stack,
                    pce: st.pce,
                    cur: st.cur + np - pos,
                    in_key: st.in_key,
                },
            },
        }
    } else if ch == CHAR_START_FALSE || ch == CHAR_START_NULL || ch == CHAR_START_TRUE {
        match scan_literal_tail(input, pos, literal_tail(ch)) {
            LitScan::Corrupt(b, np) => ScanStep {
                cause: Cause::Corrupted(b),
                pos: np,
                st: ScanState {
                    stack: st.stack,
                    pce: st.pce,
                    cur: st.cur + np - pos,
                    in_key: st.in_key,
                },
            },
            LitScan::Drained => ScanStep {
                cause: Cause::Exhausted,
                pos: len,
                st: ScanState {
                    stack: st.stack,
                    pce: st.pce,
                    cur: st.cur + len - pos + 1,
                    in_key: st.in_key,
                },
            },
            LitScan::Matched(q) => {
                let k2 = next_significant(input, q);
                if k2 == len {
                    ScanStep {
                        cause: Cause::Exhausted,
                        pos: len,
                        st: ScanState {
                            stack: st.stack,
                            pce: st.pce,
                            cur: st.cur + len - pos + 1,
                            in_key: st.in_key,
                        },
                    }
                } else {
                    let st2 = ScanState {
                        stack: st.stack,
                        pce: st.pce,
                        cur: st.cur + k2 - pos + 1,
                        in_key: st.in_key,
                    };
                    if element_end_ok(input[k2]) {
                        ScanStep { cause: Cause::Found(input[k2]), pos: k2 + 1, st: st2 }
                    } else {
                        ScanStep { cause: Cause::Corrupted(input[k2]), pos: k2 + 1, st: st2 }
                    }
                }
            },
        }
    } else {
        // Not a dispatch byte; the state machine is never entered on one.
        ScanStep { cause: Cause::Corrupted(ch), pos: pos, st: st }
    }
}

/// The whole scan of one candidate, from the dispatch byte `ch` at `pos - 1`
/// in state `st`: dispatch, and re-dispatch as long as the step accepts
/// (`Found`), until the candidate completes, corrupts, or the input drains.
/// The result's cause is never `Found`. The guard on the recursion always
/// holds when `1 <= pos <= input.len()` and `ch` sits at `pos - 1`: a `Found`
/// step leaves the position strictly further in and inside the input.
pub open spec fn scan_value(
    input: Seq<u8>,
    pos: int,
    ch: u8,
    st: ScanState,
    max_depth: int,
    replace: bool,
) -> ScanStep
    decreases input.len() - pos,
{
    let r = scan_step(input, pos, ch, st, max_depth, replace);
    match r.cause {
        Cause::Found(b) => if pos < r.pos <= input.len() {
            scan_value(input, r.pos, b, r.st, max_depth, replace)
        } else {
            r
        },
        _ => r,
    }
}

/// The position of the first opener (`[` or `{`) at or after `from`; the
/// input length stands for "no opener left".
pub open spec fn next_opener(input: Seq<u8>, from: int) -> int
    decreases input.len() - from,
{
    if from < 0 || from >= input.len() {
        input.len() as int
    } else if is_opener(input[from]) {
        from
    } else {
        next_opener(input, from + 1)
    }
}

/// When an opener stands at `j` and nothing before it (from `from` on) is
/// one, the next opener from `from` is `j`.
pub proof fn lemma_next_opener_found(input: Seq<u8>, from: int, j: int)
    requires
        0 <= from <= j < input.len(),
        is_opener(input[j]),
        forall|k: int| from <= k < j ==> !is_opener(#[trigger] input[k]),
    ensures
        next_opener(input, from) == j,
    decreases j - from,
{
    if from < j {
        lemma_next_opener_found(input, from + 1, j);
    }
}

/// When no opener stands at or after `from`, the next opener is the input
/// length.
pub proof fn lemma_next_opener_none(input: Seq<u8>, from: int)
    requires
        0 <= from <= input.len(),
        forall|k: int| from <= k < input.len() ==> !is_opener(#[trigger] input[k]),
    ensures
        next_opener(input, from) == input.len(),
    decreases input.len() - from,
{
    if from < input.len() {
        lemma_next_opener_none(input, from + 1);
    }
}

/// The record that the scan starting at the opener at `cand_start` produces.
pub open spec fn rec_at(
    input: Seq<u8>,
    cand_start: int,
    replace: bool,
    max_depth: int,
) -> RecordModel {
    let r = scan_value(input, cand_start + 1, input[cand_start], init_scan(), max_depth, replace);
    RecordModel {
        status: r.cause,
        start: cand_start,
        end: cand_start + r.st.cur - 1,
        partial_end: cand_start + r.st.pce,
        bytes: subst_seq(replace, input.subrange(cand_start, cand_start + r.st.cur)),
        closers: r.st.stack,
    }
}

/// The records of a whole run, from read position `pos` with the pre-read
/// byte `lastb` in hand: an opener in hand re-enters the scan at once (it
/// sits at `pos - 1`); otherwise the run resynchronises to the next opener,
/// and ends when none is left. A completed or corrupted candidate is followed
/// by the rest of the run; after a corruption the corrupting byte is the next
/// byte in hand; an exhausted candidate is the run's last. The guards on the
/// recursion always hold of positions the scan actually reaches.
pub open spec fn carve_from(
    input: Seq<u8>,
    pos: int,
    lastb: Option<u8>,
    replace: bool,
    max_depth: int,
) -> Seq<RecordModel>
    decreases input.len() - pos,
{
    let opener_in_hand = match lastb {
        Option::Some(b) => is_opener(b),
        Option::None => false,
    };
    let cand_start = if opener_in_hand {
        pos - 1
    } else {
        next_opener(input, pos)
    };
    if !opener_in_hand && cand_start == input.len() {
        Seq::<RecordModel>::empty()
    } else {
        let r = scan_value(
            input,
            cand_start + 1,
            input[cand_start],
            init_scan(),
            max_depth,
            replace,
        );
        let rec = rec_at(input, cand_start, replace, max_depth);
        match r.cause {
            Cause::Completed => if pos < r.pos <= input.len() {
                seq![rec] + carve_from(input, r.pos, Option::None, replace, max_depth)
            } else {
                seq![rec]
            },
            Cause::Corrupted(b) => if pos < r.pos <= input.len() {
                seq![rec] + carve_from(input, r.pos, Option::Some(b), replace, max_depth)
            } else {
                seq![rec]
            },
            _ => seq![rec],
        }
    }
}

} // verus!
