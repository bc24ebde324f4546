//! The carver: resynchronisation (scout), the per-construct syntactic state
//! machine, and the top-level driver that glues scout, state machine, and the
//! two sinks together.

use vstd::prelude::*;

use crate::bytes::{
    byte_can_escape, byte_is_digit, byte_is_hex_digit, byte_is_whitespace, is_digit, is_opener,
    is_whitespace,
    next_significant, subst_byte, subst_seq, CHAR_CARRIAGE_RETURN, CHAR_COLON, CHAR_COMMA,
    CHAR_DECIMAL, CHAR_ESCAPE, CHAR_EXP_LOWER, CHAR_EXP_UPPER, CHAR_LEFT_CURLY_BRACKET,
    CHAR_LEFT_SQUARE_BRACKET, CHAR_MINUS, CHAR_NEWLINE, CHAR_NINE, CHAR_PLUS, CHAR_QUOT_MARK,
    CHAR_RIGHT_CURLY_BRACKET, CHAR_RIGHT_SQUARE_BRACKET, CHAR_SPACE, CHAR_START_FALSE,
    CHAR_START_NULL, CHAR_START_TRUE, CHAR_TAB, CHAR_U, CHAR_ZERO,
};
use crate::report::{models, rec_model, Cause, RecordModel, Report};
use crate::scan::{carve_from, init_scan, next_opener, rec_at, scan_step, scan_value, ScanState,
    ScanStep};
use crate::tracker::JsonTracker;

verus! {

/// The default minimum size of a JSON candidate that is emitted or reported.
pub const DEFAULT_MIN_JSON_SIZE: usize = 4;

/// A byte on which the state machine can dispatch a handler: the bytes a
/// handler may hand back as `Found`.
pub open spec fn found_byte_ok(b: u8) -> bool {
    ||| is_opener(b)
    ||| b == CHAR_RIGHT_SQUARE_BRACKET
    ||| b == CHAR_RIGHT_CURLY_BRACKET
    ||| b == CHAR_COLON
    ||| b == CHAR_COMMA
    ||| b == CHAR_QUOT_MARK
    ||| b == CHAR_MINUS
    ||| is_digit(b)
    ||| b == CHAR_START_FALSE
    ||| b == CHAR_START_NULL
    ||| b == CHAR_START_TRUE
}

/// A byte that may begin a JSON value: an opener, the start of a number, a
/// string, or a literal.
pub open spec fn value_start_ok(b: u8) -> bool {
    ||| is_opener(b)
    ||| b == CHAR_MINUS
    ||| is_digit(b)
    ||| b == CHAR_QUOT_MARK
    ||| b == CHAR_START_FALSE
    ||| b == CHAR_START_NULL
    ||| b == CHAR_START_TRUE
}

/// A byte that may follow a closed value: the element separator or either
/// container closer.
pub open spec fn element_end_ok(b: u8) -> bool {
    b == CHAR_COMMA || b == CHAR_RIGHT_SQUARE_BRACKET || b == CHAR_RIGHT_CURLY_BRACKET
}

/// Every entry of the nest stack is an opener byte.
pub open spec fn stack_ok(s: Seq<u8>) -> bool {
    forall|j: int| 0 <= j < s.len() ==> is_opener(#[trigger] s[j])
}

/// The carver: carves JSON values out of a byte stream, returning one record
/// per candidate found; the sink renderers in `report` turn the records into
/// the emitted JSON and the CSV report.
pub struct Carver {
    jt: JsonTracker,
    /// The minimum size of a JSON candidate that is emitted or reported.
    pub min_size: usize,
    /// Whether to emit a repaired version of incomplete candidates.
    pub fix_incomplete: bool,
}

impl Carver {
    /// The bytes of the candidate currently held by the tracker.
    pub closed spec fn buf(&self) -> Seq<u8> {
        self.jt.buf()
    }

    /// The stack of open container kinds, bottom first.
    pub closed spec fn stack(&self) -> Seq<u8> {
        self.jt.stack()
    }

    /// The last legal close point of the current candidate.
    pub closed spec fn pce(&self) -> int {
        self.jt.pce()
    }

    /// Whether the next string to begin would be an object key.
    pub closed spec fn in_key(&self) -> bool {
        self.jt.in_key()
    }

    /// Whether raw line feeds are stored as spaces.
    pub closed spec fn replace(&self) -> bool {
        self.jt.replace()
    }

    /// The bound on the nesting depth.
    pub closed spec fn max_depth(&self) -> int {
        self.jt.max_depth()
    }

    /// The configured minimum candidate size, as seen by contracts.
    pub closed spec fn spec_min_size(&self) -> usize {
        self.min_size
    }

    /// The configured repair flag, as seen by contracts.
    pub closed spec fn spec_fix_incomplete(&self) -> bool {
        self.fix_incomplete
    }

    /// Structural well-formedness of the carver.
    pub closed spec fn wf(&self) -> bool {
        &&& self.jt.wf()
        &&& self.jt.max_depth() >= 1
        &&& stack_ok(self.jt.stack())
    }

    /// Create a carver. `max_size` sets the initial candidate buffer size and
    /// `max_ident_depth` bounds the nesting depth (a zero bound is raised to
    /// one); `None` picks the defaults.
    pub fn new(max_size: Option<usize>, max_ident_depth: Option<usize>) -> (c: Carver)
        ensures
            c.wf(),
            c.buf() == Seq::<u8>::empty(),
            c.stack() == Seq::<u8>::empty(),
            c.pce() == 0,
            !c.in_key(),
            !c.replace(),
            c.max_depth() == match max_ident_depth {
                Option::Some(0) => 1int,
                Option::Some(d) => d as int,
                Option::None => crate::tracker::DEFAULT_MAX_IDENT_DEPTH as int,
            },
            c.spec_min_size() == DEFAULT_MIN_JSON_SIZE,
            !c.spec_fix_incomplete(),
    {
        Carver {
            jt: JsonTracker::new(max_size, max_ident_depth),
            min_size: DEFAULT_MIN_JSON_SIZE,
            fix_incomplete: false,
        }
    }

    /// Configure whether raw line feeds outside JSON strings are replaced by
    /// a space in the emitted bytes.
    pub fn replace_newlines(&mut self, opt: bool)
        requires
            old(self).wf(),
        ensures
            final(self).wf(),
            final(self).replace() == opt,
            final(self).spec_min_size() == old(self).spec_min_size(),
            final(self).spec_fix_incomplete() == old(self).spec_fix_incomplete(),
    {
        self.jt.set_replace_newlines(opt);
    }

    /// Set the minimum size a candidate must reach to be emitted or
    /// reported.
    pub fn set_min_size(&mut self, min_size: usize)
        requires
            old(self).wf(),
        ensures
            final(self).wf(),
            final(self).spec_min_size() == min_size,
            final(self).replace() == old(self).replace(),
            final(self).spec_fix_incomplete() == old(self).spec_fix_incomplete(),
    {
        self.min_size = min_size;
    }

    /// Set whether corrupted and exhausted candidates are emitted as
    /// repaired values.
    pub fn set_fix_incomplete(&mut self, fix_incomplete: bool)
        requires
            old(self).wf(),
        ensures
            final(self).wf(),
            final(self).spec_fix_incomplete() == fix_incomplete,
            final(self).replace() == old(self).replace(),
            final(self).spec_min_size() == old(self).spec_min_size(),
    {
        self.fix_incomplete = fix_incomplete;
    }
}

/// The scanner state a carver currently holds, as the spec-level scan sees
/// it.
pub open spec fn scan_state_of(c: Carver) -> ScanState {
    ScanState { stack: c.stack(), pce: c.pce(), cur: c.buf().len() as int, in_key: c.in_key() }
}

/// The configuration and backing storage survive a handler unchanged.
pub open spec fn config_kept(pre: &Carver, post: &Carver) -> bool {
    &&& post.replace() == pre.replace()
    &&& post.max_depth() == pre.max_depth()
    &&& post.spec_min_size() == pre.spec_min_size()
    &&& post.spec_fix_incomplete() == pre.spec_fix_incomplete()
}

/// What every per-construct handler guarantees about the bytes it consumed
/// (the region `input[op-1 .. np)`, `op`/`np` the positions at entry and
/// exit; the byte at `op-1` is the handler's own dispatch byte).
///
/// On `Found(b)` and `Corrupted(b)`, `b` is the last consumed byte and every
/// consumed byte before it has been appended to the candidate buffer; on
/// `Completed` and `Exhausted`, every consumed byte has been appended.
pub open spec fn handler_post(
    pre: &Carver,
    post: &Carver,
    input: Seq<u8>,
    op: int,
    np: int,
    c: Cause,
) -> bool {
    match c {
        Cause::Found(b) => {
            &&& np > op
            &&& b == input[np - 1]
            &&& found_byte_ok(b)
            &&& post.stack().len() > 0
            &&& post.buf() == pre.buf() + subst_seq(pre.replace(), input.subrange(op - 1, np - 1))
        },
        Cause::Corrupted(b) => {
            &&& np >= op
            &&& b == input[np - 1]
            &&& post.buf() == pre.buf() + subst_seq(pre.replace(), input.subrange(op - 1, np - 1))
        },
        Cause::Completed => {
            &&& post.stack().len() == 0
            &&& post.buf() == pre.buf() + subst_seq(pre.replace(), input.subrange(op - 1, np))
        },
        Cause::Exhausted => {
            &&& np == input.len()
            &&& post.buf() == pre.buf() + subst_seq(pre.replace(), input.subrange(op - 1, np))
        },
    }
}

/// How the in-string phase of the string scanner leaves the input: a byte
/// broke the string grammar (with the position just past it), the input
/// drained inside the string, or an unescaped quote closed it (with the
/// position just past the quote).
pub enum StringScan {
    Corrupt(u8, int),
    Drained,
    Closed(int),
}

/// The in-string phase of spec-level string scanning, from position `i` with
/// the given escape state: control bytes below 0x20 are corruption; inside a
/// `\u` escape the next `uni` bytes must be hex digits; after a backslash
/// the next byte must be escapable (`u` starting a unicode escape); an
/// unescaped backslash starts an escape; an unescaped quote closes the
/// string; anything else is an ordinary string byte.
pub open spec fn scan_in_string(input: Seq<u8>, i: int, in_escape: bool, uni: int) -> StringScan
    decreases input.len() - i,
{
    if i < 0 || i >= input.len() {
        StringScan::Drained
    } else {
        let b = input[i];
        if b < 0x20 {
            StringScan::Corrupt(b, i + 1)
        } else if uni >= 1 {
            if crate::bytes::is_hex_digit(b) {
                scan_in_string(input, i + 1, in_escape, uni - 1)
            } else {
                StringScan::Corrupt(b, i + 1)
            }
        } else if in_escape {
            if b == CHAR_U {
                scan_in_string(input, i + 1, false, 4)
            } else if crate::bytes::is_escapable(b) {
                scan_in_string(input, i + 1, false, 0)
            } else {
                StringScan::Corrupt(b, i + 1)
            }
        } else if b == CHAR_ESCAPE {
            scan_in_string(input, i + 1, true, 0)
        } else if b == CHAR_QUOT_MARK {
            StringScan::Closed(i + 1)
        } else {
            scan_in_string(input, i + 1, in_escape, uni)
        }
    }
}

/// The position just past the closing quote of a closed string scan.
pub open spec fn closed_pos(sc: StringScan) -> int {
    match sc {
        StringScan::Closed(q) => q,
        _ => 0,
    }
}

/// The byte after a closed string decides what the string was: in an array
/// an element (`,` or `]`); as an object value a member (`,` or `}`); as an
/// object key the key–value separator (`:`).
pub open spec fn string_end_ok(b: u8, top: u8, in_key: bool) -> bool {
    ||| (top == CHAR_LEFT_SQUARE_BRACKET && (b == CHAR_COMMA || b == CHAR_RIGHT_SQUARE_BRACKET))
    ||| (top == CHAR_LEFT_CURLY_BRACKET && !in_key && (b == CHAR_COMMA
        || b == CHAR_RIGHT_CURLY_BRACKET))
    ||| (top == CHAR_LEFT_CURLY_BRACKET && in_key && b == CHAR_COLON)
}

/// How the number scanner leaves the input: a byte broke the number grammar
/// (with the position just past it), the input drained inside the number, or
/// a terminator (`,`, `]` or `}`) ended it.
pub enum NumScan {
    Corrupt(u8, int),
    Drained,
    End(u8, int),
}

/// Spec-level number scanning from position `i`. `last` is the previous
/// byte as appended to the buffer; a sign or decimal point must be followed
/// by a digit, an exponent sign by a digit or a sign; after a digit, digits
/// and whitespace continue, one fraction and one exponent may begin, and a
/// terminator ends the number; after whitespace only more whitespace or a
/// terminator; a digit right after a leading zero is corruption.
pub open spec fn scan_number(
    input: Seq<u8>,
    i: int,
    replace: bool,
    last: u8,
    in_frac: bool,
    in_exp: bool,
    lz_known: bool,
    lz: bool,
) -> NumScan
    decreases input.len() - i,
{
    if i < 0 || i >= input.len() {
        NumScan::Drained
    } else {
        let b = input[i];
        let k2 = lz_known || last == CHAR_ZERO || last != CHAR_MINUS;
        let l2 = if lz_known {
            lz
        } else {
            last == CHAR_ZERO
        };
        if k2 && l2 && is_digit(b) {
            NumScan::Corrupt(b, i + 1)
        } else {
            let l3 = if k2 && l2 {
                false
            } else {
                l2
            };
            let nb = subst_byte(replace, b);
            if last == CHAR_MINUS || last == CHAR_PLUS || last == CHAR_DECIMAL {
                if is_digit(b) {
                    scan_number(input, i + 1, replace, nb, in_frac, in_exp, k2, l3)
                } else {
                    NumScan::Corrupt(b, i + 1)
                }
            } else if last == CHAR_EXP_LOWER || last == CHAR_EXP_UPPER {
                if is_digit(b) || b == CHAR_MINUS || b == CHAR_PLUS {
                    scan_number(input, i + 1, replace, nb, in_frac, in_exp, k2, l3)
                } else {
                    NumScan::Corrupt(b, i + 1)
                }
            } else if is_digit(last) {
                if is_digit(b) || is_whitespace(b) {
                    scan_number(input, i + 1, replace, nb, in_frac, in_exp, k2, l3)
                } else if b == CHAR_DECIMAL {
                    if in_frac || in_exp {
                        NumScan::Corrupt(b, i + 1)
                    } else {
                        scan_number(input, i + 1, replace, nb, true, in_exp, k2, l3)
                    }
                } else if b == CHAR_EXP_LOWER || b == CHAR_EXP_UPPER {
                    if in_exp {
                        NumScan::Corrupt(b, i + 1)
                    } else {
                        scan_number(input, i + 1, replace, nb, in_frac, true, k2, l3)
                    }
                } else if element_end_ok(b) {
                    NumScan::End(b, i + 1)
                } else {
                    NumScan::Corrupt(b, i + 1)
                }
            } else if is_whitespace(last) {
                if element_end_ok(b) {
                    NumScan::End(b, i + 1)
                } else if is_whitespace(b) {
                    scan_number(input, i + 1, replace, nb, in_frac, in_exp, k2, l3)
                } else {
                    NumScan::Corrupt(b, i + 1)
                }
            } else {
                NumScan::Corrupt(b, i + 1)
            }
        }
    }
}

/// How matching a literal's remaining characters leaves the input: a byte
/// differed (with the position just past it), the input drained inside the
/// literal, or the whole tail matched (with the position just past it).
pub enum LitScan {
    Corrupt(u8, int),
    Drained,
    Matched(int),
}

/// The remaining characters of the literal that `start_char` begins:
/// `alse` for `f`, `ull` for `n`, `rue` for `t`.
pub open spec fn literal_tail(start_char: u8) -> Seq<u8> {
    if start_char == CHAR_START_FALSE {
        seq![0x61u8, 0x6Cu8, 0x73u8, 0x65u8]
    } else if start_char == CHAR_START_NULL {
        seq![0x75u8, 0x6Cu8, 0x6Cu8]
    } else {
        seq![0x72u8, 0x75u8, 0x65u8]
    }
}

/// Spec-level literal matching: the input from position `i` must spell `t`
/// exactly.
pub open spec fn scan_literal_tail(input: Seq<u8>, i: int, t: Seq<u8>) -> LitScan
    decreases t.len(),
{
    if t.len() == 0 {
        LitScan::Matched(i)
    } else if i < 0 || i >= input.len() {
        LitScan::Drained
    } else if input[i] != t[0] {
        LitScan::Corrupt(input[i], i + 1)
    } else {
        scan_literal_tail(input, i + 1, t.subrange(1, t.len() as int))
    }
}

/// The position just past a fully matched literal tail.
pub open spec fn matched_pos(sc: LitScan) -> int {
    match sc {
        LitScan::Matched(q) => q,
        _ => 0,
    }
}

/// Relies on memchr::memchr2: the index of the first occurrence of either
/// needle byte in the haystack, or `None` when neither occurs.
#[verifier::external_body]
fn memchr2_wrap(needle1: u8, needle2: u8, haystack: &[u8]) -> (r: Option<usize>)
    ensures
        match r {
            Some(i) => i < haystack@.len() && (haystack@[i as int] == needle1
                || haystack@[i as int] == needle2) && forall|j: int|
                0 <= j < i ==> haystack@[j] != needle1 && haystack@[j] != needle2,
            None => forall|j: int|
                0 <= j < haystack@.len() ==> haystack@[j] != needle1 && haystack@[j] != needle2,
        },
{
    memchr::memchr2(needle1, needle2, haystack)
}

/// Appending the substituted byte at `input[mid]` extends the substituted
/// image of the consumed region by one.
proof fn lemma_append_one(replace: bool, base: Seq<u8>, input: Seq<u8>, lo: int, mid: int)
    requires
        0 <= lo <= mid < input.len(),
    ensures
        (base + subst_seq(replace, input.subrange(lo, mid))).push(
            subst_byte(replace, input[mid]),
        ) == base + subst_seq(replace, input.subrange(lo, mid + 1)),
{
    assert((base + subst_seq(replace, input.subrange(lo, mid))).push(
        subst_byte(replace, input[mid]),
    ) =~= base + subst_seq(replace, input.subrange(lo, mid + 1)));
}

/// A fresh candidate buffer holds exactly what was appended to it.
proof fn lemma_empty_prepend(s: Seq<u8>)
    ensures
        Seq::<u8>::empty() + s == s,
{
    assert(Seq::<u8>::empty() + s =~= s);
}

/// The substituted images of two adjacent consumed regions join.
proof fn lemma_join(replace: bool, base: Seq<u8>, input: Seq<u8>, a: int, b: int, c: int)
    requires
        0 <= a <= b <= c <= input.len(),
    ensures
        (base + subst_seq(replace, input.subrange(a, b))) + subst_seq(
            replace,
            input.subrange(b, c),
        ) == base + subst_seq(replace, input.subrange(a, c)),
{
    assert((base + subst_seq(replace, input.subrange(a, b))) + subst_seq(
        replace,
        input.subrange(b, c),
    ) =~= base + subst_seq(replace, input.subrange(a, c)));
}

/// Resynchronisation: consume bytes until an opener (`[` or `{`) is seen,
/// leaving the position just past it. Returns how many bytes were consumed
/// (the opener included) and the opener itself, or `None` when the input
/// drained without one.
fn scout(input: &[u8], pos: &mut usize) -> (r: Option<(usize, u8)>)
    requires
        *old(pos) <= input@.len(),
    ensures
        *old(pos) <= *final(pos) <= input@.len(),
        match r {
            Some((read, ch)) => {
                &&& read >= 1
                &&& *final(pos) == *old(pos) + read
                &&& ch == input@[*final(pos) - 1]
                &&& is_opener(ch)
                &&& forall|j: int|
                    *old(pos) <= j < *final(pos) - 1 ==> !is_opener(#[trigger] input@[j])
            },
            None => {
                &&& *final(pos) == input@.len()
                &&& forall|j: int|
                    *old(pos) <= j < input@.len() ==> !is_opener(#[trigger] input@[j])
            },
        },
{
    let ghost op = *pos as int;
    let sub: &[u8] = &input[*pos..input.len()];
    proof {
        assert(sub@ == input@.subrange(op, input@.len() as int));
    }
    match memchr2_wrap(CHAR_LEFT_SQUARE_BRACKET, CHAR_LEFT_CURLY_BRACKET, sub) {
        Some(i) => {
            let ch = sub[i];
            *pos = *pos + i + 1;
            proof {
                assert(ch == input@[op + i]);
                assert forall|j: int| op <= j < op + i implies !is_opener(#[trigger] input@[j]) by {
                    assert(input@[j] == sub@[j - op]);
                }
            }
            Some((i + 1, ch))
        },
        None => {
            *pos = input.len();
            proof {
                assert forall|j: int| op <= j < input@.len() implies !is_opener(
                    #[trigger] input@[j],
                ) by {
                    assert(input@[j] == sub@[j - op]);
                }
            }
            None
        },
    }
}

impl Carver {
    /// Array opener: push `[`, then seek the first element or the closing
    /// bracket. A push past the depth bound rejects the candidate as
    /// corrupted at the opener itself.
    fn handle_left_square_bracket(&mut self, input: &[u8], pos: &mut usize) -> (c: Cause)
        requires
            old(self).wf(),
            1 <= *old(pos) <= input@.len(),
            input@[*old(pos) - 1] == CHAR_LEFT_SQUARE_BRACKET,
        ensures
            final(self).wf(),
            config_kept(old(self), final(self)),
            *old(pos) <= *final(pos) <= input@.len(),
            handler_post(old(self), final(self), input@, *old(pos) as int, *final(pos) as int, c),
            (c is Corrupted && *final(pos) == *old(pos)) ==> old(self).stack().len() >= old(
                self,
            ).max_depth(),
            !(c is Completed),
            ({
                let k = next_significant(input@, *old(pos) as int);
                if old(self).stack().len() >= old(self).max_depth() {
                    c == Cause::Corrupted(CHAR_LEFT_SQUARE_BRACKET) && *final(pos) == *old(pos)
                        && *final(self) == *old(self)
                } else if k == input@.len() {
                    c is Exhausted
                } else if value_start_ok(input@[k]) || input@[k] == CHAR_RIGHT_SQUARE_BRACKET {
                    c == Cause::Found(input@[k]) && *final(pos) == k + 1
                } else {
                    c == Cause::Corrupted(input@[k]) && *final(pos) == k + 1
                }
            }),
            old(self).stack().len() < old(self).max_depth() ==> {
                &&& final(self).stack() == old(self).stack().push(CHAR_LEFT_SQUARE_BRACKET)
                &&& final(self).pce() == old(self).buf().len()
                &&& final(self).in_key() == old(self).in_key()
            },
    {
        let ghost pre = *self;
        let ghost op = *old(pos) as int;
        proof {
            crate::bytes::lemma_next_significant(input@, op);
        }
        if !self.jt.has_room() {
            proof {
                assert(self.buf() =~= pre.buf() + subst_seq(
                    pre.replace(),
                    input@.subrange(op - 1, op - 1),
                ));
            }
            return Cause::Corrupted(CHAR_LEFT_SQUARE_BRACKET);
        }
        self.jt.add_ident(CHAR_LEFT_SQUARE_BRACKET);
        proof {
            assert(self.buf() =~= pre.buf() + subst_seq(
                pre.replace(),
                input@.subrange(op - 1, op),
            ));
        }
        while *pos < input.len()
            invariant
                self.wf(),
                config_kept(&pre, self),
                pre == *old(self),
                op == *old(pos) as int,
                1 <= op,
                op <= *pos as int <= input@.len(),
                self.buf() == pre.buf() + subst_seq(
                    pre.replace(),
                    input@.subrange(op - 1, *pos as int),
                ),
                self.stack() == pre.stack().push(CHAR_LEFT_SQUARE_BRACKET),
                pre.stack().len() < pre.max_depth(),
                self.pce() == pre.buf().len(),
                self.in_key() == pre.in_key(),
                next_significant(input@, op) == next_significant(input@, *pos as int),
            decreases input@.len() - *pos as int,
        {
            let i = *pos;
            let b = input[i];
            *pos = i + 1;
            match b {
                CHAR_LEFT_SQUARE_BRACKET
                | CHAR_LEFT_CURLY_BRACKET
                | CHAR_RIGHT_SQUARE_BRACKET
                | CHAR_QUOT_MARK
                | CHAR_MINUS
                | CHAR_ZERO..=CHAR_NINE
                | CHAR_START_FALSE
                | CHAR_START_NULL
                | CHAR_START_TRUE => {
                    return Cause::Found(b);
                },
                CHAR_SPACE | CHAR_TAB | CHAR_NEWLINE | CHAR_CARRIAGE_RETURN => {
                    proof {
                        lemma_append_one(pre.replace(), pre.buf(), input@, op - 1, i as int);
                    }
                    self.jt.advance(b);
                },
                _ => {
                    return Cause::Corrupted(b);
                },
            }
        }
        Cause::Exhausted
    }

    /// Object opener: push `{`, then seek the first key (marking that a key
    /// follows) or the closing brace. A push past the depth bound rejects
    /// the candidate as corrupted at the opener itself.
    fn handle_left_curly_bracket(&mut self, input: &[u8], pos: &mut usize) -> (c: Cause)
        requires
            old(self).wf(),
            1 <= *old(pos) <= input@.len(),
            input@[*old(pos) - 1] == CHAR_LEFT_CURLY_BRACKET,
        ensures
            final(self).wf(),
            config_kept(old(self), final(self)),
            *old(pos) <= *final(pos) <= input@.len(),
            handler_post(old(self), final(self), input@, *old(pos) as int, *final(pos) as int, c),
            (c is Corrupted && *final(pos) == *old(pos)) ==> old(self).stack().len() >= old(
                self,
            ).max_depth(),
            !(c is Completed),
            ({
                let k = next_significant(input@, *old(pos) as int);
                if old(self).stack().len() >= old(self).max_depth() {
                    c == Cause::Corrupted(CHAR_LEFT_CURLY_BRACKET) && *final(pos) == *old(pos)
                        && *final(self) == *old(self)
                } else if k == input@.len() {
                    c is Exhausted
                } else if input@[k] == CHAR_QUOT_MARK || input@[k] == CHAR_RIGHT_CURLY_BRACKET {
                    c == Cause::Found(input@[k]) && *final(pos) == k + 1
                } else {
                    c == Cause::Corrupted(input@[k]) && *final(pos) == k + 1
                }
            }),
            old(self).stack().len() < old(self).max_depth() ==> {
                &&& final(self).stack() == old(self).stack().push(CHAR_LEFT_CURLY_BRACKET)
                &&& final(self).pce() == old(self).buf().len()
                &&& final(self).in_key() == (old(self).in_key() || c == Cause::Found(
                    CHAR_QUOT_MARK,
                ))
            },
    {
        let ghost pre = *self;
        let ghost op = *old(pos) as int;
        proof {
            crate::bytes::lemma_next_significant(input@, op);
        }
        if !self.jt.has_room() {
            proof {
                assert(self.buf() =~= pre.buf() + subst_seq(
                    pre.replace(),
                    input@.subrange(op - 1, op - 1),
                ));
            }
            return Cause::Corrupted(CHAR_LEFT_CURLY_BRACKET);
        }
        self.jt.add_ident(CHAR_LEFT_CURLY_BRACKET);
        proof {
            assert(self.buf() =~= pre.buf() + subst_seq(
                pre.replace(),
                input@.subrange(op - 1, op),
            ));
        }
        while *pos < input.len()
            invariant
                self.wf(),
                config_kept(&pre, self),
                pre == *old(self),
                op == *old(pos) as int,
                1 <= op,
                op <= *pos as int <= input@.len(),
                self.buf() == pre.buf() + subst_seq(
                    pre.replace(),
                    input@.subrange(op - 1, *pos as int),
                ),
                self.stack() == pre.stack().push(CHAR_LEFT_CURLY_BRACKET),
                pre.stack().len() < pre.max_depth(),
                self.pce() == pre.buf().len(),
                self.in_key() == pre.in_key(),
                next_significant(input@, op) == next_significant(input@, *pos as int),
            decreases input@.len() - *pos as int,
        {
            let i = *pos;
            let b = input[i];
            *pos = i + 1;
            match b {
                CHAR_QUOT_MARK => {
                    self.jt.set_in_key(true);
                    return Cause::Found(b);
                },
                CHAR_RIGHT_CURLY_BRACKET => {
                    return Cause::Found(b);
                },
                CHAR_SPACE | CHAR_TAB | CHAR_NEWLINE | CHAR_CARRIAGE_RETURN => {
                    proof {
                        lemma_append_one(pre.replace(), pre.buf(), input@, op - 1, i as int);
                    }
                    self.jt.advance(b);
                },
                _ => {
                    return Cause::Corrupted(b);
                },
            }
        }
        Cause::Exhausted
    }

    /// Array closer: pop `[` (a mismatch is corruption at the closer), then
    /// seek what may follow a closed value, unless the candidate completed.
    fn handle_right_square_bracket(&mut self, input: &[u8], pos: &mut usize) -> (c: Cause)
        requires
            old(self).wf(),
            1 <= *old(pos) <= input@.len(),
            input@[*old(pos) - 1] == CHAR_RIGHT_SQUARE_BRACKET,
        ensures
            final(self).wf(),
            config_kept(old(self), final(self)),
            *old(pos) <= *final(pos) <= input@.len(),
            handler_post(old(self), final(self), input@, *old(pos) as int, *final(pos) as int, c),
            ({
                let k = next_significant(input@, *old(pos) as int);
                if old(self).stack().len() == 0 || old(self).stack().last() != CHAR_LEFT_SQUARE_BRACKET {
                    c == Cause::Corrupted(CHAR_RIGHT_SQUARE_BRACKET) && *final(pos) == *old(pos) && *final(self)
                        == *old(self)
                } else if old(self).stack().len() == 1 {
                    c is Completed && *final(pos) == *old(pos)
                } else if k == input@.len() {
                    c is Exhausted
                } else if element_end_ok(input@[k]) {
                    c == Cause::Found(input@[k]) && *final(pos) == k + 1
                } else {
                    c == Cause::Corrupted(input@[k]) && *final(pos) == k + 1
                }
            }),
            (old(self).stack().len() > 0 && old(self).stack().last() == CHAR_LEFT_SQUARE_BRACKET) ==> {
                &&& final(self).stack() == old(self).stack().drop_last()
                &&& final(self).pce() == old(self).buf().len()
                &&& final(self).in_key() == old(self).in_key()
            },
    {
        let ghost pre = *self;
        let ghost op = *old(pos) as int;
        proof {
            crate::bytes::lemma_next_significant(input@, op);
        }
        match self.jt.remove_ident(CHAR_LEFT_SQUARE_BRACKET) {
            Ok(true) => {
                proof {
                    assert(self.buf() =~= pre.buf() + subst_seq(
                        pre.replace(),
                        input@.subrange(op - 1, op),
                    ));
                    assert(stack_ok(self.stack()));
                }
                return Cause::Completed;
            },
            Ok(false) => {
                proof {
                    assert(self.buf() =~= pre.buf() + subst_seq(
                        pre.replace(),
                        input@.subrange(op - 1, op),
                    ));
                    assert forall|j: int| 0 <= j < self.stack().len() implies is_opener(
                        #[trigger] self.stack()[j],
                    ) by {
                        assert(self.stack()[j] == pre.stack()[j]);
                    }
                }
            },
            Err(_) => {
                proof {
                    assert(self.buf() =~= pre.buf() + subst_seq(
                        pre.replace(),
                        input@.subrange(op - 1, op - 1),
                    ));
                }
                return Cause::Corrupted(CHAR_RIGHT_SQUARE_BRACKET);
            },
        }

        while *pos < input.len()
            invariant
                self.wf(),
                config_kept(&pre, self),
                pre == *old(self),
                op == *old(pos) as int,
                1 <= op,
                op <= *pos as int <= input@.len(),
                self.buf() == pre.buf() + subst_seq(
                    pre.replace(),
                    input@.subrange(op - 1, *pos as int),
                ),
                self.stack() == pre.stack().drop_last(),
                self.stack().len() > 0,
                pre.stack().len() > 1,
                pre.stack().last() == CHAR_LEFT_SQUARE_BRACKET,
                self.pce() == pre.buf().len(),
                self.in_key() == pre.in_key(),
                next_significant(input@, op) == next_significant(input@, *pos as int),
            decreases input@.len() - *pos as int,
        {
            let i = *pos;
            let b = input[i];
            *pos = i + 1;
            match b {
                CHAR_COMMA | CHAR_RIGHT_SQUARE_BRACKET | CHAR_RIGHT_CURLY_BRACKET => {
                    return Cause::Found(b);
                },
                CHAR_SPACE | CHAR_TAB | CHAR_NEWLINE | CHAR_CARRIAGE_RETURN => {
                    proof {
                        lemma_append_one(pre.replace(), pre.buf(), input@, op - 1, i as int);
                    }
                    self.jt.advance(b);
                },
                _ => {
                    return Cause::Corrupted(b);
                },
            }
        }
        Cause::Exhausted
    }

    /// Object closer: pop `{` (a mismatch is corruption at the closer), then
    /// seek what may follow a closed value, unless the candidate completed.
    fn handle_right_curly_bracket(&mut self, input: &[u8], pos: &mut usize) -> (c: Cause)
        requires
            old(self).wf(),
            1 <= *old(pos) <= input@.len(),
            input@[*old(pos) - 1] == CHAR_RIGHT_CURLY_BRACKET,
        ensures
            final(self).wf(),
            config_kept(old(self), final(self)),
            *old(pos) <= *final(pos) <= input@.len(),
            handler_post(old(self), final(self), input@, *old(pos) as int, *final(pos) as int, c),
            ({
                let k = next_significant(input@, *old(pos) as int);
                if old(self).stack().len() == 0 || old(self).stack().last() != CHAR_LEFT_CURLY_BRACKET {
                    c == Cause::Corrupted(CHAR_RIGHT_CURLY_BRACKET) && *final(pos) == *old(pos) && *final(self)
                        == *old(self)
                } else if old(self).stack().len() == 1 {
                    c is Completed && *final(pos) == *old(pos)
                } else if k == input@.len() {
                    c is Exhausted
                } else if element_end_ok(input@[k]) {
                    c == Cause::Found(input@[k]) && *final(pos) == k + 1
                } else {
                    c == Cause::Corrupted(input@[k]) && *final(pos) == k + 1
                }
            }),
            (old(self).stack().len() > 0 && old(self).stack().last() == CHAR_LEFT_CURLY_BRACKET) ==> {
                &&& final(self).stack() == old(self).stack().drop_last()
                &&& final(self).pce() == old(self).buf().len()
                &&& final(self).in_key() == old(self).in_key()
            },
    {
        let ghost pre = *self;
        let ghost op = *old(pos) as int;
        proof {
            crate::bytes::lemma_next_significant(input@, op);
        }
        match self.jt.remove_ident(CHAR_LEFT_CURLY_BRACKET) {
            Ok(true) => {
                proof {
                    assert(self.buf() =~= pre.buf() + subst_seq(
                        pre.replace(),
                        input@.subrange(op - 1, op),
                    ));
                    assert(stack_ok(self.stack()));
                }
                return Cause::Completed;
            },
            Ok(false) => {
                proof {
                    assert(self.buf() =~= pre.buf() + subst_seq(
                        pre.replace(),
                        input@.subrange(op - 1, op),
                    ));
                    assert forall|j: int| 0 <= j < self.stack().len() implies is_opener(
                        #[trigger] self.stack()[j],
                    ) by {
                        assert(self.stack()[j] == pre.stack()[j]);
                    }
                }
            },
            Err(_) => {
                proof {
                    assert(self.buf() =~= pre.buf() + subst_seq(
                        pre.replace(),
                        input@.subrange(op - 1, op - 1),
                    ));
                }
                return Cause::Corrupted(CHAR_RIGHT_CURLY_BRACKET);
            },
        }

        while *pos < input.len()
            invariant
                self.wf(),
                config_kept(&pre, self),
                pre == *old(self),
                op == *old(pos) as int,
                1 <= op,
                op <= *pos as int <= input@.len(),
                self.buf() == pre.buf() + subst_seq(
                    pre.replace(),
                    input@.subrange(op - 1, *pos as int),
                ),
                self.stack() == pre.stack().drop_last(),
                self.stack().len() > 0,
                pre.stack().len() > 1,
                pre.stack().last() == CHAR_LEFT_CURLY_BRACKET,
                self.pce() == pre.buf().len(),
                self.in_key() == pre.in_key(),
                next_significant(input@, op) == next_significant(input@, *pos as int),
            decreases input@.len() - *pos as int,
        {
            let i = *pos;
            let b = input[i];
            *pos = i + 1;
            match b {
                CHAR_COMMA | CHAR_RIGHT_SQUARE_BRACKET | CHAR_RIGHT_CURLY_BRACKET => {
                    return Cause::Found(b);
                },
                CHAR_SPACE | CHAR_TAB | CHAR_NEWLINE | CHAR_CARRIAGE_RETURN => {
                    proof {
                        lemma_append_one(pre.replace(), pre.buf(), input@, op - 1, i as int);
                    }
                    self.jt.advance(b);
                },
                _ => {
                    return Cause::Corrupted(b);
                },
            }
        }
        Cause::Exhausted
    }

    /// Key–value separator: append `:`, clear the key marker, then seek the
    /// start of the value.
    fn handle_colon(&mut self, input: &[u8], pos: &mut usize) -> (c: Cause)
        requires
            old(self).wf(),
            old(self).stack().len() > 0,
            1 <= *old(pos) <= input@.len(),
            input@[*old(pos) - 1] == CHAR_COLON,
        ensures
            final(self).wf(),
            config_kept(old(self), final(self)),
            *old(pos) <= *final(pos) <= input@.len(),
            handler_post(old(self), final(self), input@, *old(pos) as int, *final(pos) as int, c),
            !(c is Completed),
            ({
                let k = next_significant(input@, *old(pos) as int);
                if k == input@.len() {
                    c is Exhausted
                } else if value_start_ok(input@[k]) {
                    c == Cause::Found(input@[k]) && *final(pos) == k + 1
                } else {
                    c == Cause::Corrupted(input@[k]) && *final(pos) == k + 1
                }
            }),
            final(self).stack() == old(self).stack(),
            final(self).pce() == old(self).pce(),
            !final(self).in_key(),
    {
        let ghost pre = *self;
        let ghost op = *old(pos) as int;
        proof {
            crate::bytes::lemma_next_significant(input@, op);
        }
        self.jt.set_in_key(false);
        self.jt.advance(CHAR_COLON);
        proof {
            assert(self.buf() =~= pre.buf() + subst_seq(
                pre.replace(),
                input@.subrange(op - 1, op),
            ));
        }
        while *pos < input.len()
            invariant
                self.wf(),
                config_kept(&pre, self),
                pre == *old(self),
                op == *old(pos) as int,
                1 <= op,
                op <= *pos as int <= input@.len(),
                self.buf() == pre.buf() + subst_seq(
                    pre.replace(),
                    input@.subrange(op - 1, *pos as int),
                ),
                self.stack() == pre.stack(),
                self.stack().len() > 0,
                self.pce() == pre.pce(),
                !self.in_key(),
                next_significant(input@, op) == next_significant(input@, *pos as int),
            decreases input@.len() - *pos as int,
        {
            let i = *pos;
            let b = input[i];
            *pos = i + 1;
            match b {
                CHAR_LEFT_CURLY_BRACKET
                | CHAR_LEFT_SQUARE_BRACKET
                | CHAR_MINUS
                | CHAR_ZERO..=CHAR_NINE
                | CHAR_QUOT_MARK
                | CHAR_START_FALSE
                | CHAR_START_NULL
                | CHAR_START_TRUE => {
                    return Cause::Found(b);
                },
                CHAR_SPACE | CHAR_TAB | CHAR_NEWLINE | CHAR_CARRIAGE_RETURN => {
                    proof {
                        lemma_append_one(pre.replace(), pre.buf(), input@, op - 1, i as int);
                    }
                    self.jt.advance(b);
                },
                _ => {
                    return Cause::Corrupted(b);
                },
            }
        }
        Cause::Exhausted
    }

    /// Element separator: append `,`, then branch on the innermost open
    /// container — in an array seek the next value, in an object seek the
    /// next key (marking that a key follows).
    fn handle_comma(&mut self, input: &[u8], pos: &mut usize) -> (c: Cause)
        requires
            old(self).wf(),
            old(self).stack().len() > 0,
            1 <= *old(pos) <= input@.len(),
            input@[*old(pos) - 1] == CHAR_COMMA,
        ensures
            final(self).wf(),
            config_kept(old(self), final(self)),
            *old(pos) <= *final(pos) <= input@.len(),
            handler_post(old(self), final(self), input@, *old(pos) as int, *final(pos) as int, c),
            !(c is Completed),
            ({
                let k = next_significant(input@, *old(pos) as int);
                let top = old(self).stack().last();
                if k == input@.len() {
                    c is Exhausted
                } else if top == CHAR_LEFT_SQUARE_BRACKET {
                    if value_start_ok(input@[k]) {
                        c == Cause::Found(input@[k]) && *final(pos) == k + 1
                    } else {
                        c == Cause::Corrupted(input@[k]) && *final(pos) == k + 1
                    }
                } else {
                    if input@[k] == CHAR_QUOT_MARK {
                        c == Cause::Found(input@[k]) && *final(pos) == k + 1
                    } else {
                        c == Cause::Corrupted(input@[k]) && *final(pos) == k + 1
                    }
                }
            }),
            final(self).stack() == old(self).stack(),
            final(self).pce() == old(self).pce(),
            final(self).in_key() == (old(self).in_key() || (old(self).stack().last()
                == CHAR_LEFT_CURLY_BRACKET && c == Cause::Found(CHAR_QUOT_MARK))),
    {
        let ghost pre = *self;
        let ghost op = *old(pos) as int;
        proof {
            crate::bytes::lemma_next_significant(input@, op);
        }
        self.jt.advance(CHAR_COMMA);
        proof {
            assert(self.buf() =~= pre.buf() + subst_seq(
                pre.replace(),
                input@.subrange(op - 1, op),
            ));
            assert(is_opener(self.stack()[self.stack().len() - 1]));
        }
        let top = match self.jt.last_ident() {
            Some(t) => t,
            None => {
                proof {
                    assert(false);
                }
                0
            },
        };
        if top == CHAR_LEFT_SQUARE_BRACKET {
            while *pos < input.len()
                invariant
                    self.wf(),
                    config_kept(&pre, self),
                    pre == *old(self),
                    op == *old(pos) as int,
                    1 <= op,
                    op <= *pos as int <= input@.len(),
                    self.buf() == pre.buf() + subst_seq(
                        pre.replace(),
                        input@.subrange(op - 1, *pos as int),
                    ),
                    self.stack() == pre.stack(),
                    self.stack().len() > 0,
                    pre.stack().last() == CHAR_LEFT_SQUARE_BRACKET,
                    self.pce() == pre.pce(),
                    self.in_key() == pre.in_key(),
                    next_significant(input@, op) == next_significant(input@, *pos as int),
                decreases input@.len() - *pos as int,
            {
                let i = *pos;
                let b = input[i];
                *pos = i + 1;
                match b {
                    CHAR_LEFT_CURLY_BRACKET
                    | CHAR_LEFT_SQUARE_BRACKET
                    | CHAR_MINUS
                    | CHAR_ZERO..=CHAR_NINE
                    | CHAR_QUOT_MARK
                    | CHAR_START_FALSE
                    | CHAR_START_NULL
                    | CHAR_START_TRUE => {
                        return Cause::Found(b);
                    },
                    CHAR_SPACE | CHAR_TAB | CHAR_NEWLINE | CHAR_CARRIAGE_RETURN => {
                        proof {
                            lemma_append_one(pre.replace(), pre.buf(), input@, op - 1, i as int);
                        }
                        self.jt.advance(b);
                    },
                    _ => {
                        return Cause::Corrupted(b);
                    },
                }
            }
            Cause::Exhausted
        } else {
            proof {
                assert(top == CHAR_LEFT_CURLY_BRACKET);
            }
            while *pos < input.len()
                invariant
                    self.wf(),
                    config_kept(&pre, self),
                    pre == *old(self),
                    op == *old(pos) as int,
                    1 <= op,
                    op <= *pos as int <= input@.len(),
                    self.buf() == pre.buf() + subst_seq(
                        pre.replace(),
                        input@.subrange(op - 1, *pos as int),
                    ),
                    self.stack() == pre.stack(),
                    self.stack().len() > 0,
                    pre.stack().last() == CHAR_LEFT_CURLY_BRACKET,
                    self.pce() == pre.pce(),
                    self.in_key() == pre.in_key(),
                    next_significant(input@, op) == next_significant(input@, *pos as int),
                decreases input@.len() - *pos as int,
            {
                let i = *pos;
                let b = input[i];
                *pos = i + 1;
                match b {
                    CHAR_QUOT_MARK => {
                        self.jt.set_in_key(true);
                        return Cause::Found(b);
                    },
                    CHAR_SPACE | CHAR_TAB | CHAR_NEWLINE | CHAR_CARRIAGE_RETURN => {
                        proof {
                            lemma_append_one(pre.replace(), pre.buf(), input@, op - 1, i as int);
                        }
                        self.jt.advance(b);
                    },
                    _ => {
                        return Cause::Corrupted(b);
                    },
                }
            }
            Cause::Exhausted
        }
    }
}

impl Carver {
    /// String scanner: append the opening quote and every string byte.
    /// Inside the string, control bytes are corruption, a backslash starts an
    /// escape (whose next byte must be escapable; `u` demands four hex
    /// digits), and an unescaped quote closes the string. After the close,
    /// whitespace is skipped, then the disambiguating byte decides: in an
    /// array `,` or `]`; as an object value `,` or `}`; as an object key `:`.
    /// The string's own bytes never touch the nest stack.
    fn handle_string(&mut self, input: &[u8], pos: &mut usize) -> (c: Cause)
        requires
            old(self).wf(),
            old(self).stack().len() > 0,
            1 <= *old(pos) <= input@.len(),
            input@[*old(pos) - 1] == CHAR_QUOT_MARK,
        ensures
            final(self).wf(),
            config_kept(old(self), final(self)),
            *old(pos) <= *final(pos) <= input@.len(),
            handler_post(old(self), final(self), input@, *old(pos) as int, *final(pos) as int, c),
            !(c is Completed),
            final(self).stack() == old(self).stack(),
            final(self).pce() == old(self).pce(),
            final(self).in_key() == old(self).in_key(),
            ({
                let sc = scan_in_string(input@, *old(pos) as int, false, 0);
                match sc {
                    StringScan::Corrupt(b, np) => c == Cause::Corrupted(b) && *final(pos) as int
                        == np,
                    StringScan::Drained => c is Exhausted,
                    StringScan::Closed(q) => ({
                        let k = next_significant(input@, q);
                        if k == input@.len() {
                            c is Exhausted
                        } else if string_end_ok(
                            input@[k],
                            old(self).stack().last(),
                            old(self).in_key(),
                        ) {
                            c == Cause::Found(input@[k]) && *final(pos) == k + 1
                        } else {
                            c == Cause::Corrupted(input@[k]) && *final(pos) == k + 1
                        }
                    }),
                }
            }),
    {
        let ghost pre = *self;
        let ghost op = *old(pos) as int;
        self.jt.advance(CHAR_QUOT_MARK);
        proof {
            assert(self.buf() =~= pre.buf() + subst_seq(
                pre.replace(),
                input@.subrange(op - 1, op),
            ));
        }
        let mut in_string = true;
        let mut in_escape = false;
        let mut in_escaped_unicode: usize = 0;

        while *pos < input.len()
            invariant
                self.wf(),
                config_kept(&pre, self),
                pre == *old(self),
                op == *old(pos) as int,
                1 <= op,
                op <= *pos as int <= input@.len(),
                self.buf() == pre.buf() + subst_seq(
                    pre.replace(),
                    input@.subrange(op - 1, *pos as int),
                ),
                self.stack() == pre.stack(),
                self.stack().len() > 0,
                self.pce() == pre.pce(),
                self.in_key() == pre.in_key(),
                in_escaped_unicode <= 4,
                in_string ==> scan_in_string(input@, op, false, 0) == scan_in_string(
                    input@,
                    *pos as int,
                    in_escape,
                    in_escaped_unicode as int,
                ),
                !in_string ==> ({
                    let sc = scan_in_string(input@, op, false, 0);
                    &&& sc is Closed
                    &&& 0 <= closed_pos(sc) <= input@.len()
                    &&& next_significant(input@, closed_pos(sc)) == next_significant(
                        input@,
                        *pos as int,
                    )
                }),
            decreases input@.len() - *pos as int,
        {
            let i = *pos;
            let b = input[i];
            *pos = i + 1;

            if !in_string {
                if byte_is_whitespace(b) {
                    proof {
                        lemma_append_one(pre.replace(), pre.buf(), input@, op - 1, i as int);
                    }
                    self.jt.advance(b);
                } else {
                    proof {
                        assert(is_opener(self.stack()[self.stack().len() - 1]));
                    }
                    let last_ident = match self.jt.last_ident() {
                        Some(t) => t,
                        None => {
                            proof {
                                assert(false);
                            }
                            0
                        },
                    };
                    let in_key = self.jt.is_in_key();
                    if last_ident == CHAR_LEFT_SQUARE_BRACKET && (b == CHAR_COMMA
                        || b == CHAR_RIGHT_SQUARE_BRACKET) {
                        return Cause::Found(b);
                    } else if last_ident == CHAR_LEFT_CURLY_BRACKET && !in_key && (b == CHAR_COMMA
                        || b == CHAR_RIGHT_CURLY_BRACKET) {
                        return Cause::Found(b);
                    } else if last_ident == CHAR_LEFT_CURLY_BRACKET && in_key && b == CHAR_COLON {
                        return Cause::Found(b);
                    } else {
                        return Cause::Corrupted(b);
                    }
                }
            } else {
                if b < 0x20 {
                    return Cause::Corrupted(b);
                } else if in_escaped_unicode >= 1 {
                    if byte_is_hex_digit(b) {
                        in_escaped_unicode -= 1;
                    } else {
                        return Cause::Corrupted(b);
                    }
                } else if in_escape {
                    if b == CHAR_U {
                        in_escaped_unicode = 4;
                        in_escape = false;
                    } else if byte_can_escape(b) {
                        in_escape = false;
                    } else {
                        return Cause::Corrupted(b);
                    }
                } else if b == CHAR_ESCAPE {
                    in_escape = true;
                } else if b == CHAR_QUOT_MARK {
                    in_string = false;
                }
                proof {
                    lemma_append_one(pre.replace(), pre.buf(), input@, op - 1, i as int);
                }
                self.jt.advance(b);
            }
        }
        Cause::Exhausted
    }

    /// Number scanner: append the sign or first digit, then drive the number
    /// grammar byte by byte. A sign or decimal point must be followed by a
    /// digit; an exponent sign by a digit or a sign; at most one fractional
    /// and one exponent part; a leading zero must not be followed by a
    /// digit. The number ends at `,`, `]` or `}`, possibly after whitespace.
    fn handle_number(&mut self, input: &[u8], pos: &mut usize, start_num: u8) -> (c: Cause)
        requires
            old(self).wf(),
            old(self).stack().len() > 0,
            1 <= *old(pos) <= input@.len(),
            input@[*old(pos) - 1] == start_num,
            start_num == CHAR_MINUS || is_digit(start_num),
        ensures
            final(self).wf(),
            config_kept(old(self), final(self)),
            *old(pos) <= *final(pos) <= input@.len(),
            handler_post(old(self), final(self), input@, *old(pos) as int, *final(pos) as int, c),
            !(c is Completed),
            final(self).stack() == old(self).stack(),
            final(self).pce() == old(self).pce(),
            final(self).in_key() == old(self).in_key(),
            *old(pos) == input@.len() ==> c is Exhausted,
            c matches Cause::Found(b) ==> element_end_ok(b),
            (start_num == CHAR_ZERO && *old(pos) < input@.len() && is_digit(
                input@[*old(pos) as int],
            )) ==> (c == Cause::Corrupted(input@[*old(pos) as int]) && *final(pos) == *old(pos)
                + 1),
            (start_num == CHAR_MINUS && *old(pos) < input@.len() && !is_digit(
                input@[*old(pos) as int],
            )) ==> (c == Cause::Corrupted(input@[*old(pos) as int]) && *final(pos) == *old(pos)
                + 1),
            ({
                let sc = scan_number(
                    input@,
                    *old(pos) as int,
                    old(self).replace(),
                    start_num,
                    false,
                    false,
                    false,
                    false,
                );
                match sc {
                    NumScan::Corrupt(b, np) => c == Cause::Corrupted(b) && *final(pos) as int
                        == np,
                    NumScan::Drained => c is Exhausted,
                    NumScan::End(b, np) => c == Cause::Found(b) && *final(pos) as int == np,
                }
            }),
    {
        let ghost pre = *self;
        let ghost op = *old(pos) as int;
        self.jt.advance(start_num);
        proof {
            assert(self.buf() =~= pre.buf() + subst_seq(
                pre.replace(),
                input@.subrange(op - 1, op),
            ));
        }
        let mut in_frac = false;
        let mut in_exp = false;
        let mut lz_known = false;
        let mut lz = false;
        proof {
            assert(self.buf().last() == start_num);
        }

        while *pos < input.len()
            invariant
                self.wf(),
                config_kept(&pre, self),
                pre == *old(self),
                op == *old(pos) as int,
                1 <= op,
                op <= *pos as int <= input@.len(),
                self.buf() == pre.buf() + subst_seq(
                    pre.replace(),
                    input@.subrange(op - 1, *pos as int),
                ),
                self.stack() == pre.stack(),
                self.stack().len() > 0,
                self.pce() == pre.pce(),
                self.in_key() == pre.in_key(),
                self.buf().len() > 0,
                input@[op - 1] == start_num,
                start_num == CHAR_MINUS || is_digit(start_num),
                *pos as int == op ==> !lz_known,
                (start_num == CHAR_ZERO && op < input@.len() && is_digit(input@[op])) ==> *pos
                    as int == op,
                (start_num == CHAR_MINUS && op < input@.len() && !is_digit(input@[op])) ==> *pos
                    as int == op,
                !lz_known ==> !lz,
                scan_number(input@, op, pre.replace(), start_num, false, false, false, false)
                    == scan_number(
                    input@,
                    *pos as int,
                    pre.replace(),
                    self.buf().last(),
                    in_frac,
                    in_exp,
                    lz_known,
                    lz,
                ),
            decreases input@.len() - *pos as int,
        {
            proof {
                if *pos as int == op {
                    assert(subst_seq(pre.replace(), input@.subrange(op - 1, op))[0] == subst_byte(
                        pre.replace(),
                        input@[op - 1],
                    ));
                    assert(self.buf().last() == start_num);
                }
            }
            let i = *pos;
            let b = input[i];
            *pos = i + 1;
            let last_byte = match self.jt.last_byte() {
                Some(lb) => lb,
                None => {
                    proof {
                        assert(false);
                    }
                    0
                },
            };

            // A leading zero may be preceded by a minus sign, but must not
            // be followed by another digit.
            if !lz_known {
                if last_byte == CHAR_ZERO {
                    lz_known = true;
                    lz = true;
                } else if last_byte != CHAR_MINUS {
                    lz_known = true;
                    lz = false;
                }
            }
            if lz_known && lz {
                if byte_is_digit(b) {
                    return Cause::Corrupted(b);
                }
                lz = false;
            }

            if last_byte == CHAR_MINUS || last_byte == CHAR_PLUS || last_byte == CHAR_DECIMAL {
                if !byte_is_digit(b) {
                    return Cause::Corrupted(b);
                }
            } else if last_byte == CHAR_EXP_LOWER || last_byte == CHAR_EXP_UPPER {
                if !(byte_is_digit(b) || b == CHAR_MINUS || b == CHAR_PLUS) {
                    return Cause::Corrupted(b);
                }
            } else if byte_is_digit(last_byte) {
                if byte_is_digit(b) || byte_is_whitespace(b) {
                    // continue the number or trailing whitespace
                } else if b == CHAR_DECIMAL {
                    if in_frac || in_exp {
                        return Cause::Corrupted(b);
                    }
                    in_frac = true;
                } else if b == CHAR_EXP_LOWER || b == CHAR_EXP_UPPER {
                    if in_exp {
                        return Cause::Corrupted(b);
                    }
                    in_exp = true;
                } else if b == CHAR_COMMA || b == CHAR_RIGHT_SQUARE_BRACKET
                    || b == CHAR_RIGHT_CURLY_BRACKET {
                    return Cause::Found(b);
                } else {
                    return Cause::Corrupted(b);
                }
            } else if byte_is_whitespace(last_byte) {
                if b == CHAR_COMMA || b == CHAR_RIGHT_SQUARE_BRACKET
                    || b == CHAR_RIGHT_CURLY_BRACKET {
                    return Cause::Found(b);
                } else if !byte_is_whitespace(b) {
                    return Cause::Corrupted(b);
                }
            } else {
                return Cause::Corrupted(b);
            }
            proof {
                lemma_append_one(pre.replace(), pre.buf(), input@, op - 1, i as int);
            }
            self.jt.advance(b);
        }
        Cause::Exhausted
    }

    /// Literal scanner: after the initiator (`f`, `n` or `t`) the input must
    /// spell the rest of `false`, `null` or `true` exactly; then whitespace
    /// may follow; then `,`, `]` or `}` ends the literal.
    fn handle_literal(&mut self, input: &[u8], pos: &mut usize, start_char: u8) -> (c: Cause)
        requires
            old(self).wf(),
            old(self).stack().len() > 0,
            1 <= *old(pos) <= input@.len(),
            input@[*old(pos) - 1] == start_char,
            start_char == CHAR_START_FALSE || start_char == CHAR_START_NULL || start_char
                == CHAR_START_TRUE,
        ensures
            final(self).wf(),
            config_kept(old(self), final(self)),
            *old(pos) <= *final(pos) <= input@.len(),
            handler_post(old(self), final(self), input@, *old(pos) as int, *final(pos) as int, c),
            !(c is Completed),
            final(self).stack() == old(self).stack(),
            final(self).pce() == old(self).pce(),
            final(self).in_key() == old(self).in_key(),
            *old(pos) == input@.len() ==> c is Exhausted,
            c matches Cause::Found(b) ==> element_end_ok(b),
            ({
                let sc = scan_literal_tail(input@, *old(pos) as int, literal_tail(start_char));
                match sc {
                    LitScan::Corrupt(b, np) => c == Cause::Corrupted(b) && *final(pos) as int
                        == np,
                    LitScan::Drained => c is Exhausted,
                    LitScan::Matched(q) => ({
                        let k = next_significant(input@, q);
                        if k == input@.len() {
                            c is Exhausted
                        } else if element_end_ok(input@[k]) {
                            c == Cause::Found(input@[k]) && *final(pos) == k + 1
                        } else {
                            c == Cause::Corrupted(input@[k]) && *final(pos) == k + 1
                        }
                    }),
                }
            }),
    {
        let ghost pre = *self;
        let ghost op = *old(pos) as int;
        self.jt.advance(start_char);
        proof {
            assert(self.buf() =~= pre.buf() + subst_seq(
                pre.replace(),
                input@.subrange(op - 1, op),
            ));
        }
        let mut tail: Vec<u8> = Vec::new();
        if start_char == CHAR_START_FALSE {
            // "alse"
            tail.push(0x61);
            tail.push(0x6C);
            tail.push(0x73);
            tail.push(0x65);
        } else if start_char == CHAR_START_NULL {
            // "ull"
            tail.push(0x75);
            tail.push(0x6C);
            tail.push(0x6C);
        } else {
            // "rue"
            tail.push(0x72);
            tail.push(0x75);
            tail.push(0x65);
        }

        proof {
            assert(tail@ =~= literal_tail(start_char));
            assert(tail@.subrange(0, tail@.len() as int) =~= tail@);
        }
        let mut k: usize = 0;
        while k < tail.len()
            invariant
                self.wf(),
                config_kept(&pre, self),
                pre == *old(self),
                op == *old(pos) as int,
                1 <= op,
                op <= *pos as int <= input@.len(),
                self.buf() == pre.buf() + subst_seq(
                    pre.replace(),
                    input@.subrange(op - 1, *pos as int),
                ),
                self.stack() == pre.stack(),
                self.stack().len() > 0,
                self.pce() == pre.pce(),
                self.in_key() == pre.in_key(),
                k <= tail@.len(),
                tail@ == literal_tail(start_char),
                scan_literal_tail(input@, op, literal_tail(start_char)) == scan_literal_tail(
                    input@,
                    *pos as int,
                    tail@.subrange(k as int, tail@.len() as int),
                ),
            decreases tail@.len() - k,
        {
            if *pos >= input.len() {
                return Cause::Exhausted;
            }
            let i = *pos;
            let b = input[i];
            *pos = i + 1;
            proof {
                assert(tail@.subrange(k as int, tail@.len() as int)[0] == tail@[k as int]);
            }
            if b != tail[k] {
                return Cause::Corrupted(b);
            }
            proof {
                lemma_append_one(pre.replace(), pre.buf(), input@, op - 1, i as int);
                assert(tail@.subrange(k as int, tail@.len() as int).subrange(
                    1,
                    tail@.len() - k,
                ) =~= tail@.subrange(k + 1 as int, tail@.len() as int));
            }
            self.jt.advance(b);
            k += 1;
        }

        while *pos < input.len()
            invariant
                self.wf(),
                config_kept(&pre, self),
                pre == *old(self),
                op == *old(pos) as int,
                1 <= op,
                op <= *pos as int <= input@.len(),
                self.buf() == pre.buf() + subst_seq(
                    pre.replace(),
                    input@.subrange(op - 1, *pos as int),
                ),
                self.stack() == pre.stack(),
                self.stack().len() > 0,
                self.pce() == pre.pce(),
                self.in_key() == pre.in_key(),
                ({
                    let sc = scan_literal_tail(input@, op, literal_tail(start_char));
                    &&& sc is Matched
                    &&& next_significant(input@, matched_pos(sc)) == next_significant(
                        input@,
                        *pos as int,
                    )
                }),
            decreases input@.len() - *pos as int,
        {
            let i = *pos;
            let b = input[i];
            *pos = i + 1;
            match b {
                CHAR_COMMA | CHAR_RIGHT_SQUARE_BRACKET | CHAR_RIGHT_CURLY_BRACKET => {
                    return Cause::Found(b);
                },
                CHAR_SPACE | CHAR_TAB | CHAR_NEWLINE | CHAR_CARRIAGE_RETURN => {
                    proof {
                        lemma_append_one(pre.replace(), pre.buf(), input@, op - 1, i as int);
                    }
                    self.jt.advance(b);
                },
                _ => {
                    return Cause::Corrupted(b);
                },
            }
        }
        Cause::Exhausted
    }
}

/// Every opener byte among the first `bound` bytes of the input lies inside
/// some record's range: nothing that could start a candidate is skipped.
pub open spec fn openers_covered(input: Seq<u8>, recs: Seq<Report>, bound: int) -> bool {
    forall|j: int|
        0 <= j < bound && is_opener(input[j]) ==> exists|i: int|
            0 <= i < recs.len() && (#[trigger] recs[i]).start <= j <= recs[i].end
}

/// The covered region up to the read position: with a pre-read opener in
/// hand the byte before the position still awaits its candidate; any other
/// pre-read byte is not an opener and never starts one.
pub open spec fn cov_bound(lastb: Option<u8>, pos: int) -> int {
    match lastb {
        Option::None => pos,
        Option::Some(b) => if is_opener(b) {
            pos - 1
        } else {
            pos
        },
    }
}

/// What the carver guarantees of the records of one run over `input`: every
/// record is well formed, covers a verbatim (substituted) range of the input,
/// the records sit in strict input order, only the last can be an
/// exhaustion, an exhaustion ends at the last input byte, every opener byte
/// of the input belongs to some candidate, and empty input yields no
/// records.
pub open spec fn carve_ok(input: Seq<u8>, replace: bool, recs: Seq<Report>) -> bool {
    &&& forall|i: int| 0 <= i < recs.len() ==> record_ok(input, replace, #[trigger] recs[i])
    &&& forall|i: int|
        0 <= i < recs.len() ==> is_opener(input[(#[trigger] recs[i]).start as int])
    &&& forall|i: int| 0 <= i < recs.len() - 1 ==> (#[trigger] recs[i]).end < recs[i + 1].start
    &&& forall|i: int| 0 <= i < recs.len() - 1 ==> !((#[trigger] recs[i]).status is Exhausted)
    &&& ((recs.len() > 0 && recs.last().status is Exhausted) ==> recs.last().end + 1
        == input.len())
    &&& openers_covered(input, recs, input.len() as int)
    &&& (input.len() == 0 ==> recs.len() == 0)
}

/// The running guarantees of an unfinished run whose next candidate cannot
/// begin before `start`: every record so far is well formed against the
/// input, begins at an opener, the records sit in strict input order, none
/// is an exhaustion, and all of them end before `start`. Kept opaque so that
/// the carving loop can carry it as one fact; the step lemmas reveal it.
#[verifier::opaque]
pub open spec fn run_inv(input: Seq<u8>, replace: bool, recs: Seq<Report>, start: int) -> bool {
    &&& forall|i: int| 0 <= i < recs.len() ==> record_ok(input, replace, #[trigger] recs[i])
    &&& forall|i: int|
        0 <= i < recs.len() ==> is_opener(input[(#[trigger] recs[i]).start as int])
    &&& forall|i: int| 0 <= i < recs.len() - 1 ==> (#[trigger] recs[i]).end < recs[i + 1].start
    &&& forall|i: int| 0 <= i < recs.len() ==> !((#[trigger] recs[i]).status is Exhausted)
    &&& (recs.len() > 0 ==> recs.last().end < start)
}

/// A run starts with no records.
proof fn lemma_run_init(input: Seq<u8>, replace: bool)
    ensures
        run_inv(input, replace, Seq::<Report>::empty(), 0),
{
    reveal(run_inv);
}

/// The next candidate can only move further into the input.
proof fn lemma_run_inv_mono(input: Seq<u8>, replace: bool, recs: Seq<Report>, s1: int, s2: int)
    requires
        run_inv(input, replace, recs, s1),
        s1 <= s2,
    ensures
        run_inv(input, replace, recs, s2),
{
    reveal(run_inv);
}

/// A run that scanned the whole input without an exhaustion satisfies the
/// carver's per-run guarantees.
proof fn lemma_run_done(input: Seq<u8>, replace: bool, recs: Seq<Report>, start: int)
    requires
        run_inv(input, replace, recs, start),
        openers_covered(input, recs, input.len() as int),
    ensures
        carve_ok(input, replace, recs),
{
    reveal(run_inv);
    if input.len() == 0 && recs.len() > 0 {
        assert(record_ok(input, replace, recs[0]));
        assert(false);
    }
    if recs.len() > 0 {
        assert(!(recs.last().status is Exhausted));
    }
}

/// Appending one record that continues the run — it starts after every
/// earlier record and accounts for every opener up to the new boundary —
/// preserves the running guarantees; a record that exhausts the input closes
/// the run and yields the carver's full per-run guarantees.
#[verifier::rlimit(100)]
proof fn lemma_record_step(
    input: Seq<u8>,
    replace: bool,
    recs0: Seq<Report>,
    rec: Report,
    entry_bound: int,
    new_bound: int,
    start0: int,
)
    requires
        run_inv(input, replace, recs0, start0),
        start0 <= rec.start,
        openers_covered(input, recs0, entry_bound),
        record_ok(input, replace, rec),
        is_opener(input[rec.start as int]),
        forall|j: int|
            entry_bound <= j < new_bound && is_opener(#[trigger] input[j]) ==> rec.start <= j
                <= rec.end,
    ensures
        !(rec.status is Exhausted) ==> run_inv(input, replace, recs0.push(rec), rec.end + 1),
        openers_covered(input, recs0.push(rec), new_bound),
        recs0.push(rec).last() == rec,
        (rec.status is Exhausted && new_bound == input.len() && rec.end + 1 == input.len())
            ==> carve_ok(input, replace, recs0.push(rec)),
{
    reveal(run_inv);
    let recs = recs0.push(rec);
    assert(recs.last() == rec);
    assert forall|i: int| 0 <= i < recs.len() implies record_ok(
        input,
        replace,
        #[trigger] recs[i],
    ) by {
        if i < recs0.len() {
            assert(recs[i] == recs0[i]);
            assert(record_ok(input, replace, recs0[i]));
        } else {
            assert(recs[i] == rec);
        }
    }
    assert forall|i: int| 0 <= i < recs.len() implies is_opener(
        input[(#[trigger] recs[i]).start as int],
    ) by {
        if i < recs0.len() {
            assert(recs[i] == recs0[i]);
            assert(is_opener(input[recs0[i].start as int]));
        } else {
            assert(recs[i] == rec);
        }
    }
    assert forall|i: int| 0 <= i < recs.len() - 1 implies (#[trigger] recs[i]).end < recs[i
        + 1].start by {
        if i + 1 < recs0.len() {
            assert(recs[i] == recs0[i] && recs[i + 1] == recs0[i + 1]);
        } else {
            assert(recs[i] == recs0.last() && recs[i + 1] == rec);
        }
    }
    assert forall|i: int| 0 <= i < recs.len() - 1 implies !((#[trigger] recs[
        i]).status is Exhausted) by {
        assert(recs[i] == recs0[i]);
        assert(!(recs0[i].status is Exhausted));
    }
    if !(rec.status is Exhausted) {
        assert forall|i: int| 0 <= i < recs.len() implies !((#[trigger] recs[
            i]).status is Exhausted) by {
            if i < recs0.len() {
                assert(recs[i] == recs0[i]);
                assert(!(recs0[i].status is Exhausted));
            } else {
                assert(recs[i] == rec);
            }
        }
    }
    lemma_coverage_extend(input, recs0, rec, entry_bound, new_bound);
}

/// Pushing a record that accounts for every opener between the old and the
/// new boundary extends the coverage.
proof fn lemma_coverage_extend(
    input: Seq<u8>,
    old_recs: Seq<Report>,
    rec: Report,
    old_bound: int,
    new_bound: int,
)
    requires
        openers_covered(input, old_recs, old_bound),
        forall|j: int|
            old_bound <= j < new_bound && is_opener(#[trigger] input[j]) ==> rec.start <= j
                <= rec.end,
    ensures
        openers_covered(input, old_recs.push(rec), new_bound),
{
    let recs = old_recs.push(rec);
    assert forall|j: int| 0 <= j < new_bound && is_opener(input[j]) implies exists|i: int|
        0 <= i < recs.len() && (#[trigger] recs[i]).start <= j <= recs[i].end by {
        if j < old_bound {
            let i = choose|i: int|
                0 <= i < old_recs.len() && (#[trigger] old_recs[i]).start <= j <= old_recs[i].end;
            assert(recs[i] == old_recs[i]);
            assert(0 <= i < recs.len() && recs[i].start <= j <= recs[i].end);
        } else {
            let i = old_recs.len() as int;
            assert(recs[i] == rec);
            assert(0 <= i < recs.len() && recs[i].start <= j <= recs[i].end);
        }
    }
}

/// Moving the boundary across a region with no opener keeps the coverage.
proof fn lemma_coverage_skip(input: Seq<u8>, recs: Seq<Report>, old_bound: int, new_bound: int)
    requires
        openers_covered(input, recs, old_bound),
        forall|j: int| old_bound <= j < new_bound ==> !is_opener(#[trigger] input[j]),
    ensures
        openers_covered(input, recs, new_bound),
{
    assert forall|j: int| 0 <= j < new_bound && is_opener(input[j]) implies exists|i: int|
        0 <= i < recs.len() && (#[trigger] recs[i]).start <= j <= recs[i].end by {
        assert(j < old_bound);
    }
}

/// `record_ok`, over a record's mathematical value.
pub open spec fn record_ok_m(input: Seq<u8>, replace: bool, m: RecordModel) -> bool {
    &&& m.wf()
    &&& m.end < input.len()
    &&& m.bytes == subst_seq(replace, input.subrange(m.start, m.end + 1))
}

/// `openers_covered`, over the records' mathematical values.
pub open spec fn openers_covered_m(input: Seq<u8>, ms: Seq<RecordModel>, bound: int) -> bool {
    forall|j: int|
        0 <= j < bound && is_opener(input[j]) ==> exists|i: int|
            0 <= i < ms.len() && (#[trigger] ms[i]).start <= j <= ms[i].end
}

/// `carve_ok`, over the records' mathematical values: what the carver
/// guarantees of the records of one run, stated of the run that the input
/// determines.
pub open spec fn carve_ok_m(input: Seq<u8>, replace: bool, ms: Seq<RecordModel>) -> bool {
    &&& forall|i: int| 0 <= i < ms.len() ==> record_ok_m(input, replace, #[trigger] ms[i])
    &&& forall|i: int| 0 <= i < ms.len() ==> is_opener(input[(#[trigger] ms[i]).start])
    &&& forall|i: int| 0 <= i < ms.len() - 1 ==> (#[trigger] ms[i]).end < ms[i + 1].start
    &&& forall|i: int| 0 <= i < ms.len() - 1 ==> !((#[trigger] ms[i]).status is Exhausted)
    &&& ((ms.len() > 0 && ms.last().status is Exhausted) ==> ms.last().end + 1 == input.len())
    &&& openers_covered_m(input, ms, input.len() as int)
    &&& (input.len() == 0 ==> ms.len() == 0)
}

/// `record_ok` carries from a record to its mathematical value.
proof fn lemma_record_ok_model(input: Seq<u8>, replace: bool, r: Report)
    requires
        record_ok(input, replace, r),
    ensures
        record_ok_m(input, replace, rec_model(r)),
{
}

/// The coverage of the input's openers carries from the records to their
/// mathematical values.
proof fn lemma_coverage_models(input: Seq<u8>, recs: Seq<Report>)
    requires
        openers_covered(input, recs, input.len() as int),
    ensures
        openers_covered_m(input, models(recs), input.len() as int),
{
    let ms = models(recs);
    assert forall|j: int| 0 <= j < input.len() && is_opener(input[j]) implies exists|i: int|
        0 <= i < ms.len() && (#[trigger] ms[i]).start <= j <= ms[i].end by {
        let i = choose|i: int|
            0 <= i < recs.len() && (#[trigger] recs[i]).start <= j <= recs[i].end;
        assert(ms[i] == rec_model(recs[i]));
        assert(0 <= i < ms.len() && ms[i].start <= j <= ms[i].end);
    }
}

/// The run guarantees carry from the records to their mathematical values.
pub proof fn lemma_carve_ok_models(input: Seq<u8>, replace: bool, recs: Seq<Report>)
    requires
        carve_ok(input, replace, recs),
    ensures
        carve_ok_m(input, replace, models(recs)),
{
    let ms = models(recs);
    assert forall|i: int| 0 <= i < ms.len() implies record_ok_m(input, replace, #[trigger] ms[i])
        && is_opener(input[ms[i].start]) by {
        assert(record_ok(input, replace, recs[i]));
        lemma_record_ok_model(input, replace, recs[i]);
        assert(is_opener(input[recs[i].start as int]));
        assert(ms[i] == rec_model(recs[i]));
    }
    assert forall|i: int| 0 <= i < ms.len() - 1 implies (#[trigger] ms[i]).end < ms[i + 1].start
        && !(ms[i].status is Exhausted) by {
        assert(ms[i] == rec_model(recs[i]) && ms[i + 1] == rec_model(recs[i + 1]));
        assert(recs[i].end < recs[i + 1].start);
        assert(!(recs[i].status is Exhausted));
    }
    if ms.len() > 0 {
        assert(ms.last() == rec_model(recs.last()));
    }
    lemma_coverage_models(input, recs);
}

/// With no opener at or after the read position (and none in hand), the
/// run's remaining records are none.
pub proof fn lemma_carve_from_done(
    input: Seq<u8>,
    p0: int,
    lb0: Option<u8>,
    repl: bool,
    md: int,
)
    requires
        0 <= p0 <= input.len(),
        next_opener(input, p0) == input.len(),
        match lb0 {
            Option::Some(b) => !is_opener(b),
            Option::None => true,
        },
    ensures
        carve_from(input, p0, lb0, repl, md) == Seq::<RecordModel>::empty(),
{
}

/// Unfolding one candidate of the run: with the next opener at `start0`, the
/// run's remaining records are that candidate's record followed by the rest
/// of the run, which resumes at the position where the candidate's scan
/// stopped — with the corrupting byte in hand after a corruption, and with
/// nothing after an exhaustion.
pub proof fn lemma_carve_from_step(
    input: Seq<u8>,
    p0: int,
    lb0: Option<u8>,
    start0: int,
    repl: bool,
    md: int,
)
    requires
        0 <= p0 <= input.len(),
        0 <= start0 < input.len(),
        p0 <= start0 + 1,
        is_opener(input[start0]),
        match lb0 {
            Option::Some(b) => if is_opener(b) {
                p0 >= 1 && b == input[p0 - 1] && start0 == p0 - 1
            } else {
                start0 == next_opener(input, p0)
            },
            Option::None => start0 == next_opener(input, p0),
        },
    ensures
        ({
            let r = scan_value(input, start0 + 1, input[start0], init_scan(), md, repl);
            let m = rec_at(input, start0, repl, md);
            match r.cause {
                Cause::Completed => (p0 < r.pos <= input.len()) ==> carve_from(
                    input,
                    p0,
                    lb0,
                    repl,
                    md,
                ) == seq![m] + carve_from(input, r.pos, Option::<u8>::None, repl, md),
                Cause::Corrupted(b2) => (p0 < r.pos <= input.len()) ==> carve_from(
                    input,
                    p0,
                    lb0,
                    repl,
                    md,
                ) == seq![m] + carve_from(input, r.pos, Option::<u8>::Some(b2), repl, md),
                Cause::Exhausted => carve_from(input, p0, lb0, repl, md) == seq![m],
                Cause::Found(_) => true,
            }
        }),
{
}

/// Pushing the record whose mathematical value heads the run's remaining
/// records moves it from the remainder to the records so far.
pub proof fn lemma_models_step(
    recs0: Seq<Report>,
    rec: Report,
    m: RecordModel,
    rest: Seq<RecordModel>,
    total: Seq<RecordModel>,
)
    requires
        rec_model(rec) == m,
        models(recs0) + (seq![m] + rest) == total,
    ensures
        models(recs0.push(rec)) + rest == total,
{
    assert(models(recs0.push(rec)) =~= models(recs0).push(m));
    assert(models(recs0).push(m) + rest =~= models(recs0) + (seq![m] + rest));
}

/// Pushing the run's last record completes the records' mathematical values.
pub proof fn lemma_models_last(
    recs0: Seq<Report>,
    rec: Report,
    m: RecordModel,
    total: Seq<RecordModel>,
)
    requires
        rec_model(rec) == m,
        models(recs0) + seq![m] == total,
    ensures
        models(recs0.push(rec)) == total,
{
    assert(models(recs0.push(rec)) =~= models(recs0) + seq![m]);
}

/// One record against the input it was carved from: the candidate bytes are
/// the input bytes of its range, byte for byte, modulo the newline
/// substitution.
pub open spec fn record_ok(input: Seq<u8>, replace: bool, r: Report) -> bool {
    &&& r.wf()
    &&& r.end < input.len()
    &&& r.bytes@ == subst_seq(replace, input.subrange(r.start as int, r.end + 1))
}

impl Carver {
    /// The state machine's driving loop: dispatch on the current byte, and
    /// re-dispatch as long as handlers accept (`Found`), until the candidate
    /// completes, corrupts, or the input drains.
    #[verifier::rlimit(100)]
    fn hunt(&mut self, input: &[u8], pos: &mut usize, first: u8) -> (c: Cause)
        requires
            old(self).wf(),
            old(self).buf().len() == 0,
            old(self).stack().len() == 0,
            old(self).pce() == 0,
            !old(self).in_key(),
            1 <= *old(pos) <= input@.len(),
            first == input@[*old(pos) - 1],
            is_opener(first),
        ensures
            final(self).wf(),
            config_kept(old(self), final(self)),
            *old(pos) <= *final(pos) <= input@.len(),
            !(c is Found),
            handler_post(old(self), final(self), input@, *old(pos) as int, *final(pos) as int, c),
            (c is Corrupted || c is Completed) ==> *final(pos) > *old(pos),
            (c is Corrupted || c is Exhausted) ==> final(self).stack().len() > 0,
            ({
                let r = scan_value(
                    input@,
                    *old(pos) as int,
                    first,
                    init_scan(),
                    old(self).max_depth(),
                    old(self).replace(),
                );
                &&& c == r.cause
                &&& *final(pos) as int == r.pos
                &&& scan_state_of(*final(self)) == r.st
            }),
    {
        let ghost pre = *self;
        let ghost op = *old(pos) as int;
        let ghost md = pre.max_depth();
        let ghost repl = pre.replace();
        let mut ch = first;
        proof {
            assert(scan_state_of(*self) =~= init_scan());
        }
        loop
            invariant
                self.wf(),
                config_kept(&pre, self),
                pre == *old(self),
                op == *old(pos) as int,
                md == pre.max_depth(),
                repl == pre.replace(),
                pre.buf().len() == 0,
                pre.stack().len() == 0,
                pre.max_depth() >= 1,
                1 <= op <= *pos as int <= input@.len(),
                ch == input@[*pos - 1],
                found_byte_ok(ch),
                self.buf() == pre.buf() + subst_seq(
                    pre.replace(),
                    input@.subrange(op - 1, *pos as int - 1),
                ),
                self.stack().len() == 0 ==> (*pos as int == op && is_opener(ch)),
                self.stack().len() > 0 ==> *pos as int > op,
                scan_value(input@, op, first, init_scan(), md, repl) == scan_value(
                    input@,
                    *pos as int,
                    ch,
                    scan_state_of(*self),
                    md,
                    repl,
                ),
            decreases input@.len() - *pos as int,
        {
            let ghost mid = *self;
            let ghost stm = scan_state_of(*self);
            let ghost dop = *pos as int;
            let res: Cause = if ch == CHAR_LEFT_SQUARE_BRACKET {
                let r = self.handle_left_square_bracket(input, pos);
                proof {
                    reveal(crate::scan::scan_step);
                    assert(scan_step(input@, dop, ch, stm, md, repl) =~= (ScanStep {
                        cause: r,
                        pos: *pos as int,
                        st: scan_state_of(*self),
                    }));
                    assert(self.stack().len() > 0);
                }
                r
            } else if ch == CHAR_LEFT_CURLY_BRACKET {
                let r = self.handle_left_curly_bracket(input, pos);
                proof {
                    reveal(crate::scan::scan_step);
                    assert(scan_step(input@, dop, ch, stm, md, repl) =~= (ScanStep {
                        cause: r,
                        pos: *pos as int,
                        st: scan_state_of(*self),
                    }));
                    assert(self.stack().len() > 0);
                }
                r
            } else if ch == CHAR_RIGHT_SQUARE_BRACKET {
                let r = self.handle_right_square_bracket(input, pos);
                proof {
                    reveal(crate::scan::scan_step);
                    assert(scan_step(input@, dop, ch, stm, md, repl) =~= (ScanStep {
                        cause: r,
                        pos: *pos as int,
                        st: scan_state_of(*self),
                    }));
                    assert(!(r is Completed) ==> self.stack().len() > 0);
                }
                r
            } else if ch == CHAR_RIGHT_CURLY_BRACKET {
                let r = self.handle_right_curly_bracket(input, pos);
                proof {
                    reveal(crate::scan::scan_step);
                    assert(scan_step(input@, dop, ch, stm, md, repl) =~= (ScanStep {
                        cause: r,
                        pos: *pos as int,
                        st: scan_state_of(*self),
                    }));
                    assert(!(r is Completed) ==> self.stack().len() > 0);
                }
                r
            } else if ch == CHAR_COLON {
                let r = self.handle_colon(input, pos);
                proof {
                    reveal(crate::scan::scan_step);
                    assert(scan_step(input@, dop, ch, stm, md, repl) =~= (ScanStep {
                        cause: r,
                        pos: *pos as int,
                        st: scan_state_of(*self),
                    }));
                    assert(self.stack().len() > 0);
                }
                r
            } else if ch == CHAR_COMMA {
                let r = self.handle_comma(input, pos);
                proof {
                    reveal(crate::scan::scan_step);
                    assert(scan_step(input@, dop, ch, stm, md, repl) =~= (ScanStep {
                        cause: r,
                        pos: *pos as int,
                        st: scan_state_of(*self),
                    }));
                    assert(self.stack().len() > 0);
                }
                r
            } else if ch == CHAR_QUOT_MARK {
                let r = self.handle_string(input, pos);
                proof {
                    reveal(crate::scan::scan_step);
                    assert(scan_step(input@, dop, ch, stm, md, repl) =~= (ScanStep {
                        cause: r,
                        pos: *pos as int,
                        st: scan_state_of(*self),
                    }));
                    assert(self.stack().len() > 0);
                }
                r
            } else if ch == CHAR_MINUS || (CHAR_ZERO <= ch && ch <= CHAR_NINE) {
                let r = self.handle_number(input, pos, ch);
                proof {
                    reveal(crate::scan::scan_step);
                    assert(scan_step(input@, dop, ch, stm, md, repl) =~= (ScanStep {
                        cause: r,
                        pos: *pos as int,
                        st: scan_state_of(*self),
                    }));
                    assert(self.stack().len() > 0);
                }
                r
            } else {
                proof {
                    assert(ch == CHAR_START_FALSE || ch == CHAR_START_NULL || ch
                        == CHAR_START_TRUE);
                }
                let r = self.handle_literal(input, pos, ch);
                proof {
                    reveal(crate::scan::scan_step);
                    assert(scan_step(input@, dop, ch, stm, md, repl) =~= (ScanStep {
                        cause: r,
                        pos: *pos as int,
                        st: scan_state_of(*self),
                    }));
                    assert(self.stack().len() > 0);
                }
                r
            };
            proof {
                assert(scan_step(input@, dop, ch, stm, md, repl) == (ScanStep {
                    cause: res,
                    pos: *pos as int,
                    st: scan_state_of(*self),
                }));
            }

            match res {
                Cause::Found(b) => {
                    proof {
                        lemma_join(
                            pre.replace(),
                            pre.buf(),
                            input@,
                            op - 1,
                            dop - 1,
                            *pos as int - 1,
                        );
                        assert(dop < *pos as int <= input@.len());
                        assert(scan_value(input@, dop, ch, stm, md, repl) == scan_value(
                            input@,
                            *pos as int,
                            b,
                            scan_state_of(*self),
                            md,
                            repl,
                        ));
                    }
                    ch = b;
                },
                Cause::Completed => {
                    proof {
                        lemma_join(pre.replace(), pre.buf(), input@, op - 1, dop - 1, *pos as int);
                        assert(dop > op);
                        assert(scan_value(input@, dop, ch, stm, md, repl) == scan_step(
                            input@,
                            dop,
                            ch,
                            stm,
                            md,
                            repl,
                        ));
                    }
                    return Cause::Completed;
                },
                Cause::Corrupted(b) => {
                    proof {
                        lemma_join(
                            pre.replace(),
                            pre.buf(),
                            input@,
                            op - 1,
                            dop - 1,
                            *pos as int - 1,
                        );
                        assert(*pos as int > op);
                        assert(scan_value(input@, dop, ch, stm, md, repl) == scan_step(
                            input@,
                            dop,
                            ch,
                            stm,
                            md,
                            repl,
                        ));
                    }
                    return Cause::Corrupted(b);
                },
                Cause::Exhausted => {
                    proof {
                        lemma_join(pre.replace(), pre.buf(), input@, op - 1, dop - 1, *pos as int);
                        assert(scan_value(input@, dop, ch, stm, md, repl) == scan_step(
                            input@,
                            dop,
                            ch,
                            stm,
                            md,
                            repl,
                        ));
                    }
                    return Cause::Exhausted;
                },
            }
        }
    }

    /// Build the report record for the candidate the tracker currently
    /// holds, whose first byte sits at absolute offset `start`.
    fn finish_candidate(&self, status: Cause, start: usize) -> (rec: Report)
        requires
            self.wf(),
            self.buf().len() >= 1,
            start as int + self.buf().len() <= usize::MAX as int,
            !(status is Found),
            status is Completed ==> self.stack().len() == 0,
            !(status is Completed) ==> self.stack().len() > 0,
        ensures
            rec.wf(),
            rec.status == status,
            rec.start == start,
            rec.end as int == start as int + self.buf().len() - 1,
            rec.partial_end as int == start as int + self.pce(),
            rec.bytes@ == self.buf(),
            rec.closers@ == self.stack(),
    {
        let cur = self.jt.buf_len();
        proof {
            self.jt.lemma_bookmark_in_bounds();
        }
        let end = start + cur - 1;
        let partial_end = start + self.jt.partial_close_end();
        let bytes = self.jt.buf_vec();
        let closers = self.jt.stack_vec();
        Report { status: status, start: start, end: end, partial_end: partial_end, bytes: bytes, closers: closers }
    }

    /// Carve `input`: resynchronise to each opener, run the state machine,
    /// and record one report per candidate, in input order. The records hold
    /// everything the sinks need; `parse` renders them.
    #[verifier::rlimit(100)]
    pub fn carve(&mut self, input: &[u8]) -> (recs: Vec<Report>)
        requires
            old(self).wf(),
        ensures
            final(self).wf(),
            config_kept(old(self), final(self)),
            carve_ok(input@, old(self).replace(), recs@),
            models(recs@) == carve_from(
                input@,
                0,
                Option::<u8>::None,
                old(self).replace(),
                old(self).max_depth(),
            ),
    {
        let ghost pre = *self;
        let ghost md = pre.max_depth();
        let ghost repl = pre.replace();
        let mut recs: Vec<Report> = Vec::new();
        let mut start: usize = 0;
        let mut pos: usize = 0;
        let mut lastb: Option<u8> = None;
        proof {
            lemma_run_init(input@, pre.replace());
            assert(models(recs@) =~= Seq::<RecordModel>::empty());
            assert(models(recs@) + carve_from(input@, 0, Option::<u8>::None, repl, md)
                =~= carve_from(input@, 0, Option::<u8>::None, repl, md));
        }

        loop
            invariant
                self.wf(),
                config_kept(&pre, self),
                pre == *old(self),
                md == pre.max_depth(),
                repl == pre.replace(),
                pos <= input@.len(),
                match lastb {
                    Option::None => start == pos,
                    Option::Some(b) => pos >= 1 && start + 1 == pos && b == input@[pos - 1],
                },
                run_inv(input@, pre.replace(), recs@, start as int),
                openers_covered(input@, recs@, cov_bound(lastb, pos as int)),
                models(recs@) + carve_from(input@, pos as int, lastb, repl, md) == carve_from(
                    input@,
                    0,
                    Option::<u8>::None,
                    repl,
                    md,
                ),
            decreases input@.len() - pos as int,
        {
            let ghost entry_bound = cov_bound(lastb, pos as int);
            let ghost p0 = pos as int;
            let ghost lb0 = lastb;
            let use_lastb = match lastb {
                Some(b) => b == CHAR_LEFT_SQUARE_BRACKET || b == CHAR_LEFT_CURLY_BRACKET,
                None => false,
            };
            let ch: u8;
            if use_lastb {
                ch = match lastb {
                    Some(b) => b,
                    None => {
                        proof {
                            assert(false);
                        }
                        0
                    },
                };
            } else {
                match scout(input, &mut pos) {
                    None => {
                        proof {
                            assert(entry_bound == p0);
                            lemma_coverage_skip(input@, recs@, p0, input@.len() as int);
                            lemma_run_done(input@, pre.replace(), recs@, start as int);
                            crate::scan::lemma_next_opener_none(input@, p0);
                            lemma_carve_from_done(input@, p0, lb0, repl, md);
                            assert(models(recs@) + Seq::<RecordModel>::empty()
                                =~= models(recs@));
                        }
                        return recs;
                    },
                    Some((read, c)) => {
                        proof {
                            assert(start as int + read as int <= input@.len() + 1);
                        }
                        let ghost s0 = start as int;
                        if lastb.is_some() {
                            start = start + read;
                        } else {
                            start = start + read - 1;
                        }
                        proof {
                            lemma_run_inv_mono(input@, pre.replace(), recs@, s0, start as int);
                            crate::scan::lemma_next_opener_found(input@, p0, pos as int - 1);
                            assert(start as int == pos as int - 1);
                        }
                        ch = c;
                    },
                }
            }
            // Here the opener `ch` sits at absolute offset `start`, and the
            // read position is just past it.
            let ghost start0 = start as int;
            self.jt.quick_clean();
            let c = self.hunt(input, &mut pos, ch);
            let ghost np = pos as int;
            let ghost r = scan_value(input@, start0 + 1, ch, init_scan(), md, repl);
            let ghost m = rec_at(input@, start0, repl, md);
            proof {
                assert(ch == input@[start0]);
                assert(c == r.cause && np == r.pos && scan_state_of(*self) == r.st);
                lemma_carve_from_step(input@, p0, lb0, start0, repl, md);
            }

            match c {
                Cause::Completed => {
                    proof {
                        lemma_empty_prepend(subst_seq(
                            pre.replace(),
                            input@.subrange(start as int, np),
                        ));
                    }
                    let rec = self.finish_candidate(Cause::Completed, start);
                    let next = rec.end + 1;
                    proof {
                        assert(record_ok(input@, pre.replace(), rec));
                        assert(is_opener(input@[rec.start as int]));
                        assert forall|j: int|
                            entry_bound <= j < np && is_opener(#[trigger] input@[j]) implies rec.start
                            <= j <= rec.end by {}
                        lemma_record_step(input@, pre.replace(), recs@, rec, entry_bound, np, start as int);
                    }
                    let ghost recs0 = recs@;
                    recs.push(rec);
                    proof {
                        assert(rec_model(rec) =~= m);
                        assert(p0 < np <= input@.len());
                        lemma_models_step(
                            recs0,
                            rec,
                            m,
                            carve_from(input@, np, Option::<u8>::None, repl, md),
                            carve_from(input@, 0, Option::<u8>::None, repl, md),
                        );
                    }
                    start = next;
                    lastb = None;
                },
                Cause::Corrupted(b) => {
                    proof {
                        lemma_empty_prepend(subst_seq(
                            pre.replace(),
                            input@.subrange(start as int, np - 1),
                        ));
                    }
                    let rec = self.finish_candidate(Cause::Corrupted(b), start);
                    let next = rec.end + 1;
                    proof {
                        assert(record_ok(input@, pre.replace(), rec));
                        assert(is_opener(input@[rec.start as int]));
                        assert forall|j: int|
                            entry_bound <= j < np - 1 && is_opener(#[trigger] input@[j]) implies rec.start
                            <= j <= rec.end by {}
                        lemma_record_step(input@, pre.replace(), recs@, rec, entry_bound, np - 1, start as int);
                    }
                    let ghost recs0 = recs@;
                    recs.push(rec);
                    proof {
                        if !is_opener(b) {
                            lemma_coverage_skip(input@, recs@, np - 1, np);
                        }
                        assert(rec_model(rec) =~= m);
                        assert(p0 < np <= input@.len());
                        lemma_models_step(
                            recs0,
                            rec,
                            m,
                            carve_from(input@, np, Option::<u8>::Some(b), repl, md),
                            carve_from(input@, 0, Option::<u8>::None, repl, md),
                        );
                    }
                    start = next;
                    lastb = Some(b);
                },
                Cause::Exhausted => {
                    proof {
                        lemma_empty_prepend(subst_seq(
                            pre.replace(),
                            input@.subrange(start as int, np),
                        ));
                        assert(np == input@.len());
                    }
                    let rec = self.finish_candidate(Cause::Exhausted, start);
                    proof {
                        assert(record_ok(input@, pre.replace(), rec));
                        assert(rec.end + 1 == input@.len());
                        assert(is_opener(input@[rec.start as int]));
                        assert forall|j: int|
                            entry_bound <= j < np && is_opener(#[trigger] input@[j]) implies rec.start
                            <= j <= rec.end by {}
                        lemma_record_step(input@, pre.replace(), recs@, rec, entry_bound, np, start as int);
                    }
                    let ghost recs0 = recs@;
                    recs.push(rec);
                    proof {
                        assert(rec_model(rec) =~= m);
                        lemma_models_last(
                            recs0,
                            rec,
                            m,
                            carve_from(input@, 0, Option::<u8>::None, repl, md),
                        );
                    }
                    return recs;
                },
                Cause::Found(_) => {
                    proof {
                        assert(false);
                    }
                    return recs;
                },
            }
        }
    }

    /// Carve `input` and render both sinks: the first element holds the
    /// emitted JSON values (and repairs, when configured), the second the
    /// CSV report records.
    pub fn parse(&mut self, input: &[u8]) -> (out: (Vec<u8>, Vec<u8>))
        requires
            old(self).wf(),
        ensures
            final(self).wf(),
            config_kept(old(self), final(self)),
            ({
                let ms = carve_from(
                    input@,
                    0,
                    Option::<u8>::None,
                    old(self).replace(),
                    old(self).max_depth(),
                );
                &&& carve_ok_m(input@, old(self).replace(), ms)
                &&& out.0@ == crate::report::json_out_m(
                    ms,
                    old(self).spec_min_size(),
                    old(self).spec_fix_incomplete(),
                )
                &&& out.1@ == crate::report::report_out_m(ms, old(self).spec_min_size())
            }),
    {
        let min_size = self.min_size;
        let fix_incomplete = self.fix_incomplete;
        let recs = self.carve(input);
        proof {
            assert forall|i: int| 0 <= i < recs@.len() implies (#[trigger] recs@[i]).wf() by {
                assert(record_ok(input@, old(self).replace(), recs@[i]));
            }
        }
        let json = crate::report::render_json(&recs, min_size, fix_incomplete);
        let rep = crate::report::render_report(&recs, min_size);
        proof {
            assert(carve_ok(input@, old(self).replace(), recs@));
            lemma_carve_ok_models(input@, old(self).replace(), recs@);
            crate::report::lemma_out_of_models(recs@, min_size, fix_incomplete);
        }
        (json, rep)
    }
}

} // verus!
