//! The nesting tracker: an append-only buffer of the bytes of the candidate
//! currently being consumed, a stack of open container kinds, and a bookmark
//! (`partial_close_end`) naming the last buffer index at which all open
//! containers had just been closed.

use vstd::prelude::*;

use crate::bytes::{subst_byte, CHAR_NEWLINE, CHAR_SPACE};

verus! {

/// Grow the candidate buffer by this many bytes whenever a candidate no
/// longer fits.
pub const BUF_EXTEND_SIZE: usize = 4194304; // 4 MiB

/// Default bound on the nesting depth of a candidate.
pub const DEFAULT_MAX_IDENT_DEPTH: usize = 4194304;

/// Tracks the bytes, the nesting, and the last legal close point of the
/// JSON candidate currently being consumed.
pub struct JsonTracker {
    cur: usize,
    partial_close_end: usize,
    ident_levels: Vec<u8>,
    cur_ident_level: usize,
    in_key: bool,
    processed: Vec<u8>,
    replace_newlines: bool,
}

impl JsonTracker {
    /// The bytes of the current candidate: the first `cur` entries of the
    /// backing buffer.
    pub closed spec fn buf(&self) -> Seq<u8> {
        self.processed@.take(self.cur as int)
    }

    /// The stack of open container kinds, bottom first.
    pub closed spec fn stack(&self) -> Seq<u8> {
        self.ident_levels@.take(self.cur_ident_level as int)
    }

    /// The last buffer index at which every open container had just been
    /// closed.
    pub closed spec fn pce(&self) -> int {
        self.partial_close_end as int
    }

    /// Whether the next string, if one begins, is an object key.
    pub closed spec fn in_key(&self) -> bool {
        self.in_key
    }

    /// Whether raw line feeds are stored as spaces.
    pub closed spec fn replace(&self) -> bool {
        self.replace_newlines
    }

    /// The bound on the nesting depth.
    pub closed spec fn max_depth(&self) -> int {
        self.ident_levels@.len() as int
    }

    /// Structural well-formedness: the counters stay within the backing
    /// storage, and the bookmark strictly precedes the end of a non-empty
    /// candidate.
    pub closed spec fn wf(&self) -> bool {
        &&& self.cur <= self.processed@.len()
        &&& self.cur_ident_level <= self.ident_levels@.len()
        &&& if self.cur == 0 {
            self.partial_close_end == 0
        } else {
            self.partial_close_end < self.cur
        }
    }

    /// Create a tracker with a candidate buffer of `max_size` bytes (the
    /// buffer still grows on demand) and room for `max_ident_depth` nested
    /// containers. A depth bound of zero is raised to one, so that every
    /// candidate can at least open its first container.
    pub fn new(max_size: Option<usize>, max_ident_depth: Option<usize>) -> (t: JsonTracker)
        ensures
            t.wf(),
            t.buf() == Seq::<u8>::empty(),
            t.stack() == Seq::<u8>::empty(),
            t.pce() == 0,
            !t.in_key(),
            !t.replace(),
            t.max_depth() == match max_ident_depth {
                Option::Some(0) => 1int,
                Option::Some(d) => d as int,
                Option::None => DEFAULT_MAX_IDENT_DEPTH as int,
            },
            t.max_depth() >= 1,
    {
        let _max_size = match max_size {
            Some(size) => size,
            None => BUF_EXTEND_SIZE,
        };

        let _max_ident_depth = match max_ident_depth {
            Some(size) => if size == 0 { 1 } else { size },
            None => DEFAULT_MAX_IDENT_DEPTH,
        };
        let t = JsonTracker {
            cur: 0,
            partial_close_end: 0,
            ident_levels: vec![0u8; _max_ident_depth],
            cur_ident_level: 0,
            in_key: false,
            processed: vec![0u8; _max_size],
            replace_newlines: false,
        };
        proof {
            assert(t.buf() =~= Seq::<u8>::empty());
            assert(t.stack() =~= Seq::<u8>::empty());
        }
        t
    }

    /// Turn newline replacement on or off.
    pub fn set_replace_newlines(&mut self, opt: bool)
        requires
            old(self).wf(),
        ensures
            final(self).wf(),
            final(self).replace() == opt,
            final(self).buf() == old(self).buf(),
            final(self).stack() == old(self).stack(),
            final(self).pce() == old(self).pce(),
            final(self).in_key() == old(self).in_key(),
            final(self).max_depth() == old(self).max_depth(),
    {
        self.replace_newlines = opt;
    }

    /// Append one byte to the candidate buffer, substituting a space for a
    /// raw line feed when newline replacement is on.
    pub fn advance(&mut self, b: u8)
        requires
            old(self).wf(),
        ensures
            final(self).wf(),
            final(self).buf() == old(self).buf().push(subst_byte(old(self).replace(), b)),
            final(self).stack() == old(self).stack(),
            final(self).pce() == old(self).pce(),
            final(self).in_key() == old(self).in_key(),
            final(self).replace() == old(self).replace(),
            final(self).max_depth() == old(self).max_depth(),
    {
        let mut b = b;
        if self.replace_newlines && b == CHAR_NEWLINE {
            b = CHAR_SPACE;
        }
        if self.cur < self.processed.len() {
            self.processed[self.cur] = b;
            self.cur += 1;
        } else {
            self.processed.reserve(BUF_EXTEND_SIZE);
            self.processed.push(b);
            self.cur = self.processed.len();
        }
        proof {
            assert(self.buf() =~= old(self).buf().push(subst_byte(old(self).replace(), b)));
            assert(self.stack() =~= old(self).stack());
        }
    }

    /// The byte most recently appended to the candidate buffer, if any.
    pub fn last_byte(&self) -> (r: Option<u8>)
        requires
            self.wf(),
        ensures
            r == if self.buf().len() == 0 {
                Option::<u8>::None
            } else {
                Option::Some(self.buf().last())
            },
    {
        if self.cur == 0 {
            return None;
        }

        Some(self.processed[self.cur - 1])
    }

    /// The kind of the innermost open container, if any.
    pub fn last_ident(&self) -> (r: Option<u8>)
        requires
            self.wf(),
        ensures
            r == if self.stack().len() == 0 {
                Option::<u8>::None
            } else {
                Option::Some(self.stack().last())
            },
    {
        if self.cur_ident_level == 0 {
            return None;
        }

        Some(self.ident_levels[self.cur_ident_level - 1])
    }

    /// The current nesting depth.
    pub fn depth(&self) -> (r: usize)
        requires
            self.wf(),
        ensures
            r == self.stack().len(),
    {
        self.cur_ident_level
    }

    /// Whether another container can still be opened under the depth bound.
    pub fn has_room(&self) -> (r: bool)
        requires
            self.wf(),
        ensures
            r == (self.stack().len() < self.max_depth()),
    {
        self.cur_ident_level < self.ident_levels.len()
    }

    /// Open a container: bookmark the position just before the opener, push
    /// the opener on the nest stack, then append it to the buffer.
    pub fn add_ident(&mut self, b: u8)
        requires
            old(self).wf(),
            old(self).stack().len() < old(self).max_depth(),
        ensures
            final(self).wf(),
            final(self).buf() == old(self).buf().push(subst_byte(old(self).replace(), b)),
            final(self).stack() == old(self).stack().push(b),
            final(self).pce() == old(self).buf().len(),
            final(self).in_key() == old(self).in_key(),
            final(self).replace() == old(self).replace(),
            final(self).max_depth() == old(self).max_depth(),
    {
        proof {
            assert(old(self).stack().len() == old(self).cur_ident_level as int);
        }
        let cap = self.ident_levels.len();
        self.cur_ident_level += 1;
        self.ident_levels[self.cur_ident_level - 1] = b;
        proof {
            assert(self.stack() =~= old(self).stack().push(b));
        }
        let bookmark = self.cur;
        self.advance(b);
        proof {
            assert(self.buf().len() == self.cur as int);
            assert(bookmark < self.cur);
        }
        self.partial_close_end = bookmark;
    }

    /// Close a container: if the innermost open container is not `expected`,
    /// fail and leave the tracker unchanged. Otherwise bookmark the position
    /// just before the closer, pop the stack, and append the matching closer
    /// (`expected + 2`). Returns `Ok(true)` exactly when the stack is now
    /// empty, i.e. the candidate just completed.
    pub fn remove_ident(&mut self, expected: u8) -> (r: Result<bool, ()>)
        requires
            old(self).wf(),
            expected <= 0xFD,
        ensures
            final(self).wf(),
            final(self).replace() == old(self).replace(),
            final(self).max_depth() == old(self).max_depth(),
            final(self).in_key() == old(self).in_key(),
            r is Err <==> (old(self).stack().len() == 0 || old(self).stack().last() != expected),
            r is Err ==> *final(self) == *old(self),
            r is Ok ==> {
                &&& final(self).buf() == old(self).buf().push(
                    subst_byte(old(self).replace(), (expected + 2) as u8),
                )
                &&& final(self).stack() == old(self).stack().drop_last()
                &&& final(self).pce() == old(self).buf().len()
                &&& r == Ok::<bool, ()>(final(self).stack().len() == 0)
            },
    {
        match self.last_ident() {
            None => return Err(()),
            Some(ident) => {
                if ident != expected {
                    return Err(());
                }
            },
        }

        self.cur_ident_level -= 1;
        proof {
            assert(self.stack() =~= old(self).stack().drop_last());
        }
        let bookmark = self.cur;
        self.advance(crate::bytes::_closing_ident(expected));
        proof {
            assert(self.buf().len() == self.cur as int);
            assert(bookmark < self.cur);
        }
        self.partial_close_end = bookmark;

        match self.cur_ident_level {
            0 => Ok(true),
            _ => Ok(false),
        }
    }

    /// Reset the tracker for the next candidate; the backing storage keeps
    /// its capacity.
    pub fn quick_clean(&mut self)
        requires
            old(self).wf(),
        ensures
            final(self).wf(),
            final(self).buf() == Seq::<u8>::empty(),
            final(self).stack() == Seq::<u8>::empty(),
            final(self).pce() == 0,
            !final(self).in_key(),
            final(self).replace() == old(self).replace(),
            final(self).max_depth() == old(self).max_depth(),
    {
        self.cur = 0;
        self.partial_close_end = 0;
        self.cur_ident_level = 0;
        self.in_key = false;
        proof {
            assert(self.buf() =~= Seq::<u8>::empty());
            assert(self.stack() =~= Seq::<u8>::empty());
        }
    }

    /// Whether the next string to begin would be an object key.
    pub fn is_in_key(&self) -> (r: bool)
        ensures
            r == self.in_key(),
    {
        self.in_key
    }

    /// The number of bytes of the current candidate.
    pub fn buf_len(&self) -> (r: usize)
        requires
            self.wf(),
        ensures
            r == self.buf().len(),
    {
        self.cur
    }

    /// The last legal close point, relative to the candidate's first byte.
    pub fn partial_close_end(&self) -> (r: usize)
        requires
            self.wf(),
        ensures
            r == self.pce(),
    {
        self.partial_close_end
    }

    /// A copy of the current candidate's bytes.
    pub fn buf_vec(&self) -> (v: Vec<u8>)
        requires
            self.wf(),
        ensures
            v@ == self.buf(),
    {
        let mut v: Vec<u8> = Vec::new();
        let mut i: usize = 0;
        while i < self.cur
            invariant
                i <= self.cur,
                self.wf(),
                v@ == self.buf().take(i as int),
            decreases self.cur - i,
        {
            v.push(self.processed[i]);
            proof {
                assert(v@ =~= self.buf().take(i + 1 as int));
            }
            i += 1;
        }
        proof {
            assert(self.buf().take(self.cur as int) =~= self.buf());
        }
        v
    }

    /// A copy of the stack of open container kinds, bottom first.
    pub fn stack_vec(&self) -> (v: Vec<u8>)
        requires
            self.wf(),
        ensures
            v@ == self.stack(),
    {
        let mut v: Vec<u8> = Vec::new();
        let mut i: usize = 0;
        while i < self.cur_ident_level
            invariant
                i <= self.cur_ident_level,
                self.wf(),
                v@ == self.stack().take(i as int),
            decreases self.cur_ident_level - i,
        {
            v.push(self.ident_levels[i]);
            proof {
                assert(v@ =~= self.stack().take(i + 1 as int));
            }
            i += 1;
        }
        proof {
            assert(self.stack().take(self.cur_ident_level as int) =~= self.stack());
        }
        v
    }

    /// The bookmark stays strictly inside a non-empty candidate: there is
    /// always at least one byte (the opener or closer just appended) after
    /// the last legal close point.
    pub proof fn lemma_bookmark_in_bounds(&self)
        requires
            self.wf(),
        ensures
            0 <= self.pce(),
            self.buf().len() == 0 ==> self.pce() == 0,
            self.buf().len() > 0 ==> self.pce() < self.buf().len(),
    {
        assert(self.buf().len() == self.cur as int);
    }

    /// Record that the next string to begin is an object key (or not).
    pub fn set_in_key(&mut self, v: bool)
        requires
            old(self).wf(),
        ensures
            final(self).wf(),
            final(self).buf() == old(self).buf(),
            final(self).stack() == old(self).stack(),
            final(self).pce() == old(self).pce(),
            final(self).in_key() == v,
            final(self).replace() == old(self).replace(),
            final(self).max_depth() == old(self).max_depth(),
    {
        self.in_key = v;
    }
}

} // verus!
