use vstd::prelude::*;

use crate::text::chars_of;

verus! {

/// What keeps an interactive collector reading: an unclosed quoted string,
/// or brackets still open. Input is only handed to the scanner once neither
/// holds.
#[derive(Debug, Clone, Copy)]
pub struct InterpretLocks {
    pub string_lock: bool,
    pub brace_lock_count: usize,
}

/// The locks after one more character: `"` toggles the string lock; outside
/// a string, an opening bracket raises the count and a closing one lowers
/// it, never below zero.
pub open spec fn locks_step(sl: bool, bc: int, c: char) -> (bool, int) {
    if c == '"' {
        (!sl, bc)
    } else if (c == '[' || c == '{') && !sl {
        (sl, if bc < usize::MAX {
            bc + 1
        } else {
            bc
        })
    } else if (c == ']' || c == '}') && !sl {
        (sl, if bc > 0 {
            bc - 1
        } else {
            0
        })
    } else {
        (sl, bc)
    }
}

/// The locks after a whole line.
pub open spec fn locks_after(sl: bool, bc: int, line: Seq<char>) -> (bool, int)
    decreases line.len(),
{
    if line.len() == 0 {
        (sl, bc)
    } else {
        let n = locks_step(sl, bc, line.first());
        locks_after(n.0, n.1, line.drop_first())
    }
}

impl InterpretLocks {
    /// Nothing held open.
    pub fn new() -> (r: InterpretLocks)
        ensures
            !r.string_lock,
            r.brace_lock_count == 0,
    {
        InterpretLocks { string_lock: false, brace_lock_count: 0 }
    }

    /// Whether more input must be collected before scanning.
    pub fn is_locked(&self) -> (r: bool)
        ensures
            r == (self.string_lock || self.brace_lock_count > 0),
    {
        self.string_lock || self.brace_lock_count > 0
    }

    /// The locks after reading one more line.
    pub fn update(&self, line: &String) -> (r: InterpretLocks)
        ensures
            (r.string_lock, r.brace_lock_count as int) == locks_after(
                self.string_lock,
                self.brace_lock_count as int,
                line@,
            ),
    {
        let cs = chars_of(line.as_str());
        let n = cs.len();
        let mut sl = self.string_lock;
        let mut bc = self.brace_lock_count;
        let mut i: usize = 0;
        proof {
            assert(line@.skip(0) =~= line@);
        }
        while i < n
            invariant
                0 <= i <= n,
                n == cs.len(),
                cs@ == line@,
                locks_after(self.string_lock, self.brace_lock_count as int, line@) == locks_after(
                    sl,
                    bc as int,
                    line@.skip(i as int),
                ),
            decreases n - i,
        {
            let ghost rem = line@.skip(i as int);
            let c = cs[i];
            proof {
                assert(rem.first() == c);
                assert(rem.drop_first() =~= line@.skip(i + 1));
            }
            if c == '"' {
                sl = !sl;
            } else if (c == '[' || c == '{') && !sl {
                if bc < usize::MAX {
                    bc = bc + 1;
                } else {
                    bc = bc;
                }
            } else if (c == ']' || c == '}') && !sl {
                if bc > 0 {
                    bc = bc - 1;
                }
            }
            i = i + 1;
        }
        proof {
            assert(line@.skip(n as int).len() == 0);
        }
        InterpretLocks { string_lock: sl, brace_lock_count: bc }
    }
}

} // verus!
