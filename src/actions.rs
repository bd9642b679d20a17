//! The warning-character actions: the main cycle, building and entering
//! calls, argument references, and leaving a call.
use vstd::prelude::*;
use crate::control_chars::{Cell, ControlChars};
use crate::pc::Pc;
use crate::text::code;
use crate::vm::{symbol_of, to_cell, Fetch, GpmVm, MARKER};

verus! {

/// Label that `Start` goes to on reading `x`.
pub open spec fn start_target(cc: ControlChars, x: Cell, h: Cell, p: Cell, c: Cell) -> Pc {
    if x == cc.open {
        Pc::Q2
    } else if x == cc.def {
        Pc::Fn
    } else if x == cc.arg_sep {
        if h == 0 { Pc::Copy } else { Pc::NextItem }
    } else if x == cc.apply {
        if h == 0 { Pc::Copy } else { Pc::Apply }
    } else if x == cc.load_arg {
        if p == 0 { Pc::Copy } else { Pc::LoadArg }
    } else if x == MARKER {
        if h == 0 && c == 0 { Pc::Finish } else { Pc::EndFn }
    } else if x == cc.close {
        if h == 0 && c == 0 { Pc::Finish } else { Pc::Exit }
    } else {
        Pc::Copy
    }
}

/// The name item at `x` (a length `n`, then `n - 1` cells) equals the
/// name of the entry whose link is at `a`, which follows that link.
pub open spec fn names_entry(st: Seq<Cell>, x: int, a: int) -> bool {
    &&& 0 <= x < st.len()
    &&& 0 <= a
    &&& 0 <= st[x]
    &&& x + st[x] <= st.len()
    &&& a + 1 + st[x] <= st.len()
    &&& forall|k: int| 0 <= k < st[x] ==> st[x + k] == #[trigger] st[a + 1 + k]
}

/// The name item at `x` equals the name of the entry whose link is at `a`.
pub open spec fn name_matches(st: Seq<Cell>, x: int, a: int) -> bool {
    forall|k: int| 0 <= k < st[x] ==> st[x + k] == #[trigger] st[a + 1 + k]
}

/// The chain of definitions from link cell `a` can be searched for the name
/// at `x`: each entry visited lies in the store, and each link followed
/// points further down or ends the chain.
pub open spec fn chain_wf(st: Seq<Cell>, x: int, a: int) -> bool
    decreases a,
{
    if a < 0 {
        true
    } else {
        &&& a + 1 + st[x] <= st.len()
        &&& name_matches(st, x, a) || st[a] < 0 || (st[a] < a && chain_wf(st, x, st[a] as int))
    }
}

/// The first entry on the chain from link cell `a` whose name is the name
/// at `x`; `None` where the chain ends first.
pub open spec fn lookup(st: Seq<Cell>, x: int, a: int) -> Option<int>
    decreases a,
{
    if a < 0 || a >= st.len() {
        None
    } else if name_matches(st, x, a) {
        Some(a)
    } else if st[a] < 0 || st[a] >= a {
        None
    } else {
        lookup(st, x, st[a] as int)
    }
}

/// The label of the machine macro whose tag is `x`.
pub open spec fn macro_label(x: Cell) -> Option<Pc> {
    if x >= 0 {
        None
    } else if x == -1 {
        Some(Pc::DEF)
    } else if x == -2 {
        Some(Pc::VAL)
    } else if x == -3 {
        Some(Pc::UPDATE)
    } else if x == -4 {
        Some(Pc::BIN)
    } else if x == -5 {
        Some(Pc::DEC)
    } else if x == -6 {
        Some(Pc::BAR)
    } else {
        Some(Pc::Monitor(11))
    }
}

/// Where item `n` lies among items that start at `base`: each item's first
/// cell holds its length, so the next item follows it.
pub open spec fn item_at(st: Seq<Cell>, base: int, n: nat) -> int
    decreases n,
{
    if n == 0 {
        base
    } else {
        let w = item_at(st, base, (n - 1) as nat);
        w + st[w]
    }
}

/// How skipping to item `n` from `base` ends: 0 where item `n` lies in the
/// store, 4 where a marker comes first, 11 where a cell lies outside the store.
pub open spec fn arg_walk(st: Seq<Cell>, base: int, n: nat) -> int
    decreases n,
{
    if n == 0 {
        if 0 <= base < st.len() {
            0
        } else {
            11
        }
    } else {
        let prev = arg_walk(st, base, (n - 1) as nat);
        if prev != 0 {
            prev
        } else {
            let w = item_at(st, base, (n - 1) as nat);
            let next = w + st[w];
            if !(0 <= next < st.len()) {
                11
            } else if st[next] == MARKER {
                4
            } else {
                0
            }
        }
    }
}

/// Once skipping has stopped, skipping further stops the same way.
proof fn lemma_arg_walk_stops(st: Seq<Cell>, base: int, j: nat, m: nat)
    requires
        j <= m,
        arg_walk(st, base, j) != 0,
    ensures
        arg_walk(st, base, m) == arg_walk(st, base, j),
    decreases m - j,
{
    if j < m {
        lemma_arg_walk_stops(st, base, j, (m - 1) as nat);
    }
}

/// Past the entries inside a finished call: from link `w`, follow links
/// while they point above `pm1` (the cell before the call).
pub open spec fn skip_inside(st: Seq<Cell>, w: int, pm1: int) -> int
    decreases w,
{
    if w > pm1 && 0 <= w < st.len() && st[w] < w {
        if st[w] < 0 {
            st[w] as int
        } else {
            skip_inside(st, st[w] as int, pm1)
        }
    } else {
        w
    }
}

/// `skip_inside` meets only links within the store that point further down.
pub open spec fn skip_ok(st: Seq<Cell>, w: int, pm1: int) -> bool
    decreases w,
{
    if w > pm1 && pm1 >= 0 {
        &&& w < st.len()
        &&& st[w] < w
        &&& (st[w] < 0 || skip_ok(st, st[w] as int, pm1))
    } else {
        true
    }
}

/// The chain of definitions rewritten as a call of length `l` ends: from
/// link cell `a`, each link at or above `limit` (the end of the call) drops
/// by `l`, and the first link below it is replaced by the first entry at or
/// below `pm1`, so entries inside the call leave the chain.
pub open spec fn end_chain(st: Seq<Cell>, a: int, limit: int, l: int, pm1: int) -> Seq<Cell>
    decreases a,
{
    if 0 <= a < st.len() && st[a] >= limit && 0 <= st[a] < a {
        end_chain(st.update(a, (st[a] - l) as Cell), st[a] as int, limit, l, pm1)
    } else if 0 <= a < st.len() {
        st.update(a, skip_inside(st, st[a] as int, pm1) as Cell)
    } else {
        st
    }
}

/// The chain can be rewritten: every link met lies in the store, points
/// further down, and its lowered value fits in a cell.
pub open spec fn end_chain_ok(st: Seq<Cell>, a: int, limit: int, l: int, pm1: int) -> bool
    decreases a,
{
    &&& 0 <= a < st.len()
    &&& if st[a] >= limit {
        &&& 0 <= st[a] < a
        &&& Cell::MIN <= st[a] - l
        &&& end_chain_ok(st.update(a, (st[a] - l) as Cell), st[a] as int, limit, l, pm1)
    } else {
        skip_ok(st, st[a] as int, pm1)
    }
}

/// JumpIfMarked: the machine macro that a negative tag names; an unknown
/// tag is a fault.
pub(crate) fn jump_if_marked(x: Cell) -> (r: Option<Pc>)
    ensures
        r == macro_label(x),
{
    if x >= 0 {
        None
    } else if x == -1 {
        Some(Pc::DEF)
    } else if x == -2 {
        Some(Pc::VAL)
    } else if x == -3 {
        Some(Pc::UPDATE)
    } else if x == -4 {
        Some(Pc::BIN)
    } else if x == -5 {
        Some(Pc::DEC)
    } else if x == -6 {
        Some(Pc::BAR)
    } else {
        Some(Pc::Monitor(11))
    }
}

/// Number: the digit value of a character cell.
pub(crate) fn number(x: Cell) -> (r: i64)
    ensures
        r == x - ('0' as Cell),
{
    x as i64 - '0' as i64
}
impl GpmVm {
    /// What Start does: the character read and the label chosen for it.
    pub(crate) open spec fn start_post(&self, o: &Self, r: Pc) -> bool {
        &&& self.output == o.output
        &&& self.h == o.h
        &&& self.p == o.p
        &&& self.f == o.f
        &&& self.st == o.st
        &&& self.w == o.w
        &&& self.s == o.s
        &&& self.e == o.e
        &&& r == Pc::NoInput ==> self.a == o.a
        &&& o.c != 0 && 0 <= o.c < o.st@.len() ==> {
            let x = o.st@[o.c as int];
            &&& self.ipos == o.ipos
            &&& self.a == x
            &&& self.c == o.c + 1
            &&& r == if x == o.cc.open && o.q == Cell::MAX {
                Pc::Monitor(11)
            } else {
                start_target(o.cc, x, o.h, o.p, (o.c + 1) as Cell)
            }
            &&& self.q == if x == o.cc.open && o.q < Cell::MAX {
                o.q + 1
            } else {
                o.q as int
            }
        }
        &&& o.c != 0 && !(0 <= o.c < o.st@.len()) ==> r == Pc::Monitor(11) && self.q == o.q
        &&& o.c == 0 && o.ipos < o.input@.len() ==> {
            let x = code(o.input@[o.ipos as int]);
            &&& self.ipos == o.ipos + 1
            &&& self.a == x
            &&& self.c == 0
            &&& r == if x == o.cc.open && o.q == Cell::MAX {
                Pc::Monitor(11)
            } else {
                start_target(o.cc, x, o.h, o.p, 0)
            }
            &&& self.q == if x == o.cc.open && o.q < Cell::MAX {
                o.q + 1
            } else {
                o.q as int
            }
        }
        &&& o.c == 0 && o.ipos >= o.input@.len() ==> {
            &&& r == Pc::NoInput
            &&& self.ipos == o.ipos
            &&& self.c == 0
            &&& self.q == o.q
        }
    }

    /// What Copy does at the top level: the character goes to the output.
    pub(crate) open spec fn copy_post(&self, o: &Self, r: Pc) -> bool {
        o.h == 0 ==> {
            &&& r == Pc::Scan
            &&& self.output@ == o.output@.push(symbol_of(o.a))
            &&& self.regs_same(o)
            &&& self.st == o.st
        }
    }

    /// What Q2 does: the character read and the new quote depth.
    pub(crate) open spec fn q2_post(&self, o: &Self, r: Pc) -> bool {
        &&& self.output == o.output
        &&& self.h == o.h
        &&& self.p == o.p
        &&& self.f == o.f
        &&& self.st == o.st
        &&& self.w == o.w
        &&& self.s == o.s
        &&& self.e == o.e
        &&& r == Pc::NoInput ==> self.a == o.a && self.q == o.q
        &&& o.c != 0 && 0 <= o.c < o.st@.len() ==> {
            let x = o.st@[o.c as int];
            &&& self.ipos == o.ipos
            &&& self.a == x
            &&& self.c == o.c + 1
            &&& if x == o.cc.open {
                &&& self.q == if o.q < Cell::MAX {
                    o.q + 1
                } else {
                    o.q as int
                }
                &&& r == if o.q < Cell::MAX {
                    Pc::Copy
                } else {
                    Pc::Monitor(11)
                }
            } else if x == o.cc.close {
                &&& self.q == o.q - 1
                &&& r == if o.q == 2 {
                    Pc::Start
                } else {
                    Pc::Copy
                }
            } else {
                self.q == o.q && r == Pc::Copy
            }
        }
        &&& o.c != 0 && !(0 <= o.c < o.st@.len()) ==> r == Pc::Monitor(11) && self.q == o.q
        &&& o.c == 0 && o.ipos < o.input@.len() ==> {
            let x = code(o.input@[o.ipos as int]);
            &&& self.ipos == o.ipos + 1
            &&& self.a == x
            &&& self.c == 0
            &&& if x == o.cc.open {
                &&& self.q == if o.q < Cell::MAX {
                    o.q + 1
                } else {
                    o.q as int
                }
                &&& r == if o.q < Cell::MAX {
                    Pc::Copy
                } else {
                    Pc::Monitor(11)
                }
            } else if x == o.cc.close {
                &&& self.q == o.q - 1
                &&& r == if o.q == 2 {
                    Pc::Start
                } else {
                    Pc::Copy
                }
            } else {
                self.q == o.q && r == Pc::Copy
            }
        }
        &&& o.c == 0 && o.ipos >= o.input@.len() ==> {
            &&& r == Pc::NoInput
            &&& self.ipos == o.ipos
            &&& self.c == 0
            &&& self.q == o.q
        }
    }

    /// Start: reads a character and chooses the action for it.
    pub(crate) fn op_start(&mut self) -> (r: Pc)
        requires
            old(self).core_wf(),
        ensures
            final(self).keeps(old(self), r),
            final(self).start_post(old(self), r),
            final(self).pc == old(self).pc,
            final(self).resume == old(self).resume,
    {
        match self.next_ch() {
            Fetch::Starved => return Pc::NoInput,
            Fetch::Fault => return Pc::Monitor(11),
            Fetch::Got => {},
        }
        let x = self.a;
        let cc = self.cc;
        if x == cc.open {
            if self.q == Cell::MAX {
                return Pc::Monitor(11);
            }
            self.q = self.q + 1;
            Pc::Q2
        } else if x == cc.def {
            Pc::Fn
        } else if x == cc.arg_sep {
            if self.h == 0 {
                Pc::Copy
            } else {
                Pc::NextItem
            }
        } else if x == cc.apply {
            if self.h == 0 {
                Pc::Copy
            } else {
                Pc::Apply
            }
        } else if x == cc.load_arg {
            if self.p == 0 {
                Pc::Copy
            } else {
                Pc::LoadArg
            }
        } else if x == MARKER {
            if self.h == 0 && self.c == 0 {
                Pc::Finish
            } else {
                Pc::EndFn
            }
        } else if x == cc.close {
            if self.h == 0 && self.c == 0 {
                Pc::Finish
            } else {
                Pc::Exit
            }
        } else {
            Pc::Copy
        }
    }

    /// Copy: loads `A`.
    pub(crate) fn op_copy(&mut self) -> (r: Pc)
        requires
            old(self).core_wf(),
        ensures
            final(self).keeps(old(self), r),
            final(self).copy_post(old(self), r),
            final(self).pc == old(self).pc,
            final(self).resume == old(self).resume,
    {
        if self.load() {
            Pc::Scan
        } else {
            Pc::Monitor(11)
        }
    }

    /// Scan: back to Start outside quotes, on to Q2 inside them.
    pub(crate) fn op_scan(&self) -> (r: Pc)
        ensures
            r == if self.q == 1 { Pc::Start } else { Pc::Q2 },
    {
        if self.q == 1 {
            Pc::Start
        } else {
            Pc::Q2
        }
    }

    /// Q2: reads a quoted character, tracking the quote depth.
    pub(crate) fn op_q2(&mut self) -> (r: Pc)
        requires
            old(self).core_wf(),
            old(self).q >= 2,
        ensures
            final(self).keeps(old(self), r),
            final(self).q2_post(old(self), r),
            final(self).pc == old(self).pc,
            final(self).resume == old(self).resume,
    {
        match self.next_ch() {
            Fetch::Starved => return Pc::NoInput,
            Fetch::Fault => return Pc::Monitor(11),
            Fetch::Got => {},
        }
        let x = self.a;
        if x == self.cc.open {
            if self.q == Cell::MAX {
                return Pc::Monitor(11);
            }
            self.q = self.q + 1;
            Pc::Copy
        } else if x == self.cc.close {
            self.q = self.q - 1;
            if self.q == 1 {
                Pc::Start
            } else {
                Pc::Copy
            }
        } else {
            Pc::Copy
        }
    }

    /// Fn: opens a call frame on the stack: `ST[S..S+3] := H, F, 0, 0`,
    /// `H := S+3`, `F := S+1`, `S := S+4`.
    pub(crate) fn op_fn(&mut self) -> (r: Pc)
        requires
            old(self).core_wf(),
        ensures
            final(self).op_post(old(self), r),
            final(self).output == old(self).output,
            old(self).s + 4 <= old(self).st@.len() ==> {
                let s0 = old(self).s as int;
                &&& r == Pc::Start
                &&& final(self).st@ == old(self).st@.update(s0, old(self).h).update(
                    s0 + 1,
                    old(self).f,
                ).update(s0 + 2, 0).update(s0 + 3, 0)
                &&& final(self).h == s0 + 3
                &&& final(self).f == s0 + 1
                &&& final(self).s == s0 + 4
                &&& final(self).p == old(self).p
                &&& final(self).c == old(self).c
            },
            old(self).s + 4 > old(self).st@.len() ==> r == Pc::Monitor(11) && final(self).st
                == old(self).st && final(self).regs_same(old(self)),
    {
        let s0 = self.s;
        if s0 as i64 + 4 > self.st.len() as i64 {
            return Pc::Monitor(11);
        }
        let h0 = self.h;
        let f0 = self.f;
        self.put(s0 as i64, h0);
        self.put(s0 as i64 + 1, f0);
        self.put(s0 as i64 + 2, 0);
        self.put(s0 as i64 + 3, 0);
        self.h = s0 + 3;
        self.f = s0 + 1;
        self.s = s0 + 4;
        Pc::Start
    }

    /// NextItem: closes the item under construction and opens the next:
    /// `ST[H] := S-H-ST[H]`, `ST[S] := 0`, `H := S`, `S := S+1`.
    pub(crate) fn op_next_item(&mut self) -> (r: Pc)
        requires
            old(self).core_wf(),
        ensures
            final(self).op_post(old(self), r),
            final(self).output == old(self).output,
            old(self).h == 0 ==> r == Pc::Copy && final(self).st == old(self).st,
            old(self).h != 0 && r == Pc::Start ==> {
                let s0 = old(self).s as int;
                let h0 = old(self).h as int;
                &&& 0 <= h0 < old(self).st@.len()
                &&& final(self).st@ == old(self).st@.update(
                    h0,
                    (s0 - h0 - old(self).st@[h0]) as Cell,
                ).update(s0, 0)
                &&& final(self).h == s0
                &&& final(self).s == s0 + 1
            },
            old(self).h != 0 ==> r == Pc::Start || r == Pc::Monitor(11),
            r == Pc::Monitor(11) ==> final(self).st == old(self).st && final(self).regs_same(
                old(self),
            ),
            ({
                let st = old(self).st@;
                let h = old(self).h as int;
                let s = old(self).s as int;
                &&& h != 0
                &&& 0 <= h < st.len()
                &&& s < st.len()
                &&& Cell::MIN <= s - h - st[h] <= Cell::MAX
            }) ==> r == Pc::Start,
    {
        if self.h == 0 {
            return Pc::Copy;
        }
        let s0 = self.s;
        let h0 = self.h;
        if s0 as i64 >= self.st.len() as i64 {
            return Pc::Monitor(11);
        }
        let len_so_far = match self.get(h0 as i64) {
            Some(v) => v,
            None => return Pc::Monitor(11),
        };
        let new_len = match to_cell(s0 as i64 - h0 as i64 - len_so_far as i64) {
            Some(v) => v,
            None => return Pc::Monitor(11),
        };
        self.put(h0 as i64, new_len);
        self.put(s0 as i64, 0);
        self.h = s0;
        self.s = s0 + 1;
        Pc::Start
    }

    /// Exit: a close quote at the top level ends the run; elsewhere it is out of place.
    pub(crate) fn op_exit(&self) -> (r: Pc)
        ensures
            r == if self.c == 0 && self.h == 0 {
                Pc::Finish
            } else {
                Pc::Monitor(8)
            },
    {
        if self.c == 0 && self.h == 0 {
            Pc::Finish
        } else {
            Pc::Monitor(8)
        }
    }

    /// Is the name item at `x` equal to the name of the entry at `a`?
    /// `Err` where a cell compared lies outside the store.
    pub(crate) fn names_match(&self, x: i64, a: i64, len: i64) -> (r: Result<bool, ()>)
        requires
            self.core_wf(),
            0 <= len <= Cell::MAX,
            0 <= x < self.st@.len(),
            0 <= a < self.st@.len(),
        ensures
            r matches Ok(b) ==> (b <==> forall|k: int|
                0 <= k < len ==> self.st@[x + k] == #[trigger] self.st@[a + 1 + k]),
            r == Ok::<bool, ()>(true) ==> x + len <= self.st@.len() && a + 1 + len <= self.st@.len(),
            x + len <= self.st@.len() && a + 1 + len <= self.st@.len() ==> r is Ok,
    {
        let mut r: i64 = 0;
        while r < len
            invariant
                self.core_wf(),
                0 <= r <= len <= Cell::MAX,
                0 <= x < self.st@.len(),
                0 <= a < self.st@.len(),
                forall|k: int| 0 <= k < r ==> self.st@[x + k] == #[trigger] self.st@[a + 1 + k],
                r > 0 ==> x + r <= self.st@.len() && a + 1 + r <= self.st@.len(),
            decreases len - r,
        {
            let lw = match self.get(x + r) {
                Some(v) => v,
                None => return Err(()),
            };
            let ra = match self.get(a + 1 + r) {
                Some(v) => v,
                None => return Err(()),
            };
            if lw != ra {
                return Ok(false);
            }
            r = r + 1;
        }
        Ok(true)
    }

    /// Find: looks up the name item at `x` along the chain of definitions
    /// from `E`; on success `W` points just past the entry's name. `Err`
    /// gives the monitor: 7 for an undefined name, 11 for a broken chain.
    pub(crate) fn find(&mut self, x: i64) -> (r: Result<(), u8>)
        requires
            old(self).core_wf(),
        ensures
            final(self).frame(old(self)),
            final(self).st == old(self).st,
            final(self).output == old(self).output,
            final(self).a == old(self).a && final(self).h == old(self).h && final(self).p
                == old(self).p && final(self).f == old(self).f && final(self).c == old(self).c
                && final(self).s == old(self).s && final(self).e == old(self).e,
            r matches Err(n) ==> n == 7 || n == 11,
            r is Ok ==> exists|a: int|
                #[trigger] names_entry(old(self).st@, x as int, a) && final(self).w == a + 1
                    + old(self).st@[x as int],
            r == Err::<(), u8>(7) ==> final(self).w == x,
            ({
                let st = old(self).st@;
                &&& 0 <= x < st.len()
                &&& 0 <= st[x as int]
                &&& x + st[x as int] <= st.len()
                &&& chain_wf(st, x as int, old(self).e as int)
            }) ==> match lookup(old(self).st@, x as int, old(self).e as int) {
                Some(a) => r == Ok::<(), u8>(()) && final(self).w == a + 1 + old(self).st@[x as int],
                None => r == Err::<(), u8>(7) && final(self).w == x,
            },
    {
        if x < 0 || x > Cell::MAX as i64 {
            return Err(11);
        }
        self.w = x as Cell;
        let mut a: i64 = self.e as i64;
        loop
            invariant
                self.frame(old(self)),
                self.st == old(self).st,
                self.output == old(self).output,
                self.a == old(self).a && self.h == old(self).h && self.p == old(self).p
                    && self.f == old(self).f && self.c == old(self).c && self.s == old(self).s
                    && self.e == old(self).e,
                0 <= x <= Cell::MAX,
                Cell::MIN <= a <= Cell::MAX,
                self.w == x,
                ({
                    let st = old(self).st@;
                    &&& 0 <= x < st.len()
                    &&& 0 <= st[x as int]
                    &&& x + st[x as int] <= st.len()
                    &&& chain_wf(st, x as int, old(self).e as int)
                }) ==> chain_wf(self.st@, x as int, a as int) && lookup(
                    self.st@,
                    x as int,
                    old(self).e as int,
                ) == lookup(self.st@, x as int, a as int),
            decreases a - Cell::MIN,
        {
            if a < 0 {
                return Err(7);
            }
            if a >= self.st.len() as i64 {
                return Err(11);
            }
            let len = match self.get(x) {
                Some(v) => v,
                None => return Err(11),
            };
            if len < 0 {
                return Err(11);
            }
            match self.names_match(x, a, len as i64) {
                Err(()) => return Err(11),
                Ok(true) => {
                    match to_cell(a + 1 + len as i64) {
                        Some(w) => {
                            assert(names_entry(self.st@, x as int, a as int));
                            self.w = w;
                            return Ok(());
                        },
                        None => return Err(11),
                    }
                },
                Ok(false) => {},
            }
            let next = match self.get(a) {
                Some(v) => v as i64,
                None => return Err(11),
            };
            if next >= a {
                return Err(11);
            }
            a = next;
        }
    }

    /// Apply: closes the call under construction and enters it. The frame is
    /// chained to the current call, the input cursor saved, and the body of
    /// the named macro replayed, or its machine code run.
    pub(crate) fn op_apply(&mut self) -> (r: Pc)
        requires
            old(self).core_wf(),
        ensures
            final(self).op_post(old(self), r),
            final(self).output == old(self).output,
            old(self).p > old(self).f ==> r == Pc::Monitor(1) && final(self).st == old(self).st
                && final(self).regs_same(old(self)),
            old(self).p <= old(self).f && old(self).h == 0 ==> r == Pc::Copy && final(self).st
                == old(self).st && final(self).regs_same(old(self)),
            old(self).apply_ready() ==> {
                let o = old(self);
                let st1 = o.apply_store();
                let nh = o.st@[o.f - 1];
                &&& final(self).p == o.f
                &&& final(self).f == o.st@[o.f as int]
                &&& final(self).h == nh
                &&& final(self).s == o.s + 1
                &&& final(self).e == o.e
                &&& nh == 0 ==> final(self).st@ == st1
                &&& nh != 0 && 0 <= nh < st1.len() && Cell::MIN <= st1[nh as int] + st1[o.f - 1]
                    <= Cell::MAX ==> final(self).st@ == st1.update(
                    nh as int,
                    (st1[nh as int] + st1[o.f - 1]) as Cell,
                )
            },
            ({
                let o = old(self);
                let st = final(self).st@;
                let x = o.f + 2;
                let nh = o.st@[o.f - 1];
                let st1 = o.apply_store();
                &&& o.apply_ready()
                &&& nh == 0 || (0 <= nh < st1.len() && Cell::MIN <= st1[nh as int] + st1[o.f - 1]
                    <= Cell::MAX)
                &&& x < st.len()
                &&& 0 <= st[x]
                &&& x + st[x] <= st.len()
                &&& chain_wf(st, x, o.e as int)
            }) ==> {
                let st = final(self).st@;
                let x = old(self).f + 2;
                match lookup(st, x, old(self).e as int) {
                    None => r == Pc::Monitor(7),
                    Some(a) => {
                        let w = a + 1 + st[x];
                        w < st.len() ==> match macro_label(st[w]) {
                            Some(label) => r == label,
                            None => r == Pc::Start && final(self).c == w + 1,
                        }
                    },
                }
            },
            r == Pc::Start || r == Pc::Monitor(7) || r == Pc::DEF || r == Pc::VAL || r
                == Pc::UPDATE || r == Pc::BIN || r == Pc::DEC || r == Pc::BAR ==> {
                &&& 1 <= old(self).f < old(self).st@.len()
                &&& final(self).p == old(self).f
                &&& final(self).f == old(self).st@[old(self).f as int]
                &&& final(self).h == old(self).st@[old(self).f - 1]
                &&& final(self).s == old(self).s + 1
            },
            r == Pc::Start ==> {
                let w = final(self).w as int;
                0 <= w < final(self).st@.len() && final(self).st@[w] >= 0 && final(self).c == w + 1
            },
            r != Pc::Start ==> final(self).c == old(self).c,
    {
        if self.p > self.f {
            return Pc::Monitor(1);
        }
        if self.h == 0 {
            return Pc::Copy;
        }
        let cur_p = self.p as i64;
        let f0 = self.f as i64;
        let h0 = self.h as i64;
        let s0 = self.s as i64;
        let c0 = self.c;
        let len = self.st.len() as i64;
        if f0 <= 0 || h0 < 0 || cur_p < 0 || s0 + 1 > len - 1 || f0 + 1 >= len || h0 >= len {
            return Pc::Monitor(11);
        }
        let new_f = match self.get(f0) {
            Some(v) => v,
            None => return Pc::Monitor(11),
        };
        let new_h = match self.get(f0 - 1) {
            Some(v) => v,
            None => return Pc::Monitor(11),
        };
        self.put(h0, (s0 - h0) as Cell);
        self.put(s0, MARKER);
        self.put(f0 - 1, (s0 - f0 + 2) as Cell);
        self.put(f0, cur_p as Cell);
        self.put(f0 + 1, c0);
        self.f = new_f;
        self.p = f0 as Cell;
        self.h = new_h;
        self.s = (s0 + 1) as Cell;
        if new_h != 0 {
            let outer = match self.get(new_h as i64) {
                Some(v) => v,
                None => return Pc::Monitor(11),
            };
            let used = match self.get(f0 - 1) {
                Some(v) => v,
                None => return Pc::Monitor(11),
            };
            match to_cell(outer as i64 + used as i64) {
                Some(v) => {
                    self.put(new_h as i64, v);
                },
                None => return Pc::Monitor(11),
            }
        }
        match self.find(f0 + 2) {
            Ok(()) => {},
            Err(n) => return Pc::Monitor(n),
        }
        let tag = match self.get(self.w as i64) {
            Some(v) => v,
            None => return Pc::Monitor(11),
        };
        if let Some(label) = jump_if_marked(tag) {
            return label;
        }
        self.c = self.w + 1;
        Pc::Start
    }

    /// NextCh has a character to read.
    pub(crate) open spec fn has_next(&self) -> bool {
        ||| self.c == 0 && self.ipos < self.input@.len()
        ||| self.c != 0 && 0 <= self.c < self.st@.len()
    }

    /// How LoadArg ends, by the argument number that follows the tilde: a
    /// negative one is refused; a marker met while skipping to the argument
    /// means there are too few; an argument within the store, with room for
    /// it on the stack, is loaded.
    pub(crate) open spec fn load_arg_outcome(&self, r: Pc) -> bool {
        let st = self.st@;
        let n = self.next_symbol() - '0' as Cell;
        let base = self.p + 2;
        let w = item_at(st, base, n as nat);
        let len = st[w];
        &&& n < 0 ==> r == Pc::Monitor(3)
        &&& n >= 0 && arg_walk(st, base, n as nat) == 4 ==> r == Pc::Monitor(4)
        &&& n >= 0 && arg_walk(st, base, n as nat) == 0 && (len < 1 || (w + len <= st.len() && (
        self.h == 0 || (w + len <= self.s && self.s + len - 1 <= st.len())))) ==> r == Pc::Start
    }

    /// EndFn can leave the current call, which made no definition: the call
    /// is entered, its length `L` is at least zero and ends below the stack
    /// top, the chain of definitions starts below it, and the item under
    /// construction, if any, lies outside it.
    pub(crate) open spec fn end_quiet(&self) -> bool {
        let st = self.st@;
        let p = self.p as int;
        let l = st[p - 1];
        let h = self.h as int;
        &&& self.f <= self.p
        &&& 1 <= p
        &&& p + 1 < self.s < st.len()
        &&& 0 <= l
        &&& p - 1 + l <= self.s
        &&& self.e < p - 1
        &&& h == 0 || h > p || (0 < h < p - 1 && Cell::MIN <= st[h] - l)
    }

    /// The store after EndFn's rewrite of the chain of definitions.
    pub(crate) open spec fn end_store(&self) -> Seq<Cell> {
        let p = self.p as int;
        let l = self.st@[p - 1] as int;
        end_chain(self.st@.update(self.s as int, self.e), self.s as int, p - 1 + l, l, p - 1)
    }

    /// The store after the chain rewrite and the adjustment of the item
    /// under construction, just before the cells above the call move down.
    pub(crate) open spec fn end_store_adjusted(&self) -> Seq<Cell> {
        let p = self.p as int;
        let l = self.st@[p - 1] as int;
        let h = self.h as int;
        let mid = self.end_store();
        if 0 < h <= p {
            mid.update(h, (mid[h] - l) as Cell)
        } else {
            mid
        }
    }

    /// EndFn can leave the current call: it is entered, its length `L` is at
    /// least zero and ends below the stack top, the chain of definitions can
    /// be rewritten, and the item under construction can be adjusted.
    pub(crate) open spec fn end_ready(&self) -> bool {
        let st = self.st@;
        let p = self.p as int;
        let l = st[p - 1];
        let h = self.h as int;
        &&& self.f <= self.p
        &&& 1 <= p
        &&& p + 1 < st.len()
        &&& self.s < st.len()
        &&& 0 <= l
        &&& p - 1 + l <= self.s
        &&& end_chain_ok(st.update(self.s as int, self.e), self.s as int, p - 1 + l, l as int, p - 1)
        &&& h == 0 || h > p || (0 < h && Cell::MIN <= self.end_store()[h] - l)
    }

    /// Apply can close the call under construction: one is being built,
    /// none is entered above it, and its cells lie in the store.
    pub(crate) open spec fn apply_ready(&self) -> bool {
        &&& self.p <= self.f
        &&& self.h != 0
        &&& 1 <= self.f
        &&& 0 <= self.h
        &&& 0 <= self.p
        &&& self.s + 1 < self.st@.len()
        &&& self.f + 1 < self.st@.len()
        &&& self.h < self.st@.len()
    }

    /// The store after Apply's five simultaneous writes: the last item's
    /// length, the end marker, the call's length, and the saved P and C.
    pub(crate) open spec fn apply_store(&self) -> Seq<Cell> {
        self.st@.update(self.h as int, (self.s - self.h) as Cell).update(
            self.s as int,
            MARKER,
        ).update(self.f - 1, (self.s - self.f + 2) as Cell).update(
            self.f as int,
            self.p,
        ).update(self.f + 1, self.c)
    }

    /// LoadArg: copies argument `n` of the current call, `n` being the digit
    /// that follows, to where Load puts characters.
    pub(crate) fn op_load_arg(&mut self) -> (r: Pc)
        requires
            old(self).core_wf(),
        ensures
            final(self).op_post(old(self), r),
            old(self).p == 0 ==> r == (if old(self).h == 0 {
                Pc::Copy
            } else {
                Pc::Monitor(2)
            }) && final(self).st == old(self).st && final(self).output == old(self).output
                && final(self).regs_same(old(self)),
            r == Pc::NoInput ==> final(self).ipos == old(self).ipos && final(self).st
                == old(self).st && final(self).output == old(self).output,
            r == Pc::Monitor(3) ==> final(self).a < '0' as Cell,
            r == Pc::Monitor(4) ==> final(self).a > '0' as Cell,
            r == Pc::NoInput ==> old(self).p != 0 && old(self).c == 0 && old(self).ipos
                == old(self).input@.len(),
            r == Pc::Start ==> {
                let st = old(self).st@;
                let n = old(self).next_symbol() - '0' as Cell;
                let w = item_at(st, old(self).p + 2, n as nat);
                let len = st[w];
                &&& old(self).p != 0
                &&& n >= 0
                &&& 0 <= w < st.len()
                &&& len >= 1 && (old(self).h == 0 || w + len <= old(self).s) ==> final(self).loaded(
                    old(self),
                    st.subrange(w + 1, w + len),
                )
                &&& len < 1 ==> final(self).loaded(old(self), Seq::empty())
            },
            old(self).p != 0 && old(self).has_next() ==> old(self).load_arg_outcome(r),
            old(self).p != 0 && old(self).c == 0 && old(self).ipos >= old(self).input@.len() ==> r
                == Pc::NoInput && final(self).regs_same(old(self)) && final(self).st == old(
                self,
            ).st && final(self).output == old(self).output,
            r == Pc::Start ==> {
                &&& old(self).c == 0 ==> final(self).c == 0 && final(self).ipos == old(self).ipos
                    + 1
                &&& old(self).c != 0 ==> final(self).c == old(self).c + 1 && final(self).ipos == old(
                    self,
                ).ipos
            },
            r == Pc::Monitor(3) || r == Pc::Monitor(4) ==> final(self).st@ == old(self).st@
                && final(self).s == old(self).s && final(self).output == old(self).output,
    {
        if self.p == 0 {
            if self.h == 0 {
                return Pc::Copy;
            }
            return Pc::Monitor(2);
        }
        match self.next_ch() {
            Fetch::Starved => return Pc::NoInput,
            Fetch::Fault => return Pc::Monitor(11),
            Fetch::Got => {},
        }
        let ghost c1 = self.c;
        let ghost i1 = self.ipos;
        let n = number(self.a);
        let ghost nn: int = old(self).next_symbol() - '0' as Cell;
        assert(nn == n as int);
        if n < 0 {
            return Pc::Monitor(3);
        }
        let ghost st = old(self).st@;
        let ghost start = *self;
        let mut w: i64 = self.p as i64 + 2;
        let mut k: i64 = 0;
        while k < n
            invariant
                self.op_post(old(self), Pc::Start),
                old(self).p != 0,
                n == self.a - '0' as Cell,
                n == old(self).next_symbol() - '0' as Cell,
                nn == n as int,
                self.c == c1,
                self.ipos == i1,
                old(self).c == 0 ==> c1 == 0 && i1 == old(self).ipos + 1,
                old(self).c != 0 ==> c1 == old(self).c + 1 && i1 == old(self).ipos,
                0 <= k <= n <= Cell::MAX as i64 + 48,
                Cell::MIN <= w <= Cell::MAX as i64 + 2,
                w == item_at(st, old(self).p + 2, k as nat),
                k > 0 ==> arg_walk(st, old(self).p + 2, k as nat) == 0 && 0 <= w < st.len(),
                self.st@ == st,
                st == old(self).st@,
                self.output == old(self).output,
                self.s == old(self).s,
                self.h == old(self).h,
                self.p == old(self).p,
            decreases n - k,
        {
            let step = match self.get(w) {
                Some(v) => v,
                None => {
                    proof {
                        if k == 0 {
                            lemma_arg_walk_stops(st, old(self).p + 2, 0, nn as nat);
                        }
                    }
                    return Pc::Monitor(11);
                },
            };
            let ghost w_old = w;
            w = w + step as i64;
            assert(item_at(st, old(self).p + 2, (k + 1) as nat) == w);
            assert(arg_walk(st, old(self).p + 2, k as nat) == 0);
            assert(w == w_old + st[w_old as int]);
            match self.get(w) {
                Some(v) => {
                    if v == MARKER {
                        proof {
                            assert(arg_walk(st, old(self).p + 2, (k + 1) as nat) == 4);
                            lemma_arg_walk_stops(st, old(self).p + 2, (k + 1) as nat, nn as nat);
                        }
                        return Pc::Monitor(4);
                    }
                },
                None => {
                    proof {
                        assert(arg_walk(st, old(self).p + 2, (k + 1) as nat) == 11);
                        lemma_arg_walk_stops(st, old(self).p + 2, (k + 1) as nat, nn as nat);
                    }
                    return Pc::Monitor(11);
                },
            }
            assert(arg_walk(st, old(self).p + 2, (k + 1) as nat) == 0);
            k = k + 1;
        }
        let len = match self.get(w) {
            Some(v) => v as i64,
            None => {
                assert(n == 0);
                assert(arg_walk(st, old(self).p + 2, 0) == 11);
                return Pc::Monitor(11);
            },
        };
        let mut r: i64 = 1;
        let ghost fits = old(self).h == 0 || w + len <= old(self).s;
        let ghost ok = len < 1 || (w + len <= st.len() && (old(self).h == 0 || (w + len <= old(
            self,
        ).s && old(self).s + len - 1 <= st.len())));
        assert(st.subrange(w + 1, w + 1) =~= Seq::<Cell>::empty());
        assert(Seq::<Cell>::empty().map_values(|x: Cell| symbol_of(x)) =~= Seq::<char>::empty());
        assert(old(self).output@ + Seq::<char>::empty() =~= old(self).output@);
        assert(old(self).st@.subrange(0, old(self).s as int) + Seq::<Cell>::empty()
            + old(self).st@.subrange(old(self).s as int, old(self).st@.len() as int)
            =~= old(self).st@);
        while r < len
            invariant
                self.op_post(old(self), Pc::Start),
                old(self).p != 0,
                old(self).core_wf(),
                1 <= r,
                0 <= w < st.len(),
                len == st[w as int],
                len <= Cell::MAX,
                st == old(self).st@,
                self.h == old(self).h,
                self.p == old(self).p,
                n == old(self).next_symbol() - '0' as Cell,
                nn == n as int,
                self.c == c1,
                self.ipos == i1,
                old(self).c == 0 ==> c1 == 0 && i1 == old(self).ipos + 1,
                old(self).c != 0 ==> c1 == old(self).c + 1 && i1 == old(self).ipos,
                w == item_at(st, old(self).p + 2, nn as nat),
                fits == (old(self).h == 0 || w + len <= old(self).s),
                0 <= n,
                arg_walk(st, old(self).p + 2, nn as nat) == 0,
                ok == (len < 1 || (w + len <= st.len() && (old(self).h == 0 || (w + len <= old(
                    self,
                ).s && old(self).s + len - 1 <= st.len())))),
                len >= 1 ==> r <= len,
                w + r <= st.len(),
                fits && r <= len ==> self.loaded(old(self), st.subrange(w + 1, w + r)),
                len < 1 ==> self.loaded(old(self), Seq::empty()),
            decreases len - r,
        {
            match self.get(w + r) {
                Some(v) => {
                    self.a = v;
                },
                None => {
                    assert(!ok);
                    return Pc::Monitor(11);
                },
            }
            let ghost mid = *self;
            if !self.load() {
                assert(!ok);
                return Pc::Monitor(11);
            }
            proof {
                if fits {
                    assert(mid.a == st[w + r]);
                    self.lemma_load_more(&mid, old(self), st.subrange(w + 1, w + r));
                }
                assert(st.subrange(w + 1, w + r).push(st[w + r]) =~= st.subrange(w + 1, w + r + 1));
            }
            r = r + 1;
        }
        Pc::Start
    }

    /// EndFn: leaves the current call. Definitions made inside the frame are
    /// dropped from the chain, those above it are moved down, the item under
    /// construction is adjusted, and the cells above the frame are moved down
    /// over it.
    pub(crate) fn op_end_fn(&mut self) -> (r: Pc)
        requires
            old(self).core_wf(),
        ensures
            final(self).op_post(old(self), r),
            final(self).output == old(self).output,
            old(self).f > old(self).p ==> r == Pc::Monitor(5) && final(self).st == old(self).st,
            old(self).f <= old(self).p ==> r == Pc::Start || r == Pc::Monitor(11),
            r == Pc::Start ==> 1 <= old(self).p && final(self).s == old(self).s - old(
                self,
            ).st@[old(self).p - 1],
            old(self).f > old(self).p ==> final(self).regs_same(old(self)),
            old(self).end_ready() ==> {
                let o = old(self);
                let p = o.p as int;
                let l = o.st@[p - 1] as int;
                let h = o.h as int;
                let mid = o.end_store_adjusted();
                &&& r == Pc::Start
                &&& final(self).e == o.end_store()[o.s as int]
                &&& final(self).p == mid[p]
                &&& final(self).c == mid[p + 1]
                &&& final(self).s == o.s - l
                &&& final(self).h == if h > p {
                    h - l
                } else {
                    h
                }
                &&& forall|k: int| 0 <= k < p - 1 ==> final(self).st@[k] == mid[k]
                &&& forall|k: int| p - 1 <= k < o.s - l ==> final(self).st@[k] == mid[k + l]
            },
            old(self).end_quiet() ==> {
                let o = old(self);
                let st = o.st@;
                let p = o.p as int;
                let l = st[p - 1];
                let h = o.h as int;
                &&& r == Pc::Start
                &&& final(self).p == st[p]
                &&& final(self).c == st[p + 1]
                &&& final(self).s == o.s - l
                &&& final(self).e == o.e
                &&& final(self).h == if h > p {
                    h - l
                } else {
                    h
                }
                &&& forall|k: int|
                    0 <= k < p - 1 ==> final(self).st@[k] == if h != 0 && k == h && h < p - 1 {
                        st[h] - l
                    } else {
                        st[k] as int
                    }
                &&& forall|k: int| p - 1 <= k < o.s - l ==> final(self).st@[k] == st[k + l]
            },
    {
        if self.f > self.p {
            return Pc::Monitor(5);
        }
        let ghost quiet = old(self).end_quiet();
        let ghost ready = old(self).end_ready();
        let cur_p = self.p as i64;
        let s0 = self.s as i64;
        if cur_p <= 0 || s0 >= self.st.len() as i64 {
            return Pc::Monitor(11);
        }
        let calllen = match self.get(cur_p - 1) {
            Some(v) => v as i64,
            None => return Pc::Monitor(11),
        };
        let e0 = self.e;
        self.put(s0, e0);
        let limit = cur_p - 1 + calllen;
        let mut a: i64 = s0;
        loop
            invariant
                self.op_post(old(self), Pc::Start),
                self.output == old(self).output,
                old(self).f <= old(self).p,
                self.p == old(self).p,
                self.s == old(self).s,
                cur_p == self.p,
                s0 == self.s,
                0 <= a < self.st@.len(),
                0 <= s0 < self.st@.len(),
                Cell::MIN <= calllen <= Cell::MAX,
                calllen == old(self).st@[old(self).p - 1],
                limit == cur_p - 1 + calllen,
                e0 == old(self).e,
                self.h == old(self).h,
                self.e == old(self).e,
                quiet == old(self).end_quiet(),
                quiet ==> a == s0 && self.st@ == old(self).st@.update(s0 as int, e0),
                ready == old(self).end_ready(),
                ready ==> end_chain(self.st@, a as int, limit as int, calllen as int, cur_p - 1)
                    == old(self).end_store() && end_chain_ok(
                    self.st@,
                    a as int,
                    limit as int,
                    calllen as int,
                    cur_p - 1,
                ),
            ensures
                quiet ==> a == s0 && self.st@ == old(self).st@.update(s0 as int, e0),
                ready ==> self.st@[a as int] < limit && old(self).end_store() == self.st@.update(
                    a as int,
                    skip_inside(self.st@, self.st@[a as int] as int, cur_p - 1) as Cell,
                ) && skip_ok(self.st@, self.st@[a as int] as int, cur_p - 1),
                0 <= a < self.st@.len(),
                cur_p == old(self).p,
                s0 == old(self).s,
                calllen == old(self).st@[old(self).p - 1],
                e0 == old(self).e,
                self.p == old(self).p,
                self.s == old(self).s,
                self.h == old(self).h,
                self.e == old(self).e,
                self.op_post(old(self), Pc::Start),
                self.output == old(self).output,
            decreases a,
        {
            let link = match self.get(a) {
                Some(v) => v as i64,
                None => return Pc::Monitor(11),
            };
            if link < limit {
                break;
            }
            if link >= a || link < 0 {
                return Pc::Monitor(11);
            }
            match to_cell(link - calllen) {
                Some(v) => {
                    self.put(a, v);
                },
                None => return Pc::Monitor(11),
            }
            a = link;
        }
        let mut w: i64 = match self.get(a) {
            Some(v) => v as i64,
            None => return Pc::Monitor(11),
        };
        let ghost stc = self.st@;
        let ghost target = skip_inside(stc, w as int, cur_p - 1);
        while w > cur_p - 1
            invariant
                self.op_post(old(self), Pc::Start),
                self.output == old(self).output,
                old(self).f <= old(self).p,
                Cell::MIN <= w <= Cell::MAX,
                cur_p >= 1,
                cur_p == old(self).p,
                s0 == old(self).s,
                self.p == old(self).p,
                self.s == old(self).s,
                self.h == old(self).h,
                self.e == old(self).e,
                calllen == old(self).st@[old(self).p - 1],
                e0 == old(self).e,
                quiet == old(self).end_quiet(),
                quiet ==> a == s0 && w == e0 && self.st@ == old(self).st@.update(s0 as int, e0),
                self.st@ == stc,
                0 <= a < stc.len(),
                ready == old(self).end_ready(),
                ready ==> skip_ok(stc, w as int, cur_p - 1) && skip_inside(stc, w as int, cur_p - 1)
                    == target && old(self).end_store() == stc.update(a as int, target as Cell),
            decreases w - Cell::MIN,
        {
            let next = match self.get(w) {
                Some(v) => v as i64,
                None => return Pc::Monitor(11),
            };
            if next >= w {
                return Pc::Monitor(11);
            }
            w = next;
        }
        self.put(a, w as Cell);
        self.e = match self.get(s0) {
            Some(v) => v,
            None => return Pc::Monitor(11),
        };
        if self.h != 0 {
            if self.h as i64 > cur_p {
                match to_cell(self.h as i64 - calllen) {
                    Some(v) => {
                        self.h = v;
                    },
                    None => return Pc::Monitor(11),
                }
            } else {
                let h = self.h as i64;
                let cur = match self.get(h) {
                    Some(v) => v,
                    None => return Pc::Monitor(11),
                };
                match to_cell(cur as i64 - calllen) {
                    Some(v) => {
                        self.put(h, v);
                    },
                    None => return Pc::Monitor(11),
                }
            }
        }
        let new_p = match self.get(cur_p) {
            Some(v) => v,
            None => return Pc::Monitor(11),
        };
        let new_c = match self.get(cur_p + 1) {
            Some(v) => v,
            None => return Pc::Monitor(11),
        };
        let new_s = s0 - calllen;
        let mut a2: i64 = cur_p - 1;
        if new_s < 0 || new_s > self.st.len() as i64 || a2 > new_s {
            return Pc::Monitor(11);
        }
        let ghost mid = self.st@;
        let ghost h1 = self.h;
        let ghost e1 = self.e;
        self.p = new_p;
        self.c = new_c;
        self.s = new_s as Cell;
        while a2 < new_s
            invariant
                self.op_post(old(self), Pc::Start),
                self.output == old(self).output,
                old(self).f <= old(self).p,
                0 <= a2 <= new_s <= self.st@.len(),
                new_s == self.s,
                Cell::MIN <= calllen <= Cell::MAX,
                mid.len() == self.st@.len(),
                self.p == new_p,
                self.c == new_c,
                self.h == h1,
                self.e == e1,
                cur_p - 1 <= a2,
                cur_p >= 1,
                new_s == s0 - calllen,
                s0 < mid.len(),
                quiet == old(self).end_quiet(),
                ready == old(self).end_ready(),
                quiet || ready ==> 0 <= calllen,
                ready ==> {
                    let o = old(self);
                    &&& mid == o.end_store_adjusted()
                    &&& new_p == mid[o.p as int]
                    &&& new_c == mid[o.p + 1]
                    &&& e1 == o.end_store()[o.s as int]
                    &&& h1 == if o.h > o.p {
                        o.h - calllen
                    } else {
                        o.h as int
                    }
                    &&& calllen == o.st@[o.p - 1]
                    &&& cur_p == o.p
                    &&& s0 == o.s
                },
                quiet ==> {
                    let o = old(self);
                    let h = o.h as int;
                    &&& calllen == o.st@[o.p - 1]
                    &&& cur_p == o.p
                    &&& s0 == o.s
                    &&& forall|j: int|
                        0 <= j < mid.len() && j != s0 && (h == 0 || h > o.p || j != h) ==> mid[j]
                            == o.st@[j]
                    &&& h != 0 && h < o.p - 1 ==> mid[h] == o.st@[h] - calllen
                    &&& new_p == o.st@[o.p as int]
                    &&& new_c == o.st@[o.p + 1]
                    &&& e1 == o.e
                    &&& h1 == if h > o.p {
                        h - calllen
                    } else {
                        h
                    }
                },
                quiet || ready ==> forall|k: int|
                    cur_p - 1 <= k < a2 ==> self.st@[k] == mid[k + calllen],
                forall|k: int|
                    0 <= k < mid.len() && !(cur_p - 1 <= k < a2) ==> self.st@[k] == mid[k],
            decreases new_s - a2,
        {
            let v = match self.get(a2 + calllen) {
                Some(v) => v,
                None => return Pc::Monitor(11),
            };
            proof {
                if quiet || ready {
                    assert(v == mid[a2 + calllen]);
                }
            }
            let ghost before = self.st@;
            self.put(a2, v);
            proof {
                if quiet || ready {
                    assert forall|k: int| cur_p - 1 <= k < a2 + 1 implies self.st@[k] == mid[k
                        + calllen] by {
                        if k < a2 {
                            assert(self.st@[k] == before[k]);
                        }
                    }
                }
            }
            a2 = a2 + 1;
        }
        proof {
            if quiet {
                let o = old(self);
                let st = o.st@;
                let p = o.p as int;
                let l = st[p - 1];
                assert(self.p == st[p]);
                assert(self.c == st[p + 1]);
                assert(self.s == o.s - l);
                assert(self.e == o.e);
                assert forall|k: int| p - 1 <= k < o.s - l implies self.st@[k] == st[k + l] by {
                    assert(self.st@[k] == mid[k + l]);
                }
                let h = o.h as int;
                assert(self.h == if h > p {
                    h - l
                } else {
                    h
                });
                assert forall|k: int| 0 <= k < p - 1 implies self.st@[k] == if h != 0 && k == h
                    && h < p - 1 {
                    st[h] - l
                } else {
                    st[k] as int
                } by {
                    assert(self.st@[k] == mid[k]);
                }
            }
        }
        Pc::Start
    }

}

} // verus!
