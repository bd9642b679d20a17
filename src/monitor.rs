//! Diagnostics: the monitors, and the messages and items they write.
use vstd::prelude::*;
use crate::control_chars::Cell;
use crate::pc::Pc;
use crate::macros::{decimal_cells, decimal_digits};
use crate::vm::{symbol_of, GpmVm, MARKER};
use vstd::string::*;

verus! {

/// The message that starts the diagnostic for an undefined name.
pub const UNDEFINED_NAME: &'static str = "*nMONITOR: Undefined name ";

/// A diagnostic message, as written by `write_text`.
pub const SEMICOLON_IN_DEFINITION: &'static str = "*nMONITOR: Unmatched semicolon in definition of ";

/// A diagnostic message, as written by `write_text`.
pub const IF_QUOTED: &'static str = "*nIf this had been quoted the result would be *n";

/// A diagnostic message, as written by `write_text`.
pub const TILDE_IN_ARGUMENTS: &'static str = "*nMONITOR: Unquoted tilde in argument list of ";

/// A diagnostic message, as written by `write_text`.
pub const IMPOSSIBLE_ARGUMENT: &'static str = "*nMONITOR:*tImpossible argument number in definition of ";

/// A diagnostic message, as written by `write_text`.
pub const NO_ARGUMENT: &'static str = "*nMONITOR: No argument ";

/// A diagnostic message, as written by `write_text`.
pub const IN_CALL_FOR: &'static str = "*n in call for ";

/// A diagnostic message, as written by `write_text`.
pub const TERMINATOR_IN: &'static str = "*nMONITOR: Terminator in ";

/// A diagnostic message, as written by `write_text`.
pub const IN_INPUT_STREAM: &'static str = "input stream. Probably machine error.";

/// A diagnostic message, as written by `write_text`.
pub const IN_ARGUMENT_LIST: &'static str = "argument list for ";

/// A diagnostic message, as written by `write_text`.
pub const SEMICOLON_MISSING: &'static str = "*nProbably due to a semicolon missing from the definition of ";

/// A diagnostic message, as written by `write_text`.
pub const IF_SEMICOLON_ADDED: &'static str = "*nIf a final semicolon is added the result is *n";

/// A diagnostic message, as written by `write_text`.
pub const UNMATCHED_CLOSE: &'static str = "*nMONITOR: Unmatched >. Probably machine error. ";

/// A diagnostic message, as written by `write_text`.
pub const UPDATE_TOO_LONG: &'static str = "*nMONITOR: Update argument too long for ";

/// A diagnostic message, as written by `write_text`.
pub const NON_DIGIT: &'static str = "*nMONITOR: Non-digit in number ";

/// A diagnostic message, as written by `write_text`.
pub const CURRENT_MACROS: &'static str = "*nCurrent macros are ";

/// A diagnostic message, as written by `write_text`.
pub const ALREADY_ENTERED: &'static str = "*nAlready entered ";

/// A diagnostic message, as written by `write_text`.
pub const NOT_YET_ENTERED: &'static str = "*nNot yet entered ";

/// A diagnostic message, as written by `write_text`.
pub const ARG_LABEL: &'static str = "*nArg ";

/// A diagnostic message, as written by `write_text`.
pub const ARG_TAB: &'static str = ",*t";

/// A diagnostic message, as written by `write_text`.
pub const END_OF_DUMP: &'static str = "*nEnd of monitor printing";

/// The rows Monitor 11 writes for one call, from the item at `w1`, row
/// `r` of at most `limit`: each item, then, unless only one row is listed,
/// the next row's number; the listing stops at an empty item or a marker.
pub open spec fn dump_rows(st: Seq<Cell>, s: int, w1: int, r: nat, limit: nat) -> Seq<char>
    decreases limit + 1 - r,
{
    if r > limit {
        Seq::empty()
    } else {
        let here = item_text(st, s, w1);
        let v = if 0 <= w1 < st.len() {
            st[w1] as int
        } else {
            0
        };
        if v == 0 || !(Cell::MIN * 3 <= w1 <= Cell::MAX * 3) {
            here
        } else if 0 <= w1 + v < st.len() && st[w1 + v] == MARKER {
            here
        } else {
            here + (if limit != 1 {
                expand(ARG_LABEL@) + decimal_cells(r).map_values(|c: Cell| symbol_of(c)) + expand(
                    ARG_TAB@,
                )
            } else {
                Seq::empty()
            }) + dump_rows(st, s, w1 + v, r + 1, limit)
        }
    }
}

/// The link that Monitor 11 follows from a frame at `x`: the saved frame
/// pointer, where it points further down, else 0.
pub open spec fn dump_next(st: Seq<Cell>, x: int) -> int {
    let v = if 0 <= x < st.len() {
        st[x] as int
    } else {
        0
    };
    if 0 <= v < x {
        v
    } else {
        0
    }
}

/// What Monitor 11 lists for the calls from `p` (entered) and `f` (being
/// built): the higher of the two first, with up to `limit` rows, then each
/// further call with one row.
pub open spec fn dump_frames(st: Seq<Cell>, s: int, p: int, f: int, limit: nat) -> Seq<char>
    decreases p + f,
{
    if p < 0 || f < 0 || (p == 0 && f == 0) {
        Seq::empty()
    } else if p > f {
        expand(ALREADY_ENTERED@) + dump_rows(st, s, p + 2, 1, limit) + dump_frames(
            st,
            s,
            dump_next(st, p),
            f,
            1,
        )
    } else {
        expand(NOT_YET_ENTERED@) + dump_rows(st, s, f + 2, 1, limit) + dump_frames(
            st,
            s,
            p,
            dump_next(st, f),
            1,
        )
    }
}

/// Written by Item for a pointer outside the store.
pub const BAD_POINTER: &'static str = "*n(Item: bad pointer)";

/// Written by Item after an item that is still being built.
pub const INCOMPLETE: &'static str = "...*t(Incomplete)";

/// Where the cells that Item writes for the item at `x` end: after its
/// length less one cells, or up to the stack top for an item still being
/// built, and never past the store.
pub open spec fn item_end(st: Seq<Cell>, s: int, x: int) -> int {
    let end = if st[x] == 0 {
        s - x - 1
    } else {
        st[x] - 1
    };
    let e = x + 1 + if end < 0 {
        0
    } else {
        end
    };
    if e > st.len() {
        st.len() as int
    } else {
        e
    }
}

/// What Item writes for the item at `x`.
pub open spec fn item_text(st: Seq<Cell>, s: int, x: int) -> Seq<char> {
    if !(0 <= x < st.len()) {
        expand(BAD_POINTER@)
    } else {
        st.subrange(x + 1, item_end(st, s, x)).map_values(|c: Cell| symbol_of(c)) + if st[x] == 0 {
            expand(INCOMPLETE@)
        } else {
            Seq::empty()
        }
    }
}

/// The character that `*` and `c` stand for in a message.
pub open spec fn escape(c: char) -> char {
    if c == 'n' {
        '\n'
    } else if c == 't' {
        '\t'
    } else {
        ' '
    }
}

/// A message as written: `*n`, `*t` and `*s` become a newline, a tab and a
/// space; any other character stands for itself.
pub open spec fn expand(t: Seq<char>) -> Seq<char>
    decreases t.len(),
{
    if t.len() == 0 {
        Seq::empty()
    } else if t[0] == '*' && t.len() >= 2 && (t[1] == 'n' || t[1] == 't' || t[1] == 's') {
        seq![escape(t[1])] + expand(t.subrange(2, t.len() as int))
    } else {
        seq![t[0]] + expand(t.subrange(1, t.len() as int))
    }
}
impl GpmVm {
    /// Writes a message to the output, `*n`, `*t` and `*s` standing for a
    /// newline, a tab and a space.
    pub(crate) fn write_text(&mut self, text: &str)
        requires
            old(self).core_wf(),
        ensures
            final(self).frame(old(self)),
            final(self).st == old(self).st,
            final(self).regs_same(old(self)),
            final(self).output@ == old(self).output@ + expand(text@),
            old(self).output@.is_prefix_of(final(self).output@),
    {
        let n = text.unicode_len();
        let mut i: usize = 0;
        assert(text@.subrange(0, n as int) =~= text@);
        while i < n
            invariant
                self.frame(old(self)),
                self.st == old(self).st,
                self.regs_same(old(self)),
                n == text@.len(),
                0 <= i <= n,
                old(self).output@ + expand(text@) == self.output@ + expand(
                    text@.subrange(i as int, n as int),
                ),
            decreases n - i,
        {
            let ghost rest = text@.subrange(i as int, n as int);
            let ch = text.get_char(i);
            let mut out = ch;
            let mut used: usize = 1;
            if ch == '*' && i + 1 < n {
                let next = text.get_char(i + 1);
                if next == 'n' {
                    out = '\n';
                    used = 2;
                } else if next == 't' {
                    out = '\t';
                    used = 2;
                } else if next == 's' {
                    out = ' ';
                    used = 2;
                }
            }
            proof {
                assert(rest[0] == ch);
                if rest.len() >= 2 {
                    assert(rest[1] == text@[i + 1]);
                }
                assert(rest.subrange(used as int, rest.len() as int) =~= text@.subrange(
                    i + used,
                    n as int,
                ));
            }
            self.output.push(out);
            i = i + used;
            assert(self.output@ + expand(text@.subrange(i as int, n as int)) =~= old(
                self,
            ).output@ + expand(text@));
        }
    }

    /// Writes the decimal digits of `n`.
    pub(crate) fn write_number(&mut self, n: u32)
        requires
            old(self).core_wf(),
        ensures
            old(self).output@.is_prefix_of(final(self).output@),
            final(self).output@ == old(self).output@ + decimal_cells(n as nat).map_values(
                |c: Cell| symbol_of(c),
            ),
            final(self).frame(old(self)),
            final(self).st == old(self).st,
            final(self).regs_same(old(self)),
    {
        let digits = decimal_digits(n);
        let ghost text = digits@.reverse();
        let mut k: usize = digits.len();
        assert(text.subrange(0, 0).map_values(|c: Cell| symbol_of(c)) =~= Seq::<char>::empty());
        assert(old(self).output@ + Seq::<char>::empty() =~= old(self).output@);
        while k > 0
            invariant
                self.frame(old(self)),
                self.st == old(self).st,
                self.regs_same(old(self)),
                0 <= k <= digits@.len(),
                text == digits@.reverse(),
                self.output@ == old(self).output@ + text.subrange(0, digits@.len() - k).map_values(
                    |c: Cell| symbol_of(c),
                ),
            decreases k,
        {
            let x = digits[k - 1];
            self.write_symbol(x);
            assert(text[digits@.len() - k] == x);
            assert(text.subrange(0, digits@.len() - k + 1).map_values(|c: Cell| symbol_of(c))
                =~= text.subrange(0, digits@.len() - k).map_values(|c: Cell| symbol_of(c)).push(
                symbol_of(x),
            ));
            k = k - 1;
        }
        assert(text.subrange(0, digits@.len() as int) =~= text);
        assert(self.output@.subrange(0, old(self).output@.len() as int) =~= old(self).output@);
    }

    /// Item: writes the characters of the item at `x` to the output; an item
    /// still open is written up to the stack top and marked incomplete.
    pub(crate) fn item(&mut self, x: i64)
        requires
            old(self).core_wf(),
        ensures
            old(self).output@.is_prefix_of(final(self).output@),
            final(self).output@ == old(self).output@ + item_text(
                old(self).st@,
                old(self).s as int,
                x as int,
            ),
            final(self).frame(old(self)),
            final(self).st == old(self).st,
            final(self).regs_same(old(self)),
    {
        let a0 = self.a;
        let h0 = self.h;
        self.h = 0;
        let stx = match self.get(x) {
            Some(v) => v as i64,
            None => {
                self.write_text(BAD_POINTER);
                self.a = a0;
                self.h = h0;
                return;
            },
        };
        let end = if stx == 0 {
            self.s as i64 - x - 1
        } else {
            stx - 1
        };
        let ghost st = self.st@;
        let ghost out0 = self.output@;
        let mut k: i64 = 1;
        assert(st.subrange(x + 1, x + 1).map_values(|c: Cell| symbol_of(c)) =~= Seq::<char>::empty());
        while k <= end && x + k < self.st.len() as i64
            invariant
                self.frame(old(self)),
                self.st == old(self).st,
                st == old(self).st@,
                out0 == old(self).output@,
                self.h == 0,
                old(self).output@.is_prefix_of(self.output@),
                self.w == old(self).w && self.p == old(self).p && self.f == old(self).f
                    && self.c == old(self).c && self.s == old(self).s && self.e == old(self).e,
                1 <= k,
                k <= end + 1 || k == 1,
                x + k <= st.len(),
                0 <= x < st.len(),
                end <= Cell::MAX,
                end == (if st[x as int] == 0 {
                    self.s - x - 1
                } else {
                    st[x as int] - 1
                }),
                self.output@ == out0 + st.subrange(x + 1, x + k).map_values(|c: Cell| symbol_of(c)),
            decreases end + 1 - k,
        {
            let v = self.st[(x + k) as usize];
            self.a = v;
            self.load();
            assert(st.subrange(x + 1, x + k + 1).map_values(|c: Cell| symbol_of(c)) =~= st.subrange(
                x + 1,
                x + k,
            ).map_values(|c: Cell| symbol_of(c)).push(symbol_of(v)));
            k = k + 1;
        }
        assert(x + k == item_end(st, self.s as int, x as int));
        if stx == 0 {
            self.write_text(INCOMPLETE);
        }
        self.a = a0;
        self.h = h0;
    }

    /// The text that diagnostic `n` writes, from one to ten.
    pub(crate) open spec fn monitor_text(&self, n: u8) -> Seq<char> {
        let st = self.st@;
        let s = self.s as int;
        if n == 1 {
            expand(SEMICOLON_IN_DEFINITION@) + item_text(st, s, self.p + 2) + expand(IF_QUOTED@)
        } else if n == 2 {
            expand(TILDE_IN_ARGUMENTS@) + item_text(st, s, self.f + 2) + expand(IF_QUOTED@)
        } else if n == 3 {
            expand(IMPOSSIBLE_ARGUMENT@) + item_text(st, s, self.p + 2)
        } else if n == 4 {
            expand(NO_ARGUMENT@) + seq![symbol_of(self.a)] + expand(IN_CALL_FOR@) + item_text(
                st,
                s,
                self.p + 2,
            )
        } else if n == 5 && self.c == 0 {
            expand(TERMINATOR_IN@) + expand(IN_INPUT_STREAM@)
        } else if n == 5 {
            expand(TERMINATOR_IN@) + expand(IN_ARGUMENT_LIST@) + item_text(st, s, self.f + 2)
                + expand(SEMICOLON_MISSING@) + item_text(st, s, self.p + 2) + expand(
                IF_SEMICOLON_ADDED@,
            )
        } else if n == 7 {
            expand(UNDEFINED_NAME@) + item_text(st, s, self.w as int)
        } else if n == 8 {
            expand(UNMATCHED_CLOSE@)
        } else if n == 9 {
            expand(UPDATE_TOO_LONG@) + item_text(st, s, self.p + 9)
        } else {
            expand(NON_DIGIT@)
        }
    }

    /// Monitor: writes the diagnostic numbered `n` and picks the label to
    /// go on with. Number 11 lists the calls in progress, unwinding them.
    #[verifier::rlimit(80)]
    pub(crate) fn monitor(&mut self, n: u8) -> (r: Pc)
        requires
            old(self).core_wf(),
        ensures
            final(self).op_post(old(self), r),
            n == 1 || n == 2 ==> r == Pc::Copy,
            n == 3 || n == 4 || n == 8 || n == 9 || n == 10 ==> r == Pc::Monitor(11),
            n == 5 ==> r == if old(self).c != 0 && old(self).c != Cell::MIN {
                Pc::Apply
            } else {
                Pc::Monitor(11)
            },
            n == 5 && r == Pc::Apply ==> final(self).c == old(self).c - 1,
            n == 4 || n == 5 ==> {
                &&& final(self).s == old(self).s
                &&& final(self).e == old(self).e
                &&& final(self).p == old(self).p
                &&& final(self).f == old(self).f
                &&& final(self).a == old(self).a
                &&& final(self).w == old(self).w
                &&& final(self).h == if n == 4 {
                    0
                } else {
                    old(self).h
                }
                &&& n == 4 || r != Pc::Apply ==> final(self).c == old(self).c
            },
            !(1 <= n <= 5 || 7 <= n <= 10) ==> {
                &&& r == Pc::Start
                &&& final(self).p == 0
                &&& final(self).f == 0
            },
            n == 7 ==> r == Pc::Monitor(11) && (old(self).output@ + expand(
                UNDEFINED_NAME@,
            )).is_prefix_of(final(self).output@),
            n == 11 ==> r == Pc::Start && final(self).h == 0 && final(self).c == 0,
            1 <= n <= 10 && n != 6 ==> {
                &&& final(self).output@ == old(self).output@ + old(self).monitor_text(n)
                &&& final(self).st == old(self).st
                &&& n != 4 && n != 5 ==> final(self).regs_same(old(self))
            },
            !(1 <= n <= 5 || 7 <= n <= 10) ==> (old(self).output@ + expand(
                CURRENT_MACROS@,
            )).is_prefix_of(final(self).output@),
    {
        if n == 1 {
            self.write_text(SEMICOLON_IN_DEFINITION);
            self.item(self.p as i64 + 2);
            self.write_text(IF_QUOTED);
            Pc::Copy
        } else if n == 2 {
            self.write_text(TILDE_IN_ARGUMENTS);
            self.item(self.f as i64 + 2);
            self.write_text(IF_QUOTED);
            Pc::Copy
        } else if n == 3 {
            self.write_text(IMPOSSIBLE_ARGUMENT);
            self.item(self.p as i64 + 2);
            Pc::Monitor(11)
        } else if n == 4 {
            self.write_text(NO_ARGUMENT);
            self.h = 0;
            self.load();
            self.write_text(IN_CALL_FOR);
            self.item(self.p as i64 + 2);
            Pc::Monitor(11)
        } else if n == 5 {
            self.write_text(TERMINATOR_IN);
            if self.c == 0 {
                self.write_text(IN_INPUT_STREAM);
                Pc::Monitor(11)
            } else {
                self.write_text(IN_ARGUMENT_LIST);
                self.item(self.f as i64 + 2);
                self.write_text(SEMICOLON_MISSING);
                self.item(self.p as i64 + 2);
                self.write_text(IF_SEMICOLON_ADDED);
                if self.c == Cell::MIN {
                    return Pc::Monitor(11);
                }
                self.c = self.c - 1;
                Pc::Apply
            }
        } else if n == 7 {
            let ghost before = self.output@;
            self.write_text(UNDEFINED_NAME);
            let ghost mid = self.output@;
            self.item(self.w as i64);
            assert(mid.is_prefix_of(self.output@));
            Pc::Monitor(11)
        } else if n == 8 {
            self.write_text(UNMATCHED_CLOSE);
            Pc::Monitor(11)
        } else if n == 9 {
            self.write_text(UPDATE_TOO_LONG);
            self.item(self.p as i64 + 9);
            Pc::Monitor(11)
        } else if n == 10 {
            self.write_text(NON_DIGIT);
            Pc::Monitor(11)
        } else {
            self.dump_calls()
        }
    }

    /// The general monitor: lists the calls in progress, those entered and
    /// those still being built, with their arguments, unwinding them all;
    /// then reading goes on from the input at the top level.
    pub(crate) fn dump_calls(&mut self) -> (r: Pc)
        requires
            old(self).core_wf(),
        ensures
            final(self).op_post(old(self), r),
            r == Pc::Start,
            final(self).p == 0 && final(self).f == 0 && final(self).h == 0 && final(self).c == 0,
            (old(self).output@ + expand(CURRENT_MACROS@)).is_prefix_of(final(self).output@),
            final(self).output@ == old(self).output@ + expand(CURRENT_MACROS@) + dump_frames(
                old(self).st@,
                old(self).s as int,
                if old(self).p < 0 {
                    0
                } else {
                    old(self).p as int
                },
                if old(self).f < 0 {
                    0
                } else {
                    old(self).f as int
                },
                20,
            ) + expand(END_OF_DUMP@) + if old(self).h == 0 {
                seq![symbol_of('Q' as Cell)]
            } else {
                Seq::empty()
            },
    {
        let ghost st = self.st@;
        let ghost s0 = self.s as int;
        let mut limit: u32 = 20;
        self.write_text(CURRENT_MACROS);
        if self.p < 0 {
            self.p = 0;
        }
        if self.f < 0 {
            self.f = 0;
        }
        let ghost target = self.output@ + dump_frames(st, s0, self.p as int, self.f as int, 20);
        while !(self.p == 0 && self.f == 0)
            invariant
                self.op_post(old(self), Pc::Start),
                self.st@ == st,
                self.s == s0,
                self.h == old(self).h,
                self.p >= 0,
                self.f >= 0,
                1 <= limit <= 20,
                self.output@ + dump_frames(st, s0, self.p as int, self.f as int, limit as nat)
                    == target,
            decreases self.p + self.f,
        {
            let mut w1: i64;
            let ghost out0 = self.output@;
            let ghost p0 = self.p as int;
            let ghost f0 = self.f as int;
            if self.p > self.f {
                w1 = self.p as i64 + 2;
                let next = match self.get(self.p as i64) {
                    Some(v) => v,
                    None => 0,
                };
                self.p = if 0 <= next && next < self.p {
                    next
                } else {
                    0
                };
                self.write_text(ALREADY_ENTERED);
            } else {
                w1 = self.f as i64 + 2;
                let next = match self.get(self.f as i64) {
                    Some(v) => v,
                    None => 0,
                };
                self.f = if 0 <= next && next < self.f {
                    next
                } else {
                    0
                };
                self.write_text(NOT_YET_ENTERED);
            }
            let ghost rows = dump_rows(st, s0, w1 as int, 1, limit as nat);
            let ghost frame_end = self.output@ + rows;
            assert(out0 + dump_frames(st, s0, p0, f0, limit as nat) =~= frame_end + dump_frames(
                st,
                s0,
                self.p as int,
                self.f as int,
                1,
            ));
            let mut r: u32 = 1;
            let ghost p1 = self.p;
            let ghost f1 = self.f;
            while r <= limit
                invariant_except_break
                    self.output@ + dump_rows(st, s0, w1 as int, r as nat, limit as nat)
                        == frame_end,
                invariant
                    self.op_post(old(self), Pc::Start),
                    self.st@ == st,
                    self.s == s0,
                    self.h == old(self).h,
                    self.p == p1,
                    self.f == f1,
                    1 <= r <= 21,
                    1 <= limit <= 20,
                    Cell::MIN as i64 * 4 <= w1 <= Cell::MAX as i64 * 4,
                    self.p >= 0,
                    self.f >= 0,
                ensures
                    self.output@ == frame_end,
                decreases limit + 1 - r,
            {
                self.item(w1);
                let here = match self.get(w1) {
                    Some(v) => v,
                    None => 0,
                };
                if here == 0 {
                    break;
                }
                if Cell::MIN as i64 * 3 <= w1 && w1 <= Cell::MAX as i64 * 3 {
                    w1 = w1 + here as i64;
                } else {
                    break;
                }
                if let Some(v) = self.get(w1) {
                    if v == MARKER {
                        break;
                    }
                }
                if limit != 1 {
                    self.write_text(ARG_LABEL);
                    self.write_number(r);
                    self.write_text(ARG_TAB);
                }
                r = r + 1;
            }
            limit = 1;
        }
        assert(dump_frames(st, s0, 0, 0, limit as nat) =~= Seq::<char>::empty());
        self.write_text(END_OF_DUMP);
        self.a = 'Q' as Cell;
        self.load();
        self.h = 0;
        self.c = 0;
        Pc::Start
    }

}

} // verus!
