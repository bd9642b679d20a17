//! The machine macros: definitions, values, updates and arithmetic.
use vstd::prelude::*;
use crate::control_chars::Cell;
use crate::pc::Pc;
use crate::actions::number;
use crate::actions::{chain_wf, lookup, names_entry};
use crate::vm::{symbol_of, to_cell, GpmVm, MARKER};
use vstd::math::abs;

verus! {

/// A cell holding a decimal digit.
pub open spec fn is_digit(x: Cell) -> bool {
    '0' as Cell <= x <= '9' as Cell
}

/// The first marker at or after `i` (the end of the store where there is none).
pub open spec fn first_marker(st: Seq<Cell>, i: int) -> int
    decreases st.len() - i,
{
    if i < 0 || i >= st.len() || st[i] == MARKER {
        i
    } else {
        first_marker(st, i + 1)
    }
}

/// The first marker from `i` on lies at or after `i`.
proof fn lemma_first_marker(st: Seq<Cell>, i: int)
    requires
        0 <= i,
    ensures
        i <= first_marker(st, i),
    decreases st.len() - i,
{
    if i < st.len() && st[i] != MARKER {
        lemma_first_marker(st, i + 1);
    }
}

/// Where the digits of a number whose first cell is at `i` begin: after a sign, if any.
pub open spec fn number_start(st: Seq<Cell>, i: int) -> int {
    if st[i] == '+' as Cell || st[i] == '-' as Cell {
        i + 1
    } else {
        i
    }
}

/// The first cell from `a` on that is not a digit (the end of the store
/// where there is none).
pub open spec fn first_stop(st: Seq<Cell>, a: int) -> int
    decreases st.len() - a,
{
    if a < 0 || a >= st.len() || !is_digit(st[a]) {
        a
    } else {
        first_stop(st, a + 1)
    }
}

/// Every cell from `a` up to the first that is not a digit is a digit.
proof fn lemma_first_stop_digits(st: Seq<Cell>, a: int)
    requires
        0 <= a,
    ensures
        a <= first_stop(st, a),
        forall|k: int| a <= k < first_stop(st, a) ==> is_digit(#[trigger] st[k]),
    decreases st.len() - a,
{
    if a < st.len() && is_digit(st[a]) {
        lemma_first_stop_digits(st, a + 1);
    }
}

/// A run of digits is worth at least each of its prefixes, and nothing negative.
proof fn lemma_digits_prefix(s: Seq<Cell>, i: int)
    requires
        0 <= i <= s.len(),
        forall|k: int| 0 <= k < s.len() ==> is_digit(#[trigger] s[k]),
    ensures
        0 <= digits_value(s.subrange(0, i)) <= digits_value(s),
    decreases s.len(),
{
    if i == s.len() {
        assert(s.subrange(0, i) =~= s);
        if s.len() > 0 {
            lemma_digits_prefix(s.drop_last(), i - 1);
            assert(s.drop_last().subrange(0, i - 1) =~= s.drop_last());
        }
    } else {
        let d = s.drop_last();
        lemma_digits_prefix(d, i);
        assert(d.subrange(0, i) =~= s.subrange(0, i));
        lemma_digits_prefix(d, d.len() as int);
        assert(d.subrange(0, d.len() as int) =~= d);
    }
}

/// The value of a run of digit cells, most significant first.
pub open spec fn digits_value(s: Seq<Cell>) -> int
    decreases s.len(),
{
    if s.len() == 0 {
        0
    } else {
        10 * digits_value(s.drop_last()) + (s.last() - '0' as Cell)
    }
}

/// The decimal digits of `n` as cells, most significant first.
pub open spec fn decimal_cells(n: nat) -> Seq<Cell>
    decreases n,
{
    if n < 10 {
        seq![('0' as int + n) as Cell]
    } else {
        decimal_cells(n / 10).push(('0' as int + n % 10) as Cell)
    }
}

/// `v` in decimal as cells, with a minus sign where it is negative.
pub open spec fn decimal_text(v: int) -> Seq<Cell> {
    if v < 0 {
        seq!['-' as Cell] + decimal_cells((-v) as nat)
    } else {
        decimal_cells(v as nat)
    }
}

/// What DEC writes for a number, BIN reads back as that number: the cells
/// are all digits and their value is `n`.
pub proof fn lemma_decimal_round_trip(n: nat)
    ensures
        forall|k: int|
            0 <= k < decimal_cells(n).len() ==> is_digit(#[trigger] decimal_cells(n)[k]),
        digits_value(decimal_cells(n)) == n,
    decreases n,
{
    if n >= 10 {
        lemma_decimal_round_trip(n / 10);
        let s = decimal_cells(n);
        assert(s.drop_last() =~= decimal_cells(n / 10));
        assert(s.last() as int == 48 + n % 10);
        assert(digits_value(s) == 10 * digits_value(s.drop_last()) + (s.last() - '0' as Cell));
        assert(n == 10 * (n / 10) + n % 10);
    } else {
        let s = decimal_cells(n);
        assert(s.drop_last() =~= Seq::<Cell>::empty());
        assert(s.last() as int == 48 + n);
        assert(digits_value(Seq::<Cell>::empty()) == 0);
        assert(digits_value(s) == 10 * digits_value(s.drop_last()) + (s.last() - '0' as Cell));
    }
}

/// The decimal digits of `n` as cells, least significant first.
pub(crate) fn decimal_digits(n: u32) -> (r: Vec<Cell>)
    ensures
        r@.reverse() == decimal_cells(n as nat),
{
    let mut digits: Vec<Cell> = Vec::new();
    let mut v: u32 = n;
    loop
        invariant_except_break
            v <= n,
            decimal_cells(n as nat) == decimal_cells(v as nat) + digits@.reverse(),
        ensures
            decimal_cells(n as nat) == digits@.reverse(),
        decreases v,
    {
        let d = (48 + v % 10) as Cell;
        proof {
            if v >= 10 {
                assert(decimal_cells(v as nat) == decimal_cells((v / 10) as nat).push(d));
            } else {
                assert(decimal_cells(v as nat) == seq![d]);
            }
        }
        let ghost before = digits@;
        digits.push(d);
        assert(digits@.reverse() =~= seq![d] + before.reverse());
        if v < 10 {
            assert(decimal_cells(n as nat) =~= digits@.reverse());
            break;
        }
        v = v / 10;
        assert(decimal_cells(n as nat) =~= decimal_cells(v as nat) + digits@.reverse());
    }
    digits
}

/// Quotient of `x` by `y`, rounded toward zero.
pub open spec fn trunc_div(x: int, y: int) -> int {
    let q: int = abs(x) as int / abs(y) as int;
    if (x < 0) != (y < 0) {
        -q
    } else {
        q
    }
}

/// The result of BAR on operator cell `op` and operands `x`, `y`: sum,
/// difference, product, quotient or remainder, both rounded toward zero;
/// `None` for an unknown operator or a zero divisor, or where the result
/// does not fit in a cell.
pub open spec fn bar_value(op: Cell, x: int, y: int) -> Option<int> {
    let v = if op == '+' as Cell {
        Some(x + y)
    } else if op == '-' as Cell {
        Some(x - y)
    } else if op == 'x' as Cell {
        Some(x * y)
    } else if op == '/' as Cell && y != 0 {
        Some(trunc_div(x, y))
    } else if op == 'R' as Cell && y != 0 {
        Some(x - y * trunc_div(x, y))
    } else {
        None
    };
    match v {
        Some(n) => if Cell::MIN <= n <= Cell::MAX {
            Some(n)
        } else {
            None
        },
        None => None,
    }
}
impl GpmVm {
    /// DEF: turns the current call into an entry of the definitions' chain;
    /// six cells of the frame are reclaimed on return, the rest stays.
    pub(crate) fn op_def(&mut self) -> (r: Pc)
        requires
            old(self).core_wf(),
        ensures
            final(self).op_post(old(self), r),
            final(self).output == old(self).output,
            r == Pc::EndFn ==> final(self).e == old(self).p + 5 && final(self).st@[old(self).p
                + 5] == old(self).e && final(self).st@[old(self).p - 1] == 6,
            r == Pc::EndFn || r == Pc::Monitor(11),
            ({
                let st = old(self).st@;
                let p = old(self).p as int;
                let h = old(self).h as int;
                &&& 1 <= p
                &&& p + 5 < st.len()
                &&& h == 0 || (0 <= h < st.len() && Cell::MIN <= st[h] - st[p - 1] + 6 <= Cell::MAX)
            }) ==> r == Pc::EndFn,
            r == Pc::EndFn && old(self).h != 0 && old(self).h != old(self).p - 1 && old(self).h
                != old(self).p + 5 ==> final(self).st@[old(self).h as int] == old(self).st@[old(
                self,
            ).h as int] - old(self).st@[old(self).p - 1] + 6,
            r == Pc::EndFn ==> final(self).regs_same_but_e(old(self)),
            forall|j: int|
                0 <= j < old(self).st@.len() && j != old(self).p - 1 && j != old(self).p + 5 && j
                    != old(self).h ==> final(self).st@[j] == old(self).st@[j],
    {
        let cur_p = self.p as i64;
        let e0 = self.e;
        if cur_p <= 0 || cur_p + 5 >= self.st.len() as i64 {
            return Pc::Monitor(11);
        }
        if self.h != 0 {
            let h = self.h as i64;
            let cur = match self.get(h) {
                Some(v) => v,
                None => return Pc::Monitor(11),
            };
            let used = match self.get(cur_p - 1) {
                Some(v) => v,
                None => return Pc::Monitor(11),
            };
            match to_cell(cur as i64 - used as i64 + 6) {
                Some(v) => {
                    self.put(h, v);
                },
                None => return Pc::Monitor(11),
            }
        }
        self.put(cur_p - 1, 6);
        self.put(cur_p + 5, e0);
        self.e = (cur_p + 5) as Cell;
        Pc::EndFn
    }

    /// VAL's result, the body of an entry whose name ends before `b`: the
    /// cells after `b` up to the first marker, which `W` is left just before.
    pub(crate) open spec fn val_loaded(&self, o: &Self, b: int) -> bool {
        let st = o.st@;
        let m = self.w + 1;
        &&& b < m
        &&& o.h == 0 || m <= o.s ==> {
            &&& m < st.len()
            &&& st[m] == MARKER
            &&& forall|k: int| b < k < m ==> st[k] != MARKER
            &&& self.loaded(o, st.subrange(b + 1, m))
        }
    }

    /// VAL: the body of the entry named by the first argument, loaded as the result.
    pub(crate) fn op_val(&mut self) -> (r: Pc)
        requires
            old(self).core_wf(),
        ensures
            final(self).op_post(old(self), r),
            r == Pc::EndFn || r == Pc::Monitor(7) || r == Pc::Monitor(11),
            r == Pc::EndFn ==> exists|a: int|
                #[trigger] names_entry(old(self).st@, old(self).p + 6, a)
                    && final(self).val_loaded(old(self), a + 1 + old(self).st@[old(self).p + 6]),
            ({
                let st = old(self).st@;
                let x = old(self).p + 6;
                &&& 0 <= x < st.len()
                &&& 0 <= st[x]
                &&& x + st[x] <= st.len()
                &&& chain_wf(st, x, old(self).e as int)
            }) ==> {
                let st = old(self).st@;
                let x = old(self).p + 6;
                match lookup(st, x, old(self).e as int) {
                    None => r == Pc::Monitor(7),
                    Some(a) => {
                        let b = a + 1 + st[x];
                        let m = first_marker(st, b + 1);
                        &&& m < st.len() && (old(self).h == 0 || (m < old(self).s && old(self).s
                            + (m - b - 1) <= st.len())) ==> r == Pc::EndFn
                        &&& r == Pc::EndFn ==> final(self).val_loaded(old(self), b)
                    },
                }
            },
    {
        match self.find(self.p as i64 + 6) {
            Ok(()) => {},
            Err(n) => return Pc::Monitor(n),
        }
        let ghost st = old(self).st@;
        let ghost a = choose|a: int|
            #[trigger] names_entry(st, old(self).p + 6, a) && self.w == a + 1 + st[old(self).p
                + 6];
        let ghost b = self.w as int;
        let mut w: i64 = self.w as i64;
        let ghost ok = first_marker(st, b + 1) < st.len() && (old(self).h == 0 || (first_marker(
            st,
            b + 1,
        ) < old(self).s && old(self).s + (first_marker(st, b + 1) - b - 1) <= st.len()));
        if w + 1 >= self.st.len() as i64 {
            return Pc::Monitor(11);
        }
        proof {
            lemma_first_marker(st, b + 1);
        }
        assert(st.subrange(b + 1, b + 1) =~= Seq::<Cell>::empty());
        assert(Seq::<Cell>::empty().map_values(|x: Cell| symbol_of(x)) =~= Seq::<char>::empty());
        assert(old(self).output@ + Seq::<char>::empty() =~= old(self).output@);
        assert(old(self).st@.subrange(0, old(self).s as int) + Seq::<Cell>::empty()
            + old(self).st@.subrange(old(self).s as int, old(self).st@.len() as int)
            =~= old(self).st@);
        while w + 1 < self.st.len() as i64
            invariant
                self.op_post(old(self), Pc::Start),
                old(self).core_wf(),
                st == old(self).st@,
                self.h == old(self).h,
                self.w == w,
                names_entry(st, old(self).p + 6, a),
                b == a + 1 + st[old(self).p + 6],
                b <= w,
                Cell::MIN <= w <= Cell::MAX,
                old(self).h == 0 || w < old(self).s ==> {
                    &&& forall|k: int| b < k <= w ==> st[k] != MARKER
                    &&& self.loaded(old(self), st.subrange(b + 1, w + 1))
                },
                ok == (first_marker(st, b + 1) < st.len() && (old(self).h == 0 || (first_marker(
                    st,
                    b + 1,
                ) < old(self).s && old(self).s + (first_marker(st, b + 1) - b - 1) <= st.len()))),
                ({
                    let x = old(self).p + 6;
                    &&& 0 <= x < st.len()
                    &&& 0 <= st[x]
                    &&& x + st[x] <= st.len()
                    &&& chain_wf(st, x, old(self).e as int)
                }) ==> (lookup(st, old(self).p + 6, old(self).e as int) matches Some(aa) && b == aa
                    + 1 + st[old(self).p + 6]),
                ok ==> w + 1 <= first_marker(st, b + 1) && first_marker(st, w + 1) == first_marker(
                    st,
                    b + 1,
                ),
            decreases self.st@.len() - w,
        {
            let v = match self.get(w + 1) {
                Some(v) => v,
                None => return Pc::Monitor(11),
            };
            if v == MARKER {
                return Pc::EndFn;
            }
            proof {
                if ok {
                    assert(v == st[w + 1]);
                    lemma_first_marker(st, w + 2);
                }
            }
            let ghost before = *self;
            self.a = v;
            w = w + 1;
            self.w = w as Cell;
            let ghost mid = *self;
            if !self.load() {
                return Pc::Monitor(11);
            }
            proof {
                if old(self).h == 0 || w < old(self).s {
                    assert(before.loaded(old(self), st.subrange(b + 1, w as int)));
                    assert(mid.loaded(old(self), st.subrange(b + 1, w as int)));
                    assert(mid.a == st[w as int]);
                    self.lemma_load_more(&mid, old(self), st.subrange(b + 1, w as int));
                    assert(st.subrange(b + 1, w as int).push(st[w as int]) =~= st.subrange(
                        b + 1,
                        w + 1,
                    ));
                }
            }
        }
        Pc::Monitor(11)
    }

    /// UPDATE: overwrites the body of the entry named by the first argument
    /// with the second argument, which must not be longer.
    pub(crate) fn op_update(&mut self) -> (r: Pc)
        requires
            old(self).core_wf(),
        ensures
            final(self).op_post(old(self), r),
            final(self).output == old(self).output,
            r == Pc::EndFn || r == Pc::Monitor(7) || r == Pc::Monitor(9) || r == Pc::Monitor(
                11,
            ),
            r == Pc::EndFn || r == Pc::Monitor(9) ==> {
                let st = old(self).st@;
                let p9 = old(self).p + 9;
                let w = final(self).w as int;
                &&& 0 <= p9 < st.len()
                &&& 0 <= p9 + st[p9] < st.len()
                &&& 0 <= w < st.len()
                &&& (r == Pc::Monitor(9) <==> st[p9 + st[p9]] > st[w])
            },
            r == Pc::EndFn ==> {
                let st = old(self).st@;
                let a0 = old(self).p + 9 + st[old(self).p + 9];
                let w = final(self).w as int;
                let n = st[a0];
                &&& w <= a0 ==> forall|k: int|
                    1 <= k <= n ==> final(self).st@[w + k] == #[trigger] st[a0 + k]
                &&& forall|j: int|
                    0 <= j < st.len() && !(w + 1 <= j <= w + n) ==> final(self).st@[j] == st[j]
            },
            r == Pc::Monitor(9) ==> final(self).st == old(self).st,
            final(self).s == old(self).s && final(self).e == old(self).e,
            ({
                let st = old(self).st@;
                let x = old(self).p + 9;
                &&& 0 <= x < st.len()
                &&& 0 <= st[x]
                &&& x + st[x] <= st.len()
                &&& chain_wf(st, x, old(self).e as int)
            }) ==> (lookup(old(self).st@, old(self).p + 9, old(self).e as int) matches Some(a)
                ==> final(self).w == a + 1 + old(self).st@[old(self).p + 9]),
            ({
                let st = old(self).st@;
                let x = old(self).p + 9;
                &&& 0 <= x < st.len()
                &&& 0 <= st[x]
                &&& x + st[x] <= st.len()
                &&& chain_wf(st, x, old(self).e as int)
            }) ==> {
                let st = old(self).st@;
                let x = old(self).p + 9;
                let a0 = x + st[x];
                match lookup(st, x, old(self).e as int) {
                    None => r == Pc::Monitor(7),
                    Some(a) => {
                        let w = a + 1 + st[x];
                        &&& a0 < st.len() && w < st.len() && st[a0] > st[w] ==> r == Pc::Monitor(
                            9,
                        )
                        &&& a0 < st.len() && w < st.len() && st[a0] <= st[w] && a0 + st[a0]
                            < st.len() && w + st[a0] < st.len() ==> r == Pc::EndFn
                    },
                }
            },
    {
        let p9 = self.p as i64 + 9;
        match self.find(p9) {
            Ok(()) => {},
            Err(n) => return Pc::Monitor(n),
        }
        let ghost st = self.st@;
        let w = self.w as i64;
        let a0 = match self.get(p9) {
            Some(v) => p9 + v as i64,
            None => return Pc::Monitor(11),
        };
        let len_new = match self.get(a0) {
            Some(v) => v as i64,
            None => return Pc::Monitor(11),
        };
        let len_old = match self.get(w) {
            Some(v) => v as i64,
            None => return Pc::Monitor(11),
        };
        if len_new > len_old {
            return Pc::Monitor(9);
        }
        let mut r: i64 = 1;
        while r <= len_new
            invariant
                self.op_post(old(self), Pc::Start),
                self.output == old(self).output,
                self.w == w,
                st == old(self).st@,
                self.st@.len() == st.len(),
                1 <= r,
                len_new <= Cell::MAX,
                0 <= w < st.len(),
                0 <= a0 < st.len(),
                forall|j: int| 0 <= j < st.len() && !(w + 1 <= j < w + r) ==> self.st@[j] == st[j],
                w <= a0 ==> forall|k: int|
                    1 <= k < r ==> self.st@[w + k] == #[trigger] st[a0 + k],
                self.s == old(self).s,
                self.e == old(self).e,
                len_new <= len_old,
                r <= if len_new >= 0 {
                    len_new + 1
                } else {
                    1
                },
                a0 == p9 + st[p9 as int],
                p9 == old(self).p + 9,
                0 <= p9 < st.len(),
                len_new == st[a0 as int],
                len_old == st[w as int],
                ({
                    &&& 0 <= st[p9 as int]
                    &&& p9 + st[p9 as int] <= st.len()
                    &&& chain_wf(st, p9 as int, old(self).e as int)
                }) ==> (lookup(st, p9 as int, old(self).e as int) matches Some(a) && w == a + 1
                    + st[p9 as int]),
                a0 + len_new < st.len() && w + len_new < st.len() ==> w + r <= st.len() && a0 + r
                    <= st.len(),
            decreases len_new + 1 - r,
        {
            let v = match self.get(a0 + r) {
                Some(v) => v,
                None => return Pc::Monitor(11),
            };
            if !self.put(w + r, v) {
                return Pc::Monitor(11);
            }
            r = r + 1;
        }
        Pc::EndFn
    }

    /// BIN: reads the first argument as a signed decimal number and leaves
    /// its value in one cell on the stack.
    pub(crate) fn op_bin(&mut self) -> (r: Pc)
        requires
            old(self).core_wf(),
        ensures
            final(self).op_post(old(self), r),
            final(self).output == old(self).output,
            r == Pc::EndFn || r == Pc::Monitor(10) || r == Pc::Monitor(11),
            r == Pc::Monitor(10) ==> final(self).st == old(self).st && final(self).regs_same(
                old(self),
            ),
            r == Pc::EndFn ==> {
                let st = old(self).st@;
                let p7 = old(self).p + 7;
                let sign = st[p7];
                let start = number_start(st, p7);
                &&& 0 <= p7 < st.len()
                &&& final(self).s == old(self).s + 1
                &&& exists|n: int|
                    #![trigger st.subrange(number_start(st, p7), n)]
                    start <= n < st.len() && st[n] == MARKER && (forall|k: int|
                        start <= k < n ==> is_digit(#[trigger] st[k])) && final(self).st@[old(
                        self,
                    ).s as int] == if sign == '-' as Cell {
                        -digits_value(st.subrange(start, n))
                    } else {
                        digits_value(st.subrange(start, n))
                    }
            },
            ({
                let st = old(self).st@;
                let p7 = old(self).p + 7;
                &&& 0 <= p7 < st.len()
                &&& first_stop(st, number_start(st, p7)) < st.len()
                &&& digits_value(
                    st.subrange(number_start(st, p7), first_stop(st, number_start(st, p7))),
                ) <= Cell::MAX
            }) ==> {
                let st = old(self).st@;
                let n = first_stop(st, number_start(st, old(self).p + 7));
                &&& st[n] == MARKER && old(self).s < st.len() ==> r == Pc::EndFn
                &&& st[n] != MARKER ==> r == Pc::Monitor(10)
            },
    {
        let ghost st = self.st@;
        let p7 = self.p as i64 + 7;
        let sign = match self.get(p7) {
            Some(v) => v,
            None => return Pc::Monitor(11),
        };
        let start: i64 = if sign == '+' as Cell || sign == '-' as Cell {
            p7 + 1
        } else {
            p7
        };
        let mut a: i64 = start;
        let mut acc: i64 = 0;
        assert(st.subrange(start as int, start as int) =~= Seq::<Cell>::empty());
        proof {
            lemma_first_stop_digits(st, start as int);
        }
        loop
            invariant
                self.op_post(old(self), Pc::Start),
                self.output == old(self).output,
                self.st@ == st,
                st == old(self).st@,
                0 <= acc <= Cell::MAX,
                0 <= start <= a <= Cell::MAX as i64 + 8,
                a <= st.len(),
                forall|k: int| start <= k < a ==> is_digit(#[trigger] st[k]),
                acc == digits_value(st.subrange(start as int, a as int)),
                a <= first_stop(st, start as int),
                first_stop(st, a as int) == first_stop(st, start as int),
                0 <= old(self).p + 7 < st.len(),
                start == number_start(st, old(self).p + 7),
            ensures
                0 <= a < st.len(),
                st[a as int] == MARKER,
            decreases Cell::MAX as i64 + 8 - a,
        {
            let ch = match self.get(a) {
                Some(v) => v,
                None => return Pc::Monitor(11),
            };
            if ch == MARKER {
                break;
            }
            let x = number(ch);
            if x < 0 || x > 9 {
                return Pc::Monitor(10);
            }
            assert(st.subrange(start as int, a + 1).drop_last() =~= st.subrange(
                start as int,
                a as int,
            ));
            proof {
                assert(is_digit(st[a as int]));
                lemma_first_stop_digits(st, a + 1);
            }
            acc = 10 * acc + x;
            if acc > Cell::MAX as i64 {
                proof {
                    let fs = first_stop(st, start as int);
                    if 0 <= old(self).p + 7 < st.len() && fs < st.len() {
                        lemma_first_stop_digits(st, a as int);
                        let run = st.subrange(start as int, fs);
                        assert(a < fs);
                        assert forall|k: int| 0 <= k < run.len() implies is_digit(
                            #[trigger] run[k],
                        ) by {
                            if start + k >= a {
                                assert(is_digit(st[start + k]));
                            }
                        }
                        lemma_digits_prefix(run, a + 1 - start);
                        assert(run.subrange(0, a + 1 - start) =~= st.subrange(
                            start as int,
                            a + 1,
                        ));
                    }
                }
                return Pc::Monitor(11);
            }
            a = a + 1;
        }
        let value: Cell = if sign == '-' as Cell {
            -(acc as Cell)
        } else {
            acc as Cell
        };
        let s0 = self.s;
        if !self.put(s0 as i64, value) {
            return Pc::Monitor(11);
        }
        self.s = s0 + 1;
        assert(number_start(st, p7 as int) == start);
        assert({
            let n = a as int;
            &&& start <= n < st.len()
            &&& st[n] == MARKER
            &&& forall|k: int| start <= k < n ==> is_digit(#[trigger] st[k])
            &&& self.st@[s0 as int] == if sign == '-' as Cell {
                -digits_value(st.subrange(number_start(st, p7 as int), n))
            } else {
                digits_value(st.subrange(number_start(st, p7 as int), n))
            }
        });
        Pc::EndFn
    }

    /// DEC: loads the decimal digits of the number in the first argument's
    /// first cell, with a minus sign where it is negative.
    pub(crate) fn op_dec(&mut self) -> (r: Pc)
        requires
            old(self).core_wf(),
        ensures
            final(self).op_post(old(self), r),
            r == Pc::EndFn || r == Pc::Monitor(11),
            r == Pc::EndFn ==> {
                let i = old(self).p + 7;
                0 <= i < old(self).st@.len() && final(self).loaded(
                    old(self),
                    decimal_text(old(self).st@[i] as int),
                )
            },
            ({
                let i = old(self).p + 7;
                &&& 0 <= i < old(self).st@.len()
                &&& old(self).h == 0 || old(self).s + decimal_text(old(self).st@[i] as int).len()
                    <= old(self).st@.len()
            }) ==> r == Pc::EndFn,
    {
        let ghost o = *old(self);
        let value = match self.get(self.p as i64 + 7) {
            Some(v) => v as i64,
            None => return Pc::Monitor(11),
        };
        let ghost room = o.h == 0 || o.s + decimal_text(value as int).len() <= o.st@.len();
        proof {
            let n: nat = if value < 0 {
                (-value) as nat
            } else {
                value as nat
            };
            assert(decimal_cells(n).len() >= 1);
        }
        let ghost mut done: Seq<Cell> = Seq::empty();
        assert(Seq::<Cell>::empty().map_values(|x: Cell| symbol_of(x)) =~= Seq::<char>::empty());
        assert(o.output@ + Seq::<char>::empty() =~= o.output@);
        assert(o.st@.subrange(0, o.s as int) + Seq::<Cell>::empty() + o.st@.subrange(
            o.s as int,
            o.st@.len() as int,
        ) =~= o.st@);
        let mut w: i64 = value;
        if w < 0 {
            w = -w;
            self.a = '-' as Cell;
            let ghost mid = *self;
            if !self.load() {
                return Pc::Monitor(11);
            }
            proof {
                self.lemma_load_more(&mid, &o, done);
                done = done.push('-' as Cell);
            }
        }
        let digits = decimal_digits(w as u32);
        let ghost base = done;
        assert(base + digits@.reverse() =~= decimal_text(value as int));
        let mut k: usize = digits.len();
        while k > 0
            invariant
                self.op_post(old(self), Pc::Start),
                base + digits@.reverse() == decimal_text(value as int),
                room == (o.h == 0 || o.s + decimal_text(value as int).len() <= o.st@.len()),
                0 <= o.p + 7 < o.st@.len(),
                value == o.st@[o.p + 7],
                self.h == o.h,
                o == *old(self),
                o.core_wf(),
                0 <= k <= digits@.len(),
                done == base + digits@.reverse().subrange(0, digits@.len() - k),
                self.loaded(&o, done),
            decreases k,
        {
            self.a = digits[k - 1];
            let ghost mid = *self;
            assert(done.len() == base.len() + digits@.len() - k);
            assert(decimal_text(value as int).len() == base.len() + digits@.len());
            if !self.load() {
                return Pc::Monitor(11);
            }
            proof {
                self.lemma_load_more(&mid, &o, done);
                assert(digits@.reverse()[digits@.len() - k] == digits@[k - 1]);
                assert(base + digits@.reverse().subrange(0, digits@.len() - k + 1) =~= done.push(
                    digits@[k - 1],
                ));
                done = done.push(digits@[k - 1]);
            }
            k = k - 1;
        }
        assert(digits@.reverse().subrange(0, digits@.len() as int) =~= digits@.reverse());
        assert(done =~= decimal_text(value as int));
        Pc::EndFn
    }

    /// BAR: the arithmetic operation named by the first argument on the
    /// numbers in the second and third, loaded as the result.
    pub(crate) fn op_bar(&mut self) -> (r: Pc)
        requires
            old(self).core_wf(),
        ensures
            final(self).op_post(old(self), r),
            r == Pc::EndFn || r == Pc::Monitor(11),
            r == Pc::EndFn ==> {
                let st = old(self).st@;
                let p = old(self).p as int;
                &&& 0 <= p + 7 && p + 11 < st.len()
                &&& bar_value(st[p + 7], st[p + 9] as int, st[p + 11] as int) == Some(
                    final(self).a as int,
                )
            },
            ({
                let st = old(self).st@;
                let p = old(self).p as int;
                0 <= p + 7 && p + 11 < st.len() && bar_value(st[p + 7], st[p + 9] as int, st[p
                    + 11] as int) is None
            }) ==> r == Pc::Monitor(11) && final(self).st == old(self).st && final(self).output
                == old(self).output && final(self).regs_same(old(self)),
            r == Pc::EndFn ==> final(self).loaded(old(self), seq![final(self).a]),
            ({
                let st = old(self).st@;
                let p = old(self).p as int;
                &&& 0 <= p + 7
                &&& p + 11 < st.len()
                &&& bar_value(st[p + 7], st[p + 9] as int, st[p + 11] as int) is Some
                &&& old(self).h == 0 || old(self).s < st.len()
            }) ==> r == Pc::EndFn,
            r == Pc::Monitor(11) && old(self).h == 0 ==> final(self).output == old(self).output,
    {
        let p = self.p as i64;
        let op = match self.get(p + 7) {
            Some(v) => v,
            None => return Pc::Monitor(11),
        };
        let x = match self.get(p + 9) {
            Some(v) => v as i64,
            None => return Pc::Monitor(11),
        };
        let y = match self.get(p + 11) {
            Some(v) => v as i64,
            None => return Pc::Monitor(11),
        };
        let res: i64 = if op == '+' as Cell {
            x + y
        } else if op == '-' as Cell {
            x - y
        } else if op == 'x' as Cell {
            assert(-0x4000_0000_0000_0000 <= x * y <= 0x4000_0000_0000_0000) by (nonlinear_arith)
                requires
                    Cell::MIN <= x <= Cell::MAX,
                    Cell::MIN <= y <= Cell::MAX,
            ;
            x * y
        } else if op == '/' as Cell || op == 'R' as Cell {
            if y == 0 {
                return Pc::Monitor(11);
            }
            let ax: i64 = if x < 0 {
                -x
            } else {
                x
            };
            let ay: i64 = if y < 0 {
                -y
            } else {
                y
            };
            let aq = ax / ay;
            assert(0 <= aq <= ax) by (nonlinear_arith)
                requires
                    0 <= ax,
                    1 <= ay,
                    aq == ax / ay,
            ;
            let q: i64 = if (x < 0) != (y < 0) {
                -aq
            } else {
                aq
            };
            if op == '/' as Cell {
                q
            } else {
                assert(-0x4000_0000_0000_0000 <= y * q <= 0x4000_0000_0000_0000) by (
                nonlinear_arith)
                    requires
                        Cell::MIN <= y <= Cell::MAX,
                        -0x8000_0000 <= q <= 0x8000_0000,
                ;
                x - y * q
            }
        } else {
            return Pc::Monitor(11);
        };
        self.a = match to_cell(res) {
            Some(v) => v,
            None => return Pc::Monitor(11),
        };
        let ghost mid = *self;
        if !self.load() {
            return Pc::Monitor(11);
        }
        proof {
            let o = *old(self);
            assert(Seq::<Cell>::empty().map_values(|x: Cell| symbol_of(x)) =~= Seq::<char>::empty());
            assert(o.output@ + Seq::<char>::empty() =~= o.output@);
            assert(o.st@.subrange(0, o.s as int) + Seq::<Cell>::empty() + o.st@.subrange(
                o.s as int,
                o.st@.len() as int,
            ) =~= o.st@);
            self.lemma_load_more(&mid, &o, Seq::empty());
            assert(Seq::<Cell>::empty().push(mid.a) =~= seq![self.a]);
        }
        Pc::EndFn
    }

}

} // verus!
